//! What the readings and notations of text come to, told character by character.

use crate::order::text_lt;
use crate::text::{
    after_spaces, before_spaces, contains_text, dec, digits_from, digits_value, find_from,
    find_text_from, is_digit, is_space, lemma_find_from, lemma_pieces_first, lemma_pieces_whole,
    lemma_text_found, lemma_word_end, lines, lines_to, no_return, number, pieces, trimmed,
    unsigned_part, word_end, words, words_from,
};
use vstd::prelude::*;

verus! {

/// Decimal notation: a single digit below ten, and above it the notation of the
/// tenth part with one more digit.
pub proof fn lemma_dec_grows(n: nat, d: nat)
    requires
        d < 10,
    ensures
        dec(d).len() == 1 && dec(d)[0] as u32 == 48 + d,
        n > 0 ==> dec(10 * n + d).len() == dec(n).len() + 1,
        n > 0 ==> dec(10 * n + d).drop_last() == dec(n),
        n > 0 ==> dec(10 * n + d).last() as u32 == 48 + d,
{
    assert((10 * n + d) / 10 == n);
    assert((10 * n + d) % 10 == d);
    if n > 0 {
        assert(dec(10 * n + d).drop_last() =~= dec(n));
    }
}

/// A character alone is a number if and only if it is a digit that is not too
/// large.
pub proof fn lemma_number_one(c: char, max: nat)
    ensures
        match number(seq![c], max) {
            Some(n) => '0' <= c <= '9' && n == c as u32 - 48 && n <= max,
            None => c < '0' || c > '9' || c as u32 - 48 > max,
        },
{
    let s = seq![c];
    let d = unsigned_part(s);
    if c != '+' {
        assert(d =~= s);
        assert(digits_value(d, 0) == 0);
        assert(digits_value(d, 1) == digits_value(d, 0) * 10 + ((d[0] as u32 - 48) as nat));
        if number(s, max) is None && '0' <= c <= '9' && c as u32 - 48 <= max {
            assert(digits_from(d, 0));
        }
        if number(s, max) is Some {
            assert(is_digit(d[0]));
        }
    } else {
        assert(d.len() == 0);
    }
}

proof fn lemma_value_prefix(s: Seq<char>, c: char, n: int)
    requires
        0 <= n <= s.len(),
    ensures
        digits_value(s.push(c), n) == digits_value(s, n),
    decreases n,
{
    if n > 0 {
        lemma_value_prefix(s, c, n - 1);
        assert(s.push(c)[n - 1] == s[n - 1]);
    }
}

/// A number with one more character is ten times as large and the digit more, if
/// the character is a digit and the result is not too large, and else no number.
/// So a number has as many digits as it needs, and its size alone refuses it.
pub proof fn lemma_number_more(s: Seq<char>, c: char, max: nat, n: nat)
    requires
        number(s, n) == Some(n),
    ensures
        match number(s.push(c), max) {
            Some(m) => '0' <= c <= '9' && m == 10 * n + (c as u32 - 48) && m <= max,
            None => c < '0' || c > '9' || 10 * n + (c as u32 - 48) > max,
        },
{
    let t = s.push(c);
    let d = unsigned_part(s);
    let e = unsigned_part(t);
    assert(e =~= d.push(c));
    lemma_value_prefix(d, c, d.len() as int);
    assert(digits_value(e, e.len() as int) == digits_value(e, e.len() - 1) * 10 + ((
    e[e.len() - 1] as u32 - 48) as nat));
    assert(e[e.len() - 1] == c);
    if '0' <= c <= '9' {
        assert(digits_from(e, 0)) by {
            assert forall|k: int| 0 <= k < e.len() implies is_digit(
                #[trigger] e[k],
            ) by {
                if k < d.len() {
                    assert(e[k] == d[k]);
                    assert(is_digit(d[k]));
                }
            }
        }
    } else {
        assert(!is_digit(e[e.len() - 1]));
    }
}

/// A bound refuses numbers above it and changes no other.
pub proof fn lemma_number_bound(s: Seq<char>, max: nat, more: nat)
    requires
        max <= more,
    ensures
        number(s, max) is Some ==> number(s, more) == number(s, max),
        number(s, more) matches Some(n) ==> number(s, max) == if n <= max {
            Some(n)
        } else {
            None
        },
{
}

proof fn lemma_digit_char(c: char)
    ensures
        is_digit(c) <==> '0' <= c <= '9',
{
}

/// A number is made of digits, with at most one plus sign before them; nothing
/// else is a number.
pub proof fn lemma_number_chars(s: Seq<char>, max: nat)
    ensures
        number(s, max) is Some ==> s.len() > 0 && forall|i: int|
            0 <= i < s.len() ==> '0' <= #[trigger] s[i] <= '9' || (i == 0 && s[i] == '+' && s.len()
                > 1),
        s.len() > 0 && s[0] != '+' ==> number(seq!['+'] + s, max) == number(s, max),
{
    let d = unsigned_part(s);
    if number(s, max) is Some {
        assert forall|i: int| 0 <= i < s.len() implies '0' <= #[trigger] s[i] <= '9' || (i == 0
            && s[i] == '+' && s.len() > 1) by {
            lemma_digit_char(s[i]);
            if s[0] == '+' {
                assert(d.len() == s.len() - 1);
                if i > 0 {
                    assert(s[i] == d[i - 1]);
                    assert(is_digit(d[i - 1]));
                }
            } else {
                assert(is_digit(d[i]));
            }
        }
    }
    if s.len() > 0 && s[0] != '+' {
        assert(unsigned_part(seq!['+'] + s) =~= s);
    }
}

/// The white space of ASCII is the space and the characters from the tabulator
/// to the carriage return.
pub proof fn lemma_space_ascii(c: char)
    requires
        (c as u32) < 128,
    ensures
        is_space(c) <==> c as u32 == 32 || 9 <= c as u32 <= 13,
{
}

/// White space is passed over up to the first character that is none.
pub proof fn lemma_after_spaces(s: Seq<char>, i: int)
    requires
        0 <= i <= s.len(),
    ensures
        i <= after_spaces(s, i) <= s.len(),
        forall|j: int| i <= j < after_spaces(s, i) ==> is_space(#[trigger] s[j]),
        after_spaces(s, i) < s.len() ==> !is_space(s[after_spaces(s, i)]),
    decreases s.len() - i,
{
    if i < s.len() && is_space(s[i]) {
        lemma_after_spaces(s, i + 1);
    }
}

proof fn lemma_before_spaces(s: Seq<char>, lo: int, n: int)
    requires
        0 <= lo <= n <= s.len(),
    ensures
        lo <= before_spaces(s, lo, n) <= n,
        forall|j: int| before_spaces(s, lo, n) <= j < n ==> is_space(#[trigger] s[j]),
        before_spaces(s, lo, n) > lo ==> !is_space(s[before_spaces(s, lo, n) - 1]),
    decreases n - lo,
{
    if lo < n && is_space(s[n - 1]) {
        lemma_before_spaces(s, lo, n - 1);
    }
}

/// Trimming cuts white space off both ends, all of it, and nothing else.
pub proof fn lemma_trimmed_ends(s: Seq<char>)
    ensures
        exists|a: int, b: int|
            0 <= a <= b <= s.len() && trimmed(s) == #[trigger] s.subrange(a, b) && (forall|j: int|
                0 <= j < a ==> is_space(#[trigger] s[j])) && (forall|j: int|
                b <= j < s.len() ==> is_space(#[trigger] s[j])),
        trimmed(s).len() > 0 ==> !is_space(trimmed(s)[0]) && !is_space(trimmed(s).last()),
{
    let a = after_spaces(s, 0);
    lemma_after_spaces(s, 0);
    let b = before_spaces(s, a, s.len() as int);
    lemma_before_spaces(s, a, s.len() as int);
    assert(trimmed(s) == s.subrange(a, b));
    if a < b {
        assert(s.subrange(a, b)[0] == s[a]);
        assert(s.subrange(a, b).last() == s[b - 1]);
    }
}

/// White space before a text changes nothing of its words; a word with white
/// space behind it comes before the words of the rest.
pub proof fn lemma_words_taken(w: Seq<char>, c: char, rest: Seq<char>)
    requires
        is_space(c),
        forall|j: int| 0 <= j < w.len() ==> !is_space(#[trigger] w[j]),
    ensures
        w.len() == 0 ==> words(w + seq![c] + rest) == words(rest),
        w.len() > 0 ==> words(w + seq![c] + rest) == seq![w] + words(rest),
        w.len() > 0 ==> words(w) == seq![w],
        words(Seq::<char>::empty()) == Seq::<Seq<char>>::empty(),
{
    let s = w + seq![c] + rest;
    let n = w.len() as int;
    let p = w + seq![c];
    assert(s =~= p + rest);
    lemma_words_shift(p, rest, 0);
    assert(words_from(Seq::<char>::empty(), 0) =~= Seq::empty());
    assert(s[n] == c);
    lemma_spaces_after(s, n);
    if n > 0 {
        assert(s[0] == w[0]);
        assert(after_spaces(s, 0) == 0);
        lemma_run(s, 0, n);
        assert(s.subrange(0, n) =~= w);
        assert(words_from(s, 0) == seq![w] + words_from(s, n));
        lemma_run(w, 0, n);
        assert(after_spaces(w, 0) == 0);
        assert(w.subrange(0, n) =~= w);
        assert(words_from(w, n) =~= Seq::empty());
        assert(words_from(w, 0) =~= seq![w]);
    }
}

proof fn lemma_run(s: Seq<char>, i: int, n: int)
    requires
        0 <= i <= n <= s.len(),
        forall|j: int| i <= j < n ==> !is_space(#[trigger] s[j]),
        n < s.len() ==> is_space(s[n]),
    ensures
        word_end(s, i) == n,
    decreases n - i,
{
    if i < n {
        assert(!is_space(s[i]));
        lemma_run(s, i + 1, n);
    }
}

/// A space in front of the rest changes nothing of its words.
proof fn lemma_spaces_after(s: Seq<char>, n: int)
    requires
        0 <= n < s.len(),
        is_space(s[n]),
    ensures
        words_from(s, n) == words_from(s, n + 1),
{
    assert(after_spaces(s, n) == after_spaces(s, n + 1));
}

proof fn lemma_shift_ends(p: Seq<char>, t: Seq<char>, i: int)
    requires
        0 <= i <= t.len(),
    ensures
        after_spaces(p + t, p.len() + i) == p.len() + after_spaces(t, i),
        word_end(p + t, p.len() + i) == p.len() + word_end(t, i),
    decreases t.len() - i,
{
    if i < t.len() {
        assert((p + t)[p.len() + i] == t[i]);
        lemma_shift_ends(p, t, i + 1);
    }
}

proof fn lemma_words_shift(p: Seq<char>, t: Seq<char>, i: int)
    requires
        0 <= i <= t.len(),
    ensures
        words_from(p + t, p.len() + i) == words_from(t, i),
    decreases t.len() - i,
{
    let s = p + t;
    lemma_shift_ends(p, t, i);
    lemma_after_spaces(t, i);
    let a = after_spaces(t, i);
    if a < t.len() {
        lemma_shift_ends(p, t, a);
        lemma_word_end(t, a);
        let b = word_end(t, a);
        assert(s.subrange(p.len() + a, p.len() + b) =~= t.subrange(a, b));
        lemma_words_shift(p, t, b);
    }
}

proof fn lemma_lines_head(ps: Seq<Seq<char>>, a: Seq<char>, n: int)
    requires
        0 <= n <= ps.len(),
        ps.len() > 0,
    ensures
        lines_to(seq![a] + ps, n + 1) == seq![no_return(a)] + lines_to(ps, n),
    decreases n,
{
    let all = seq![a] + ps;
    if n == 0 {
        assert(lines_to(all, 0) =~= Seq::empty());
        assert(lines_to(all, 1) =~= seq![no_return(a)] + lines_to(ps, 0));
    } else {
        lemma_lines_head(ps, a, n - 1);
        assert(all[n] == ps[n - 1]);
        assert(lines_to(all, n + 1) =~= seq![no_return(a)] + lines_to(ps, n));
    }
}

/// A text up to its first line feed is its first line, but for a carriage return
/// at its end, and the lines of the rest follow. A text without a line feed is a
/// line if there is something in it.
pub proof fn lemma_lines_taken(l: Seq<char>, rest: Seq<char>)
    requires
        forall|j: int| 0 <= j < l.len() ==> l[j] != '\n',
    ensures
        lines(l + seq!['\n'] + rest) == seq![
            if l.len() > 0 && l.last() == '\r' {
                l.drop_last()
            } else {
                l
            },
        ] + lines(rest),
        lines(l) == if l.len() > 0 {
            seq![l]
        } else {
            Seq::empty()
        },
{
    lemma_pieces_first(l, '\n', rest);
    let ps = pieces(rest, '\n');
    lemma_find_from(rest, '\n', 0);
    assert(ps.len() > 0);
    lemma_lines_head(ps, l, ps.len() as int);
    lemma_pieces_whole(l, '\n');
    assert(lines_to(seq![l], 0) =~= Seq::empty());
    assert(lines(l) =~= if l.len() > 0 {
        seq![l]
    } else {
        Seq::empty()
    });
}

/// The last line of a text that ends in a line without a line feed behind it.
pub proof fn lemma_last_line(a: Seq<char>, l: Seq<char>)
    requires
        a.len() == 0 || a.last() == '\n',
        l.len() > 0,
        forall|j: int| 0 <= j < l.len() ==> l[j] != '\n',
    ensures
        lines(a + l).len() > 0,
        lines(a + l).last() == l,
    decreases a.len(),
{
    if a.len() == 0 {
        assert(a + l =~= l);
        lemma_lines_taken(l, Seq::empty());
    } else {
        lemma_find_from(a, '\n', 0);
        assert(find_from(a, '\n', 0) is Some) by {
            assert(a[a.len() - 1] == '\n');
        }
        let k = find_from(a, '\n', 0)->0;
        let head = a.take(k);
        let more = a.skip(k + 1);
        assert forall|j: int| 0 <= j < head.len() implies head[j] != '\n' by {
            assert(head[j] == a[j]);
        }
        lemma_lines_taken(head, more + l);
        assert(a + l =~= head + seq!['\n'] + (more + l));
        if more.len() > 0 {
            assert(more.last() == a.last());
        }
        lemma_last_line(more, l);
    }
}

/// A text occurs in another if and only if it stands there at some index.
pub proof fn lemma_contains_text(s: Seq<char>, p: Seq<char>)
    ensures
        contains_text(s, p) <==> exists|i: int|
            0 <= i && i + p.len() <= s.len() && #[trigger] s.subrange(i, i + p.len()) == p,
{
    lemma_text_found(s, p, 0);
    if let Some(k) = find_text_from(s, p, 0) {
        assert(s.subrange(k, k + p.len()) == p);
    }
}

/// Texts are ordered by the first character in which they differ, and one that
/// another starts with comes before it.
pub proof fn lemma_text_order(p: Seq<char>, a: Seq<char>, b: Seq<char>)
    ensures
        a.len() == 0 ==> (text_lt(p + a, p + b) <==> b.len() > 0),
        a.len() > 0 && b.len() == 0 ==> !text_lt(p + a, p + b),
        a.len() > 0 && b.len() > 0 && a[0] != b[0] ==> (text_lt(p + a, p + b) <==> a[0] < b[0]),
    decreases p.len(),
{
    if p.len() == 0 {
        assert(p + a =~= a);
        assert(p + b =~= b);
    } else {
        lemma_text_order(p.skip(1), a, b);
        assert((p + a).skip(1) =~= p.skip(1) + a);
        assert((p + b).skip(1) =~= p.skip(1) + b);
    }
}

} // verus!
