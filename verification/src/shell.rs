//! Words for a remote shell.

use crate::text::{chars_of, same, starts, starts_with};
use vstd::prelude::*;

verus! {

/// The characters that keep a special meaning inside double quotes.
pub open spec fn dq_special(c: char) -> bool {
    c == '\\' || c == '"' || c == '$' || c == '`'
}

/// The text with a backslash before each character that is special inside
/// double quotes.
pub open spec fn dq_escaped(s: Seq<char>) -> Seq<char>
    decreases s.len(),
{
    if s.len() == 0 {
        Seq::empty()
    } else {
        (if dq_special(s[0]) {
            seq!['\\', s[0]]
        } else {
            seq![s[0]]
        }) + dq_escaped(s.skip(1))
    }
}

pub fn shell_escape_dq(s: &str) -> (r: String)
    ensures
        r@ == dq_escaped(s@),
{
    let v: Vec<char> = chars_of(s);
    let mut r: String = String::new();
    let mut i: usize = 0;
    assert(r@ + dq_escaped(s@.skip(0)) =~= dq_escaped(s@)) by {
        assert(s@.skip(0) =~= s@);
    }
    while i < v.len()
        invariant
            v@ == s@,
            i <= v.len(),
            r@ + dq_escaped(s@.skip(i as int)) == dq_escaped(s@),
        decreases v.len() - i,
    {
        let c: char = v[i];
        let ghost was = r@;
        let ghost t = s@.skip(i as int);
        if c == '\\' || c == '"' || c == '$' || c == '`' {
            r.push('\\');
        }
        r.push(c);
        proof {
            assert(t.skip(1) =~= s@.skip(i + 1));
            assert(t[0] == c);
            let piece = if dq_special(c) {
                seq!['\\', c]
            } else {
                seq![c]
            };
            assert(r@ =~= was + piece);
            assert(was + (piece + dq_escaped(t.skip(1))) =~= was + piece + dq_escaped(t.skip(1)));
        }
        i += 1;
    }
    assert(s@.skip(i as int) =~= Seq::empty());
    assert(r@ + Seq::<char>::empty() =~= r@);
    r
}

/// What stands for a single quote inside single quotes: the quotes are closed,
/// the quote comes in double quotes, and the quotes are opened again.
pub open spec fn sq_quote() -> Seq<char> {
    seq!['\'', '"', '\'', '"', '\'']
}

/// The text with its single quotes replaced, to stand inside single quotes.
pub open spec fn sq_escaped(s: Seq<char>) -> Seq<char>
    decreases s.len(),
{
    if s.len() == 0 {
        Seq::empty()
    } else {
        (if s[0] == '\'' {
            sq_quote()
        } else {
            seq![s[0]]
        }) + sq_escaped(s.skip(1))
    }
}

fn escape_sq(s: &str) -> (r: String)
    ensures
        r@ == sq_escaped(s@),
{
    let v: Vec<char> = chars_of(s);
    let mut r: String = String::new();
    let mut i: usize = 0;
    assert(r@ + sq_escaped(s@.skip(0)) =~= sq_escaped(s@)) by {
        assert(s@.skip(0) =~= s@);
    }
    while i < v.len()
        invariant
            v@ == s@,
            i <= v.len(),
            r@ + sq_escaped(s@.skip(i as int)) == sq_escaped(s@),
        decreases v.len() - i,
    {
        let c: char = v[i];
        let ghost was = r@;
        let ghost t = s@.skip(i as int);
        if c == '\'' {
            r.push('\'');
            r.push('"');
            r.push('\'');
            r.push('"');
            r.push('\'');
        } else {
            r.push(c);
        }
        proof {
            assert(t.skip(1) =~= s@.skip(i + 1));
            assert(t[0] == c);
            let piece = if c == '\'' {
                sq_quote()
            } else {
                seq![c]
            };
            assert(r@ =~= was + piece);
            assert(was + (piece + sq_escaped(t.skip(1))) =~= was + piece + sq_escaped(t.skip(1)));
        }
        i += 1;
    }
    assert(s@.skip(i as int) =~= Seq::empty());
    assert(r@ + Seq::<char>::empty() =~= r@);
    r
}

/// A text as one word of a shell command. A leading `~/`, or `~` alone, becomes
/// `$HOME` inside double quotes, for a tilde in quotes does not expand.
pub open spec fn quoted_word(s: Seq<char>) -> Seq<char> {
    if starts(s, "~/"@) {
        "\"$HOME/"@ + dq_escaped(s.skip(2)) + "\""@
    } else if s == "~"@ {
        "\"$HOME\""@
    } else {
        "'"@ + sq_escaped(s) + "'"@
    }
}

pub fn shell_quote(s: &str) -> (r: String)
    ensures
        r@ == quoted_word(s@),
{
    if starts_with(s, "~/") {
        proof {
            reveal_strlit("~/");
        }
        let n: usize = chars_of(s).len();
        let rest: &str = s.substring_char(2, n);
        assert(rest@ =~= s@.skip(2));
        let mut r: String = "\"$HOME/".to_owned();
        r.append(shell_escape_dq(rest).as_str());
        r.append("\"");
        r
    } else if same(s, "~") {
        "\"$HOME\"".to_owned()
    } else {
        let mut r: String = "'".to_owned();
        r.append(escape_sq(s).as_str());
        r.append("'");
        r
    }
}

/// A character put before the value of the rest of a word.
pub open spec fn after_char(c: char, r: Option<Seq<char>>) -> Option<Seq<char>> {
    match r {
        Some(t) => Some(seq![c] + t),
        None => None,
    }
}

/// A text put before the value of the rest of a word.
pub open spec fn after_text(s: Seq<char>, r: Option<Seq<char>>) -> Option<Seq<char>> {
    match r {
        Some(t) => Some(s + t),
        None => None,
    }
}

/// The value of a word made of quoted parts, as a POSIX shell with the home
/// directory `home` reads it; `None` for a word that is not, or that holds an
/// expansion other than `$HOME`.
pub open spec fn sh_word(q: Seq<char>, home: Seq<char>) -> Option<Seq<char>>
    decreases q.len(),
{
    if q.len() == 0 {
        Some(Seq::empty())
    } else if q[0] == '\'' {
        sh_single(q.skip(1), home)
    } else if q[0] == '"' {
        sh_double(q.skip(1), home)
    } else {
        None
    }
}

/// The value of the rest of a word inside single quotes.
pub open spec fn sh_single(q: Seq<char>, home: Seq<char>) -> Option<Seq<char>>
    decreases q.len(),
{
    if q.len() == 0 {
        None
    } else if q[0] == '\'' {
        sh_word(q.skip(1), home)
    } else {
        after_char(q[0], sh_single(q.skip(1), home))
    }
}

/// The value of the rest of a word inside double quotes.
pub open spec fn sh_double(q: Seq<char>, home: Seq<char>) -> Option<Seq<char>>
    decreases q.len(),
{
    if q.len() == 0 {
        None
    } else if q[0] == '"' {
        sh_word(q.skip(1), home)
    } else if q[0] == '\\' && q.len() > 1 && dq_special(q[1]) {
        after_char(q[1], sh_double(q.skip(2), home))
    } else if q[0] == '$' {
        if q.len() > 5 && q.subrange(1, 5) == seq!['H', 'O', 'M', 'E'] && (q[5] == '/' || q[5]
            == '"') {
            after_text(home, sh_double(q.skip(5), home))
        } else {
            None
        }
    } else if q[0] == '`' {
        None
    } else {
        after_char(q[0], sh_double(q.skip(1), home))
    }
}

proof fn lemma_sh_single(s: Seq<char>, tail: Seq<char>, home: Seq<char>)
    ensures
        sh_single(sq_escaped(s) + tail, home) == after_text(s, sh_single(tail, home)),
    decreases s.len(),
{
    let q = sq_escaped(s) + tail;
    if s.len() == 0 {
        assert(q =~= tail);
        assert(sh_single(tail, home) matches Some(t) ==> s + t =~= t);
    } else {
        let r = sq_escaped(s.skip(1)) + tail;
        lemma_sh_single(s.skip(1), tail, home);
        assert(sh_single(tail, home) matches Some(t) ==> seq![s[0]] + (s.skip(1) + t) =~= s + t);
        if s[0] == '\'' {
            assert(q =~= sq_quote() + r);
            let q1 = q.skip(1);
            let q2 = q1.skip(1);
            let q3 = q2.skip(1);
            let q4 = q3.skip(1);
            assert(q4.skip(1) =~= r);
            assert(sh_word(q4, home) == sh_single(r, home));
            assert(sh_double(q3, home) == sh_word(q4, home));
            assert(sh_double(q2, home) == after_char('\'', sh_double(q3, home)));
            assert(sh_word(q1, home) == sh_double(q2, home));
            assert(sh_single(q, home) == sh_word(q1, home));
        } else {
            assert(q =~= seq![s[0]] + r);
            assert(q.skip(1) =~= r);
        }
    }
}

proof fn lemma_sh_double(s: Seq<char>, tail: Seq<char>, home: Seq<char>)
    ensures
        sh_double(dq_escaped(s) + tail, home) == after_text(s, sh_double(tail, home)),
    decreases s.len(),
{
    let q = dq_escaped(s) + tail;
    if s.len() == 0 {
        assert(q =~= tail);
        assert(sh_double(tail, home) matches Some(t) ==> s + t =~= t);
    } else {
        let r = dq_escaped(s.skip(1)) + tail;
        lemma_sh_double(s.skip(1), tail, home);
        assert(sh_double(tail, home) matches Some(t) ==> seq![s[0]] + (s.skip(1) + t) =~= s + t);
        if dq_special(s[0]) {
            assert(q =~= seq!['\\', s[0]] + r);
            assert(q.skip(2) =~= r);
        } else {
            assert(q =~= seq![s[0]] + r);
            assert(q.skip(1) =~= r);
        }
    }
}

/// The text that a quoted word stands for in a remote shell.
pub open spec fn word_value(s: Seq<char>, home: Seq<char>) -> Seq<char> {
    if starts(s, "~/"@) {
        home + s.skip(1)
    } else if s == "~"@ {
        home
    } else {
        s
    }
}

/// A shell reads a quoted text as the text itself, whatever characters it holds,
/// with the home directory in place of a leading tilde.
pub proof fn lemma_quoted_word(s: Seq<char>, home: Seq<char>)
    ensures
        sh_word(quoted_word(s), home) == Some(word_value(s, home)),
{
    reveal_strlit("~/");
    reveal_strlit("~");
    reveal_strlit("'");
    reveal_strlit("\"");
    reveal_strlit("\"$HOME/");
    reveal_strlit("\"$HOME\"");
    let q = quoted_word(s);
    let end = seq!['"'];
    assert(end.skip(1) =~= Seq::empty());
    assert(sh_word(end.skip(1), home) == Some(Seq::<char>::empty()));
    assert(sh_double(end, home) == Some(Seq::<char>::empty()));
    if starts(s, "~/"@) {
        let rest = s.skip(2);
        lemma_sh_double(rest, end, home);
        let r = dq_escaped(rest) + end;
        assert(q =~= "\"$HOME/"@ + r);
        let q1 = q.skip(1);
        assert(q1.subrange(1, 5) =~= seq!['H', 'O', 'M', 'E']);
        let q2 = q1.skip(5);
        assert(q2.skip(1) =~= r);
        assert(q2[0] == '/');
        assert(sh_double(q2, home) == after_char('/', sh_double(r, home)));
        assert(sh_double(q1, home) == after_text(home, sh_double(q2, home)));
        assert(sh_word(q, home) == sh_double(q1, home));
        assert(s[1] == s.take(2)[1]);
        assert(home + (seq!['/'] + (rest + Seq::<char>::empty())) =~= home + s.skip(1));
    } else if s == "~"@ {
        let q1 = q.skip(1);
        assert(q1.subrange(1, 5) =~= seq!['H', 'O', 'M', 'E']);
        assert(q1.skip(5) =~= end);
        assert(sh_double(q1, home) == after_text(home, sh_double(end, home)));
        assert(sh_word(q, home) == sh_double(q1, home));
        assert(home + Seq::<char>::empty() =~= home);
    } else {
        let close = seq!['\''];
        assert(close.skip(1) =~= Seq::empty());
        assert(sh_word(close.skip(1), home) == Some(Seq::<char>::empty()));
        assert(sh_single(close, home) == Some(Seq::<char>::empty()));
        lemma_sh_single(s, close, home);
        assert(q =~= seq!['\''] + (sq_escaped(s) + close));
        assert(q.skip(1) =~= sq_escaped(s) + close);
        assert(s + Seq::<char>::empty() =~= s);
    }
}

} // verus!
