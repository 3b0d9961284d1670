//! Text primitives, stated over sequences of characters.

use vstd::prelude::*;

verus! {

/// The characters of a text.
pub fn chars_of(s: &str) -> (v: Vec<char>)
    ensures
        v@ == s@,
{
    let mut v: Vec<char> = Vec::new();
    for c in it: s.chars()
        invariant
            it.seq() == s@,
            v@ == s@.take(it.index()),
    {
        v.push(c);
        assert(v@ =~= s@.take(it.index() + 1));
    }
    assert(s@.take(s@.len() as int) =~= s@);
    v
}

/// Adding one character at the end of a text: `String::push` appends it and
/// changes nothing else.
pub assume_specification[ String::push ](s: &mut String, c: char)
    ensures
        final(s)@ == old(s)@.push(c),
;

/// What `{:?}` prints for a text: the text in double quotes with the escapes of
/// `str`'s `Debug` implementation.
pub uninterp spec fn debug_text(s: Seq<char>) -> Seq<char>;

/// Calls `format!("{:?}", s)`; the result is a function of the characters alone.
#[verifier::external_body]
pub(crate) fn quoted(s: &str) -> (r: String)
    ensures
        r@ == debug_text(s@),
{
    format!("{:?}", s)
}

/// The decimal digit `d`.
pub open spec fn digit(d: nat) -> char {
    (48 + d) as char
}

/// Decimal notation without leading zeros.
pub open spec fn dec(n: nat) -> Seq<char>
    decreases n,
{
    if n < 10 {
        seq![digit(n)]
    } else {
        dec(n / 10).push(digit(n % 10))
    }
}

pub fn dec_text(n: u64) -> (r: String)
    ensures
        r@ == dec(n as nat),
    decreases n,
{
    let mut r: String = if n < 10 {
        String::new()
    } else {
        dec_text(n / 10)
    };
    let d: u8 = 48 + (n % 10) as u8;
    r.push(d as char);
    assert(n < 10 ==> r@ =~= seq![digit(n as nat)]);
    r
}

/// Value of the first `n` characters read as decimal digits.
pub open spec fn digits_value(s: Seq<char>, n: int) -> nat
    decreases n,
{
    if n <= 0 {
        0
    } else {
        digits_value(s, n - 1) * 10 + ((s[n - 1] as u32 - 48) as nat)
    }
}

pub open spec fn is_digit(c: char) -> bool {
    48 <= c as u32 <= 57
}

/// `true` when every character from index `i` on is a decimal digit.
pub open spec fn digits_from(s: Seq<char>, i: int) -> bool {
    forall|k: int| i <= k < s.len() ==> is_digit(#[trigger] s[k])
}

/// The text without one leading plus sign.
pub open spec fn unsigned_part(s: Seq<char>) -> Seq<char> {
    if s.len() > 0 && s[0] == '+' {
        s.skip(1)
    } else {
        s
    }
}

/// An unsigned decimal number of at most `max`: an optional plus sign and one
/// or more digits.
pub open spec fn number(s: Seq<char>, max: nat) -> Option<nat> {
    let d = unsigned_part(s);
    if d.len() > 0 && digits_from(d, 0) && digits_value(d, d.len() as int) <= max {
        Some(digits_value(d, d.len() as int))
    } else {
        None
    }
}

proof fn lemma_digits_value_grows(s: Seq<char>, a: int, b: int)
    requires
        0 <= a <= b <= s.len(),
    ensures
        digits_value(s, a) <= digits_value(s, b),
    decreases b,
{
    if a < b {
        lemma_digits_value_grows(s, a, b - 1);
    }
}

/// Reads an unsigned decimal number.
pub fn parse_number(s: &str, max: u64) -> (r: Option<u64>)
    ensures
        match r {
            Some(v) => number(s@, max as nat) == Some(v as nat),
            None => number(s@, max as nat) is None,
        },
{
    let v: Vec<char> = chars_of(s);
    let mut i: usize = if v.len() > 0 && v[0] == '+' {
        1
    } else {
        0
    };
    let ghost d = unsigned_part(s@);
    let ghost lead = i as int;
    if i == v.len() {
        return None;
    }
    let mut acc: u64 = 0;
    while i < v.len()
        invariant
            v@ == s@,
            d == unsigned_part(s@),
            d == v@.skip(lead),
            0 <= lead <= i <= v.len(),
            d.len() > 0,
            forall|k: int| 0 <= k < i - lead ==> is_digit(#[trigger] d[k]),
            acc == digits_value(d, i - lead),
            acc <= max,
        decreases v.len() - i,
    {
        let c: u32 = v[i] as u32;
        assert(d[i - lead] == v@[i as int]);
        if c < 48 || c > 57 {
            assert(!is_digit(d[i - lead]));
            return None;
        }
        let x: u64 = (c - 48) as u64;
        proof {
            lemma_digits_value_grows(d, i - lead + 1, d.len() as int);
        }
        if acc > (u64::MAX - x) / 10 || acc * 10 + x > max {
            return None;
        }
        acc = acc * 10 + x;
        i += 1;
    }
    Some(acc)
}

/// Decimal notation has at least one character and nothing but digits.
pub proof fn lemma_dec_digits(n: nat)
    ensures
        dec(n).len() > 0,
        digits_from(dec(n), 0),
    decreases n,
{
    if n >= 10 {
        lemma_dec_digits(n / 10);
    }
}

proof fn lemma_digits_value_prefix(s: Seq<char>, t: Seq<char>, n: int)
    requires
        0 <= n <= s.len(),
        n <= t.len(),
        s.take(n) == t.take(n),
    ensures
        digits_value(s, n) == digits_value(t, n),
    decreases n,
{
    if n > 0 {
        assert(s.take(n - 1) =~= s.take(n).take(n - 1));
        assert(t.take(n - 1) =~= t.take(n).take(n - 1));
        assert(s[n - 1] == s.take(n)[n - 1]);
        assert(t[n - 1] == t.take(n)[n - 1]);
        lemma_digits_value_prefix(s, t, n - 1);
    }
}

proof fn lemma_dec_value(n: nat)
    ensures
        digits_value(dec(n), dec(n).len() as int) == n,
    decreases n,
{
    if n < 10 {
        assert(digits_value(dec(n), 0) == 0);
    } else {
        let d = dec(n / 10);
        lemma_dec_value(n / 10);
        assert(dec(n).take(d.len() as int) =~= d.take(d.len() as int));
        lemma_digits_value_prefix(dec(n), d, d.len() as int);
    }
}

/// Reading the decimal notation of a number gives the number back.
pub proof fn lemma_number_dec(n: nat, max: nat)
    requires
        n <= max,
    ensures
        number(dec(n), max) == Some(n),
{
    lemma_dec_digits(n);
    lemma_dec_value(n);
    assert(is_digit(dec(n)[0]));
}

/// First index from `i` on that holds `c`.
pub open spec fn find_from(s: Seq<char>, c: char, i: int) -> Option<int>
    decreases s.len() - i,
{
    if i < 0 || i >= s.len() {
        None
    } else if s[i] == c {
        Some(i)
    } else {
        find_from(s, c, i + 1)
    }
}

/// Last index below `n` that holds `c`.
pub open spec fn rfind_below(s: Seq<char>, c: char, n: int) -> Option<int>
    decreases n,
{
    if n <= 0 {
        None
    } else if s[n - 1] == c {
        Some(n - 1)
    } else {
        rfind_below(s, c, n - 1)
    }
}

/// First index from `i` on at which `p` starts.
pub open spec fn find_text_from(s: Seq<char>, p: Seq<char>, i: int) -> Option<int>
    decreases s.len() - i,
{
    if i < 0 || i + p.len() > s.len() {
        None
    } else if s.subrange(i, i + p.len()) == p {
        Some(i)
    } else if i >= s.len() {
        None
    } else {
        find_text_from(s, p, i + 1)
    }
}

/// A text that is found stands where it is found, and nowhere before; one that
/// is not found stands nowhere.
pub proof fn lemma_text_found(s: Seq<char>, p: Seq<char>, i: int)
    requires
        0 <= i,
    ensures
        find_text_from(s, p, i) matches Some(k) ==> i <= k && k + p.len() <= s.len() && s.subrange(
            k,
            k + p.len(),
        ) == p,
        find_text_from(s, p, i) matches Some(k) ==> forall|j: int|
            i <= j < k ==> #[trigger] s.subrange(j, j + p.len()) != p,
        find_text_from(s, p, i) is None ==> forall|j: int|
            i <= j && j + p.len() <= s.len() ==> #[trigger] s.subrange(j, j + p.len()) != p,
    decreases s.len() - i,
{
    if i + p.len() <= s.len() && s.subrange(i, i + p.len()) != p && i < s.len() {
        lemma_text_found(s, p, i + 1);
    }
}

/// The first place where a text stands is found.
pub proof fn lemma_text_first(s: Seq<char>, p: Seq<char>, i: int, k: int)
    requires
        0 <= i <= k,
        k + p.len() <= s.len(),
        s.subrange(k, k + p.len()) == p,
        forall|j: int| i <= j < k ==> #[trigger] s.subrange(j, j + p.len()) != p,
    ensures
        find_text_from(s, p, i) == Some(k),
    decreases k - i,
{
    if i < k {
        assert(s.subrange(i, i + p.len()) != p);
        lemma_text_first(s, p, i + 1, k);
    }
}

/// An optional index as a mathematical integer.
pub open spec fn place(i: Option<usize>) -> Option<int> {
    match i {
        Some(k) => Some(k as int),
        None => None,
    }
}

pub fn find_char(v: &Vec<char>, c: char, from: usize) -> (r: Option<usize>)
    ensures
        place(r) == find_from(v@, c, from as int),
        r matches Some(i) ==> from <= i < v.len() && v@[i as int] == c,
        r is None ==> forall|k: int| from <= k < v.len() ==> v@[k] != c,
        r matches Some(i) ==> forall|k: int| from <= k < i ==> v@[k] != c,
{
    let mut i: usize = from;
    while i < v.len()
        invariant
            from <= i,
            i <= v.len() || i == from,
            find_from(v@, c, from as int) == find_from(v@, c, i as int),
            forall|k: int| from <= k < i ==> v@[k] != c,
        decreases v.len() - i,
    {
        if v[i] == c {
            return Some(i);
        }
        i += 1;
    }
    None
}

pub fn rfind_char(v: &Vec<char>, c: char) -> (r: Option<usize>)
    ensures
        place(r) == rfind_below(v@, c, v@.len() as int),
        r matches Some(i) ==> i < v.len() && v@[i as int] == c,
        r is None ==> forall|k: int| 0 <= k < v.len() ==> v@[k] != c,
        r matches Some(i) ==> forall|k: int| i < k < v.len() ==> v@[k] != c,
{
    let mut n: usize = v.len();
    while n > 0
        invariant
            n <= v.len(),
            rfind_below(v@, c, v@.len() as int) == rfind_below(v@, c, n as int),
            forall|k: int| n <= k < v.len() ==> v@[k] != c,
        decreases n,
    {
        if v[n - 1] == c {
            return Some(n - 1);
        }
        n -= 1;
    }
    None
}

/// `true` when `p` stands in `v` at index `i`.
pub fn stands_at(v: &Vec<char>, p: &Vec<char>, i: usize) -> (r: bool)
    ensures
        r == (i + p.len() <= v.len() && v@.subrange(i as int, i + p@.len()) == p@),
{
    if i > v.len() || p.len() > v.len() - i {
        return false;
    }
    let mut k: usize = 0;
    while k < p.len()
        invariant
            i + p.len() <= v.len(),
            k <= p.len(),
            forall|j: int| 0 <= j < k ==> v@[i + j] == p@[j],
        decreases p.len() - k,
    {
        if v[i + k] != p[k] {
            assert(v@.subrange(i as int, i + p@.len())[k as int] != p@[k as int]);
            return false;
        }
        k += 1;
    }
    assert(v@.subrange(i as int, i + p@.len()) =~= p@);
    true
}

pub fn find_text(v: &Vec<char>, p: &Vec<char>) -> (r: Option<usize>)
    ensures
        place(r) == find_text_from(v@, p@, 0),
        r matches Some(i) ==> i + p.len() <= v.len() && v@.subrange(i as int, i + p@.len()) == p@,
{
    let mut i: usize = 0;
    while i <= v.len()
        invariant
            find_text_from(v@, p@, 0) == find_text_from(v@, p@, i as int),
            i <= v.len(),
        decreases v.len() - i,
    {
        if stands_at(v, p, i) {
            return Some(i);
        }
        if i == v.len() {
            return None;
        }
        i += 1;
    }
    None
}

/// `true` when `p` occurs in `s`.
pub open spec fn contains_text(s: Seq<char>, p: Seq<char>) -> bool {
    find_text_from(s, p, 0) is Some
}

pub fn has_text(s: &str, p: &str) -> (r: bool)
    ensures
        r == contains_text(s@, p@),
{
    let v: Vec<char> = chars_of(s);
    let q: Vec<char> = chars_of(p);
    find_text(&v, &q).is_some()
}

pub open spec fn starts(s: Seq<char>, p: Seq<char>) -> bool {
    p.len() <= s.len() && s.take(p.len() as int) == p
}

pub fn starts_with(s: &str, p: &str) -> (r: bool)
    ensures
        r == starts(s@, p@),
{
    let v: Vec<char> = chars_of(s);
    let q: Vec<char> = chars_of(p);
    stands_at(&v, &q, 0)
}

/// Compares two texts.
pub fn same(a: &str, b: &str) -> (r: bool)
    ensures
        r == (a@ == b@),
{
    let v: Vec<char> = chars_of(a);
    let q: Vec<char> = chars_of(b);
    if v.len() != q.len() {
        return false;
    }
    let r: bool = stands_at(&v, &q, 0);
    assert(v@.subrange(0, v@.len() as int) =~= v@);
    r
}

/// The Unicode property White_Space.
pub open spec fn is_space(c: char) -> bool {
    let n = c as u32;
    ||| 0x09 <= n <= 0x0d
    ||| n == 0x20
    ||| n == 0x85
    ||| n == 0xa0
    ||| n == 0x1680
    ||| 0x2000 <= n <= 0x200a
    ||| n == 0x2028
    ||| n == 0x2029
    ||| n == 0x202f
    ||| n == 0x205f
    ||| n == 0x3000
}

pub fn space(c: char) -> (r: bool)
    ensures
        r == is_space(c),
{
    let n: u32 = c as u32;
    (0x09 <= n && n <= 0x0d) || n == 0x20 || n == 0x85 || n == 0xa0 || n == 0x1680 || (0x2000 <= n
        && n <= 0x200a) || n == 0x2028 || n == 0x2029 || n == 0x202f || n == 0x205f || n == 0x3000
}

/// First index from `i` on that is no white space, or the length.
pub open spec fn after_spaces(s: Seq<char>, i: int) -> int
    decreases s.len() - i,
{
    if 0 <= i < s.len() && is_space(s[i]) {
        after_spaces(s, i + 1)
    } else {
        i
    }
}

/// End of the text below `n` without its trailing white space, but not below `lo`.
pub open spec fn before_spaces(s: Seq<char>, lo: int, n: int) -> int
    decreases n - lo,
{
    if lo < n && is_space(s[n - 1]) {
        before_spaces(s, lo, n - 1)
    } else {
        n
    }
}

/// The text without leading and trailing white space.
pub open spec fn trimmed(s: Seq<char>) -> Seq<char> {
    let a = after_spaces(s, 0);
    s.subrange(a, before_spaces(s, a, s.len() as int))
}

fn skip_spaces(v: &Vec<char>, from: usize) -> (r: usize)
    requires
        from <= v.len(),
    ensures
        r == after_spaces(v@, from as int),
        from <= r <= v.len(),
        r < v.len() ==> !is_space(v@[r as int]),
{
    let mut i: usize = from;
    while i < v.len() && space(v[i])
        invariant
            from <= i <= v.len(),
            after_spaces(v@, from as int) == after_spaces(v@, i as int),
        decreases v.len() - i,
    {
        i += 1;
    }
    i
}

pub fn trim(s: &str) -> (r: &str)
    ensures
        r@ == trimmed(s@),
{
    let v: Vec<char> = chars_of(s);
    let a: usize = skip_spaces(&v, 0);
    let mut n: usize = v.len();
    while n > a && space(v[n - 1])
        invariant
            a <= n <= v.len(),
            before_spaces(v@, a as int, v@.len() as int) == before_spaces(v@, a as int, n as int),
        decreases n,
    {
        n -= 1;
    }
    s.substring_char(a, n)
}

proof fn lemma_after_spaces_at(s: Seq<char>, i: int, k: int)
    requires
        0 <= i <= k <= s.len(),
        forall|j: int| i <= j < k ==> is_space(#[trigger] s[j]),
        k < s.len() ==> !is_space(s[k]),
    ensures
        after_spaces(s, i) == k,
    decreases k - i,
{
    if i < k {
        assert(is_space(s[i]));
        lemma_after_spaces_at(s, i + 1, k);
    }
}

proof fn lemma_before_spaces_at(s: Seq<char>, lo: int, n: int, k: int)
    requires
        0 <= lo < k <= n <= s.len(),
        forall|j: int| k <= j < n ==> is_space(#[trigger] s[j]),
        !is_space(s[k - 1]),
    ensures
        before_spaces(s, lo, n) == k,
    decreases n - k,
{
    if k < n {
        assert(is_space(s[n - 1]));
        lemma_before_spaces_at(s, lo, n - 1, k);
    }
}

/// A text without blanks is its own trimmed form.
pub proof fn lemma_plain_trimmed(s: Seq<char>)
    requires
        forall|i: int| 0 <= i < s.len() ==> !is_space(#[trigger] s[i]),
    ensures
        trimmed(s) == s,
{
    if s.len() > 0 {
        assert(!is_space(s[0]));
        assert(!is_space(s[s.len() - 1]));
    }
    assert(trimmed(s) =~= s);
}

/// A decimal notation is made of digits, and has no blanks.
pub proof fn lemma_dec_plain(n: nat)
    ensures
        dec(n).len() > 0,
        forall|i: int|
            0 <= i < dec(n).len() ==> is_digit(#[trigger] dec(n)[i]) && !is_space(dec(n)[i]),
{
    lemma_dec_digits(n);
    assert forall|i: int| 0 <= i < dec(n).len() implies !is_space(#[trigger] dec(n)[i]) by {
        assert(is_digit(dec(n)[i]));
    }
}

/// White space around a text that has none at its ends is what is cut off.
pub proof fn lemma_trimmed_between(before: Seq<char>, t: Seq<char>, after: Seq<char>)
    requires
        t.len() > 0,
        !is_space(t[0]),
        !is_space(t[t.len() - 1]),
        forall|i: int| 0 <= i < before.len() ==> is_space(#[trigger] before[i]),
        forall|i: int| 0 <= i < after.len() ==> is_space(#[trigger] after[i]),
    ensures
        trimmed(before + t + after) == t,
{
    let s = before + t + after;
    let a = before.len() as int;
    let b = a + t.len();
    assert forall|j: int| 0 <= j < a implies is_space(#[trigger] s[j]) by {
        assert(s[j] == before[j]);
    }
    assert forall|j: int| b <= j < s.len() implies is_space(#[trigger] s[j]) by {
        assert(s[j] == after[j - b]);
    }
    assert(s[a] == t[0]);
    assert(s[b - 1] == t[t.len() - 1]);
    lemma_after_spaces_at(s, 0, a);
    lemma_before_spaces_at(s, a, s.len() as int, b);
    assert(s.subrange(a, b) =~= t);
}

/// First index from `i` on that is white space, or the length.
pub open spec fn word_end(s: Seq<char>, i: int) -> int
    decreases s.len() - i,
{
    if 0 <= i < s.len() && !is_space(s[i]) {
        word_end(s, i + 1)
    } else {
        i
    }
}

pub proof fn lemma_word_end(s: Seq<char>, i: int)
    requires
        0 <= i <= s.len(),
    ensures
        i <= word_end(s, i) <= s.len(),
        i < s.len() && !is_space(s[i]) ==> i < word_end(s, i),
        i <= after_spaces(s, i) <= s.len(),
    decreases s.len() - i,
{
    if i < s.len() {
        lemma_word_end(s, i + 1);
    }
}

/// The maximal runs of characters other than white space, from index `i` on.
pub open spec fn words_from(s: Seq<char>, i: int) -> Seq<Seq<char>>
    decreases s.len() - i,
    when 0 <= i <= s.len()
    via words_from_terminates
{
    let a = after_spaces(s, i);
    if a >= s.len() {
        Seq::empty()
    } else {
        let b = word_end(s, a);
        seq![s.subrange(a, b)] + words_from(s, b)
    }
}

#[via_fn]
proof fn words_from_terminates(s: Seq<char>, i: int) {
    lemma_word_end(s, i);
    let a = after_spaces(s, i);
    if a < s.len() {
        lemma_after_spaces_stops(s, i);
        lemma_word_end(s, a);
    }
}

proof fn lemma_after_spaces_stops(s: Seq<char>, i: int)
    requires
        0 <= i <= s.len(),
    ensures
        after_spaces(s, i) < s.len() ==> !is_space(s[after_spaces(s, i)]),
    decreases s.len() - i,
{
    if i < s.len() {
        lemma_after_spaces_stops(s, i + 1);
    }
}

/// The words of a text.
pub open spec fn words(s: Seq<char>) -> Seq<Seq<char>> {
    words_from(s, 0)
}

/// The texts of a list.
pub open spec fn texts(v: Seq<String>) -> Seq<Seq<char>> {
    v.map_values(|t: String| t@)
}

/// Splits a text at white space.
pub fn split_words(s: &str) -> (r: Vec<String>)
    ensures
        texts(r@) == words(s@),
{
    let v: Vec<char> = chars_of(s);
    let mut out: Vec<String> = Vec::new();
    let mut i: usize = 0;
    assert(texts(out@) + words_from(s@, 0) =~= words(s@));
    loop
        invariant
            v@ == s@,
            i <= v.len(),
            texts(out@) + words_from(s@, i as int) =~= words(s@),
        decreases v.len() - i,
    {
        let a: usize = skip_spaces(&v, i);
        if a >= v.len() {
            assert(texts(out@) =~= words(s@));
            return out;
        }
        let mut b: usize = a;
        while b < v.len() && !space(v[b])
            invariant
                a <= b <= v.len(),
                word_end(v@, a as int) == word_end(v@, b as int),
            decreases v.len() - b,
        {
            b += 1;
        }
        proof {
            lemma_word_end(s@, a as int);
        }
        let w: String = s.substring_char(a, b).to_owned();
        let ghost before = texts(out@);
        out.push(w);
        assert(texts(out@) =~= before.push(w@));
        assert(words_from(s@, i as int) =~= seq![w@] + words_from(s@, b as int));
        i = b;
    }
}

/// The pieces of a text between occurrences of `c`, from index `i` on.
pub open spec fn pieces_from(s: Seq<char>, c: char, i: int) -> Seq<Seq<char>>
    decreases s.len() - i,
    when 0 <= i <= s.len()
    via pieces_from_terminates
{
    match find_from(s, c, i) {
        None => seq![s.subrange(i, s.len() as int)],
        Some(k) => seq![s.subrange(i, k)] + pieces_from(s, c, k + 1),
    }
}

#[via_fn]
proof fn pieces_from_terminates(s: Seq<char>, c: char, i: int) {
    lemma_find_from(s, c, i);
}

pub proof fn lemma_find_from(s: Seq<char>, c: char, i: int)
    requires
        0 <= i <= s.len(),
    ensures
        find_from(s, c, i) matches Some(k) ==> i <= k < s.len() && s[k] == c,
        find_from(s, c, i) matches Some(k) ==> forall|j: int| i <= j < k ==> s[j] != c,
        find_from(s, c, i) is None ==> forall|j: int| i <= j < s.len() ==> s[j] != c,
    decreases s.len() - i,
{
    if i < s.len() {
        lemma_find_from(s, c, i + 1);
    }
}

/// The pieces of a text between occurrences of `c`; there is always one more
/// piece than there are occurrences.
pub open spec fn pieces(s: Seq<char>, c: char) -> Seq<Seq<char>> {
    pieces_from(s, c, 0)
}

/// Splits a text at every occurrence of `c`.
pub fn split_on(s: &str, c: char) -> (r: Vec<String>)
    ensures
        texts(r@) == pieces(s@, c),
{
    let v: Vec<char> = chars_of(s);
    let mut out: Vec<String> = Vec::new();
    let mut i: usize = 0;
    assert(texts(out@) + pieces_from(s@, c, 0) =~= pieces(s@, c));
    loop
        invariant
            v@ == s@,
            i <= v.len(),
            texts(out@) + pieces_from(s@, c, i as int) =~= pieces(s@, c),
        decreases v.len() - i,
    {
        let ghost before = texts(out@);
        match find_char(&v, c, i) {
            None => {
                let w: String = s.substring_char(i, v.len()).to_owned();
                out.push(w);
                assert(texts(out@) =~= before.push(w@));
                assert(texts(out@) =~= pieces(s@, c));
                return out;
            },
            Some(k) => {
                let w: String = s.substring_char(i, k).to_owned();
                out.push(w);
                assert(texts(out@) =~= before.push(w@));
                i = k + 1;
            },
        }
    }
}

proof fn lemma_find_shift(p: Seq<char>, t: Seq<char>, c: char, i: int)
    requires
        0 <= i <= t.len(),
    ensures
        find_from(p + t, c, p.len() + i) == (match find_from(t, c, i) {
            Some(k) => Some(p.len() + k),
            None => None,
        }),
    decreases t.len() - i,
{
    if i < t.len() {
        assert((p + t)[p.len() + i] == t[i]);
        lemma_find_shift(p, t, c, i + 1);
    }
}

proof fn lemma_pieces_shift(p: Seq<char>, t: Seq<char>, c: char, i: int)
    requires
        0 <= i <= t.len(),
    ensures
        pieces_from(p + t, c, p.len() + i) == pieces_from(t, c, i),
    decreases t.len() - i,
{
    let s = p + t;
    lemma_find_shift(p, t, c, i);
    lemma_find_from(t, c, i);
    match find_from(t, c, i) {
        None => {
            assert(s.subrange(p.len() + i, s.len() as int) =~= t.subrange(i, t.len() as int));
        },
        Some(k) => {
            assert(s.subrange(p.len() + i, p.len() + k) =~= t.subrange(i, k));
            lemma_pieces_shift(p, t, c, k + 1);
        },
    }
}

/// The first place that holds a character is found.
pub proof fn lemma_find_here(s: Seq<char>, c: char, i: int, k: int)
    requires
        0 <= i <= k < s.len(),
        s[k] == c,
        forall|j: int| i <= j < k ==> s[j] != c,
    ensures
        find_from(s, c, i) == Some(k),
    decreases k - i,
{
    if i < k {
        lemma_find_here(s, c, i + 1, k);
    }
}

/// The pieces of a text that starts with a piece and the character it ends at.
pub proof fn lemma_pieces_first(a: Seq<char>, c: char, rest: Seq<char>)
    requires
        forall|j: int| 0 <= j < a.len() ==> a[j] != c,
    ensures
        pieces(a + seq![c] + rest, c) == seq![a] + pieces(rest, c),
{
    let p = a + seq![c];
    let s = p + rest;
    assert(s[a.len() as int] == c);
    assert forall|j: int| 0 <= j < a.len() implies s[j] != c by {
        assert(s[j] == a[j]);
    }
    lemma_find_here(s, c, 0, a.len() as int);
    lemma_pieces_shift(p, rest, c, 0);
    assert(s.subrange(0, a.len() as int) =~= a);
}

/// The pieces of a text without the character.
pub proof fn lemma_pieces_whole(a: Seq<char>, c: char)
    requires
        forall|j: int| 0 <= j < a.len() ==> a[j] != c,
    ensures
        pieces(a, c) == seq![a],
{
    lemma_find_from(a, c, 0);
    assert(a.subrange(0, a.len() as int) =~= a);
}

/// A line without the carriage return before its end.
pub open spec fn no_return(s: Seq<char>) -> Seq<char> {
    if s.len() > 0 && s.last() == '\r' {
        s.drop_last()
    } else {
        s
    }
}

/// The lines among the first `n` pieces of a text. The last piece of all is a
/// line only if there is something in it, and ends in no line feed.
pub open spec fn lines_to(parts: Seq<Seq<char>>, n: int) -> Seq<Seq<char>>
    decreases n,
{
    if n <= 0 {
        Seq::empty()
    } else if n < parts.len() {
        lines_to(parts, n - 1).push(no_return(parts[n - 1]))
    } else if parts[n - 1].len() > 0 {
        lines_to(parts, n - 1).push(parts[n - 1])
    } else {
        lines_to(parts, n - 1)
    }
}

/// The lines of a text, which end in a line feed, or in a carriage return and a
/// line feed, but for the last one, which need not.
pub open spec fn lines(s: Seq<char>) -> Seq<Seq<char>> {
    lines_to(pieces(s, '\n'), pieces(s, '\n').len() as int)
}

/// Splits a text into its lines.
pub fn split_lines(s: &str) -> (r: Vec<String>)
    ensures
        texts(r@) == lines(s@),
{
    let parts: Vec<String> = split_on(s, '\n');
    let ghost ps = pieces(s@, '\n');
    let mut out: Vec<String> = Vec::new();
    let mut i: usize = 0;
    assert(texts(out@) =~= lines_to(ps, 0));
    assert(texts(parts@).len() == parts@.len());
    while i < parts.len()
        invariant
            i <= parts.len(),
            texts(parts@) == ps,
            ps.len() == parts@.len(),
            texts(out@) == lines_to(ps, i as int),
        decreases parts.len() - i,
    {
        let p: &str = parts[i].as_str();
        assert(ps[i as int] == p@);
        let v: Vec<char> = chars_of(p);
        let n: usize = v.len();
        let ghost was = out@;
        if i + 1 < parts.len() {
            let line: &str = if n > 0 && v[n - 1] == '\r' {
                p.substring_char(0, n - 1)
            } else {
                p
            };
            assert(line@ =~= no_return(p@));
            out.push(line.to_owned());
            assert(texts(out@) =~= texts(was).push(line@));
        } else if n > 0 {
            out.push(p.to_owned());
            assert(texts(out@) =~= texts(was).push(p@));
        }
        i += 1;
    }
    out
}

proof fn lemma_word_end_at(s: Seq<char>, i: int, k: int)
    requires
        0 <= i <= k <= s.len(),
        forall|j: int| i <= j < k ==> !is_space(#[trigger] s[j]),
        k < s.len() ==> is_space(s[k]),
    ensures
        word_end(s, i) == k,
    decreases k - i,
{
    if i < k {
        assert(!is_space(s[i]));
        lemma_word_end_at(s, i + 1, k);
    }
}

/// Two words with a space between them are those two words.
pub proof fn lemma_two_words(a: Seq<char>, b: Seq<char>)
    requires
        a.len() > 0,
        b.len() > 0,
        forall|j: int| 0 <= j < a.len() ==> !is_space(#[trigger] a[j]),
        forall|j: int| 0 <= j < b.len() ==> !is_space(#[trigger] b[j]),
    ensures
        words(a + seq![' '] + b) == seq![a, b],
{
    let s = a + seq![' '] + b;
    let n = a.len() as int;
    let m = s.len() as int;
    assert forall|j: int| 0 <= j < n implies !is_space(#[trigger] s[j]) by {
        assert(s[j] == a[j]);
    }
    assert forall|j: int| n < j < m implies !is_space(#[trigger] s[j]) by {
        assert(s[j] == b[j - n - 1]);
    }
    assert(is_space(s[n]));
    assert(!is_space(s[0]));
    assert(!is_space(s[n + 1]));
    lemma_word_end_at(s, 0, n);
    lemma_word_end_at(s, n + 1, m);
    assert(after_spaces(s, 0) == 0);
    assert(after_spaces(s, n + 1) == n + 1);
    assert(after_spaces(s, n) == n + 1);
    assert(s.subrange(0, n) =~= a);
    assert(s.subrange(n + 1, m) =~= b);
    assert(words_from(s, m) =~= Seq::empty());
    assert(words_from(s, n) =~= seq![b] + words_from(s, m));
    assert(words_from(s, 0) =~= seq![a] + words_from(s, n));
    assert(words(s) =~= seq![a, b]);
}

/// Lines, each with a line feed behind it.
pub open spec fn line_text(ls: Seq<Seq<char>>) -> Seq<char>
    decreases ls.len(),
{
    if ls.len() == 0 {
        Seq::empty()
    } else {
        ls[0] + seq!['\n'] + line_text(ls.skip(1))
    }
}

/// A line that holds no line feed and does not end in a carriage return.
pub open spec fn is_line(l: Seq<char>) -> bool {
    (forall|j: int| 0 <= j < l.len() ==> l[j] != '\n') && (l.len() > 0 ==> l.last() != '\r')
}

proof fn lemma_line_pieces(ls: Seq<Seq<char>>)
    requires
        forall|i: int| 0 <= i < ls.len() ==> is_line(#[trigger] ls[i]),
    ensures
        pieces(line_text(ls), '\n') == ls.push(Seq::empty()),
    decreases ls.len(),
{
    if ls.len() == 0 {
        lemma_pieces_whole(line_text(ls), '\n');
        assert(seq![line_text(ls)] =~= ls.push(Seq::empty()));
    } else {
        let more = ls.skip(1);
        lemma_line_pieces(more);
        assert(is_line(ls[0]));
        lemma_pieces_first(ls[0], '\n', line_text(more));
        assert(seq![ls[0]] + more.push(Seq::empty()) =~= ls.push(Seq::empty()));
    }
}

proof fn lemma_lines_to(ls: Seq<Seq<char>>, n: int)
    requires
        0 <= n <= ls.len(),
        forall|i: int| 0 <= i < ls.len() ==> is_line(#[trigger] ls[i]),
    ensures
        lines_to(ls.push(Seq::empty()), n) == ls.take(n),
    decreases n,
{
    let ps = ls.push(Seq::empty());
    if n > 0 {
        lemma_lines_to(ls, n - 1);
        assert(ps[n - 1] == ls[n - 1]);
        assert(is_line(ls[n - 1]));
        assert(ls.take(n) =~= ls.take(n - 1).push(ls[n - 1]));
    } else {
        assert(ls.take(n) =~= Seq::empty());
    }
}

/// Lines put together are taken apart again.
pub proof fn lemma_lines_roundtrip(ls: Seq<Seq<char>>)
    requires
        forall|i: int| 0 <= i < ls.len() ==> is_line(#[trigger] ls[i]),
    ensures
        lines(line_text(ls)) == ls,
{
    lemma_line_pieces(ls);
    lemma_lines_to(ls, ls.len() as int);
    assert(ls.take(ls.len() as int) =~= ls);
}

} // verus!
