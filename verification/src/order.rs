//! The order of texts, and sorting by it.

use crate::text::{chars_of, texts};
use vstd::prelude::*;

verus! {

/// Lexicographic order by character code.
pub open spec fn text_lt(a: Seq<char>, b: Seq<char>) -> bool
    decreases a.len(),
{
    if b.len() == 0 {
        false
    } else if a.len() == 0 {
        true
    } else if a[0] == b[0] {
        text_lt(a.skip(1), b.skip(1))
    } else {
        (a[0] as int) < (b[0] as int)
    }
}

proof fn lemma_lt_total(a: Seq<char>, b: Seq<char>)
    ensures
        text_lt(a, b) || text_lt(b, a) || a == b,
        !(text_lt(a, b) && text_lt(b, a)),
        a == b ==> !text_lt(a, b),
    decreases a.len(),
{
    if a.len() == 0 && b.len() == 0 {
        assert(a =~= b);
    } else if a.len() > 0 && b.len() > 0 && a[0] == b[0] {
        lemma_lt_total(a.skip(1), b.skip(1));
        if a.skip(1) == b.skip(1) {
            assert(a =~= seq![a[0]] + a.skip(1));
            assert(b =~= seq![b[0]] + b.skip(1));
        }
    }
}

proof fn lemma_lt_transitive(a: Seq<char>, b: Seq<char>, c: Seq<char>)
    requires
        text_lt(a, b),
        text_lt(b, c),
    ensures
        text_lt(a, c),
    decreases a.len(),
{
    if a.len() > 0 && a[0] == b[0] && b[0] == c[0] {
        lemma_lt_transitive(a.skip(1), b.skip(1), c.skip(1));
    }
}

fn char_less(a: char, b: char) -> (r: bool)
    ensures
        r == ((a as int) < (b as int)),
{
    (a as u32) < (b as u32)
}

/// Compares two texts.
pub fn text_less(a: &str, b: &str) -> (r: bool)
    ensures
        r == text_lt(a@, b@),
{
    let v: Vec<char> = chars_of(a);
    let w: Vec<char> = chars_of(b);
    let mut i: usize = 0;
    assert(a@.skip(0) =~= a@);
    assert(b@.skip(0) =~= b@);
    while i < v.len() && i < w.len()
        invariant
            v@ == a@,
            w@ == b@,
            i <= v.len(),
            i <= w.len(),
            text_lt(a@, b@) == text_lt(a@.skip(i as int), b@.skip(i as int)),
        decreases v.len() - i,
    {
        let x: char = v[i];
        let y: char = w[i];
        if x != y {
            return char_less(x, y);
        }
        assert(a@.skip(i as int).skip(1) =~= a@.skip(i + 1));
        assert(b@.skip(i as int).skip(1) =~= b@.skip(i + 1));
        i += 1;
    }
    i < w.len()
}

/// Item `i` comes before item `j`: its key is smaller, or the keys are the same
/// and it stood first.
pub open spec fn comes_before(keys: Seq<Seq<char>>, i: usize, j: usize) -> bool {
    text_lt(keys[i as int], keys[j as int]) || (keys[i as int] == keys[j as int] && i < j)
}

proof fn lemma_before_transitive(keys: Seq<Seq<char>>, i: usize, j: usize, k: usize)
    requires
        comes_before(keys, i, j),
        comes_before(keys, j, k),
    ensures
        comes_before(keys, i, k),
{
    if text_lt(keys[i as int], keys[j as int]) && text_lt(keys[j as int], keys[k as int]) {
        lemma_lt_transitive(keys[i as int], keys[j as int], keys[k as int]);
    }
}

/// `r` lists the items in their order.
pub open spec fn in_order(keys: Seq<Seq<char>>, r: Seq<usize>) -> bool {
    forall|i: int, j: int|
        0 <= i < j < r.len() ==> comes_before(keys, #[trigger] r[i], #[trigger] r[j])
}

/// Two texts part at index `p`: they are the same before it, and there the first
/// has ended or has the smaller character.
pub open spec fn parts_below(a: Seq<char>, b: Seq<char>, p: int) -> bool {
    &&& 0 <= p <= a.len() && p < b.len()
    &&& forall|i: int| 0 <= i < p ==> a[i] == b[i]
    &&& p == a.len() || a[p] < b[p]
}

/// One text goes before another if and only if they part somewhere in its favour.
pub proof fn lemma_lt_parts(a: Seq<char>, b: Seq<char>)
    ensures
        text_lt(a, b) <==> exists|p: int| parts_below(a, b, p),
    decreases a.len(),
{
    if b.len() > 0 && a.len() == 0 {
        assert(parts_below(a, b, 0));
    } else if b.len() > 0 {
        let c = a.skip(1);
        let d = b.skip(1);
        lemma_lt_parts(c, d);
        if a[0] == b[0] {
            if text_lt(c, d) {
                let p = choose|p: int| parts_below(c, d, p);
                assert forall|i: int| 0 <= i < p + 1 implies a[i] == b[i] by {
                    if i > 0 {
                        assert(c[i - 1] == d[i - 1]);
                    }
                }
                assert(parts_below(a, b, p + 1));
            }
            if exists|p: int| parts_below(a, b, p) {
                let p = choose|p: int| parts_below(a, b, p);
                assert forall|i: int| 0 <= i < p - 1 implies c[i] == d[i] by {
                    assert(a[i + 1] == b[i + 1]);
                }
                assert(parts_below(c, d, p - 1));
            }
        } else {
            if text_lt(a, b) {
                assert(parts_below(a, b, 0));
            }
            if exists|p: int| parts_below(a, b, p) {
                let p = choose|p: int| parts_below(a, b, p);
                assert(p == 0);
            }
        }
    }
}

/// Items that are listed in order come by their texts, the smaller one first; of
/// two with the same text the one that stood first does; and none comes twice.
pub proof fn lemma_listed_order(keys: Seq<Seq<char>>, r: Seq<usize>, i: int, j: int)
    requires
        in_order(keys, r),
        0 <= i < j < r.len(),
    ensures
        (exists|p: int| parts_below(keys[r[i] as int], keys[r[j] as int], p)) || (keys[r[i] as int]
            == keys[r[j] as int] && r[i] < r[j]),
        !(exists|p: int| parts_below(keys[r[j] as int], keys[r[i] as int], p)),
        r[i] != r[j],
{
    let a = keys[r[i] as int];
    let b = keys[r[j] as int];
    assert(comes_before(keys, r[i], r[j]));
    lemma_lt_parts(a, b);
    lemma_lt_parts(b, a);
    lemma_lt_total(a, b);
}

/// `r` holds the numbers from `lo` up to, not with, `hi`, and no others.
pub open spec fn covers(r: Seq<usize>, lo: int, hi: int) -> bool {
    &&& forall|k: int| 0 <= k < r.len() ==> lo <= #[trigger] r[k] < hi
    &&& forall|i: usize| lo <= i < hi ==> r.contains(i)
}

fn merged(
    keys: &Vec<String>,
    a: &Vec<usize>,
    b: &Vec<usize>,
    Ghost(lo): Ghost<int>,
    Ghost(mid): Ghost<int>,
    Ghost(hi): Ghost<int>,
) -> (r: Vec<usize>)
    requires
        0 <= lo <= mid <= hi <= keys@.len(),
        in_order(texts(keys@), a@),
        in_order(texts(keys@), b@),
        covers(a@, lo, mid),
        covers(b@, mid, hi),
        a@.len() == mid - lo,
        b@.len() == hi - mid,
    ensures
        in_order(texts(keys@), r@),
        covers(r@, lo, hi),
        r@.len() == hi - lo,
{
    let ghost ks = texts(keys@);
    let mut r: Vec<usize> = Vec::new();
    let mut i: usize = 0;
    let mut j: usize = 0;
    while i < a.len() || j < b.len()
        invariant
            0 <= lo <= mid <= hi <= keys@.len(),
            ks == texts(keys@),
            in_order(ks, a@),
            in_order(ks, b@),
            covers(a@, lo, mid),
            covers(b@, mid, hi),
            i <= a.len(),
            j <= b.len(),
            r@.len() == i + j,
            in_order(ks, r@),
            forall|k: int| 0 <= k < r@.len() ==> lo <= #[trigger] r@[k] < hi,
            forall|k: int, l: int|
                0 <= k < r@.len() && i <= l < a@.len() ==> comes_before(
                    ks,
                    #[trigger] r@[k],
                    #[trigger] a@[l],
                ),
            forall|k: int, l: int|
                0 <= k < r@.len() && j <= l < b@.len() ==> comes_before(
                    ks,
                    #[trigger] r@[k],
                    #[trigger] b@[l],
                ),
            forall|l: int| 0 <= l < i ==> r@.contains(#[trigger] a@[l]),
            forall|l: int| 0 <= l < j ==> r@.contains(#[trigger] b@[l]),
        decreases a.len() - i + b.len() - j,
    {
        let left: bool = if i == a.len() {
            false
        } else if j == b.len() {
            true
        } else {
            !text_less(keys[b[j]].as_str(), keys[a[i]].as_str())
        };
        let ghost was = r@;
        let x: usize = if left {
            a[i]
        } else {
            b[j]
        };
        proof {
            if i < a.len() && j < b.len() {
                assert(ks[a@[i as int] as int] == keys@[a@[i as int] as int]@);
                assert(ks[b@[j as int] as int] == keys@[b@[j as int] as int]@);
                lemma_lt_total(ks[a@[i as int] as int], ks[b@[j as int] as int]);
                if left {
                    assert(comes_before(ks, x, b@[j as int]));
                    assert forall|l: int| j <= l < b@.len() implies comes_before(
                        ks,
                        x,
                        #[trigger] b@[l],
                    ) by {
                        if l > j {
                            lemma_before_transitive(ks, x, b@[j as int], b@[l]);
                        }
                    }
                } else {
                    assert(comes_before(ks, x, a@[i as int]));
                    assert forall|l: int| i <= l < a@.len() implies comes_before(
                        ks,
                        x,
                        #[trigger] a@[l],
                    ) by {
                        if l > i {
                            lemma_before_transitive(ks, x, a@[i as int], a@[l]);
                        }
                    }
                }
            }
        }
        r.push(x);
        if left {
            i += 1;
        } else {
            j += 1;
        }
        proof {
            assert(r@[was.len() as int] == x);
            assert forall|y: usize| was.contains(y) implies r@.contains(y) by {
                let k = choose|k: int| 0 <= k < was.len() && was[k] == y;
                assert(r@[k] == y);
            }
        }
    }
    assert forall|x: usize| lo <= x < hi implies r@.contains(x) by {
        if x < mid {
            assert(a@.contains(x));
            let l = choose|l: int| 0 <= l < a@.len() && a@[l] == x;
            assert(r@.contains(a@[l]));
        } else {
            assert(b@.contains(x));
            let l = choose|l: int| 0 <= l < b@.len() && b@[l] == x;
            assert(r@.contains(b@[l]));
        }
    }
    r
}

fn order_part(keys: &Vec<String>, lo: usize, hi: usize) -> (r: Vec<usize>)
    requires
        lo <= hi <= keys@.len(),
    ensures
        in_order(texts(keys@), r@),
        covers(r@, lo as int, hi as int),
        r@.len() == hi - lo,
    decreases hi - lo,
{
    if hi - lo == 0 {
        Vec::new()
    } else if hi - lo == 1 {
        let mut r: Vec<usize> = Vec::new();
        r.push(lo);
        assert(r@[0] == lo);
        r
    } else {
        let mid: usize = lo + (hi - lo) / 2;
        let a: Vec<usize> = order_part(keys, lo, mid);
        let b: Vec<usize> = order_part(keys, mid, hi);
        merged(keys, &a, &b, Ghost(lo as int), Ghost(mid as int), Ghost(hi as int))
    }
}

/// The items' numbers in the order of their keys; items with the same key stay
/// in the order they have.
pub fn sorted_order(keys: &Vec<String>) -> (r: Vec<usize>)
    ensures
        in_order(texts(keys@), r@),
        covers(r@, 0, keys@.len() as int),
        r@.len() == keys@.len(),
{
    order_part(keys, 0, keys.len())
}

} // verus!
