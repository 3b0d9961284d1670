//! How a file is shared out among the streams of a transfer.

use vstd::prelude::*;

verus! {

/// Start of the `i`-th of `n` ranges of a file: every range gets `size / n`
/// bytes and the first `size % n` ranges one more.
pub open spec fn range_start(size: nat, n: nat, i: nat) -> nat {
    i * (size / n) + if i < size % n {
        i
    } else {
        size % n
    }
}

/// The `i`-th range, from its first byte up to, not with, its end.
pub open spec fn range_of(size: nat, n: nat, i: nat) -> (nat, nat) {
    (range_start(size, n, i), range_start(size, n, i + 1))
}

/// The ranges of an unshifted and of a shifted file.
pub open spec fn is_split(r: Seq<(u64, u64)>, size: nat, n: nat, shift: nat) -> bool {
    &&& r.len() == n
    &&& forall|i: int|
        0 <= i < n ==> (#[trigger] r[i]).0 == shift + range_of(size, n, i as nat).0 && r[i].1
            == shift + range_of(size, n, i as nat).1
}

proof fn lemma_step(size: nat, n: nat, i: nat)
    requires
        n > 0,
    ensures
        range_start(size, n, i + 1) == range_start(size, n, i) + size / n + if i < size % n {
            1nat
        } else {
            0nat
        },
{
    let q = size / n;
    assert((i + 1) * q == i * q + q) by (nonlinear_arith);
}

/// The ranges are laid end to end: the first starts at zero, the last ends at
/// the file's size, and none starts before an earlier one.
pub proof fn lemma_ranges_end_to_end(size: nat, n: nat)
    requires
        n > 0,
    ensures
        range_start(size, n, 0) == 0,
        range_start(size, n, n) == size,
        forall|i: nat, j: nat|
            i <= j ==> #[trigger] range_start(size, n, i) <= #[trigger] range_start(size, n, j),
{
    assert(n * (size / n) + size % n == size) by (nonlinear_arith)
        requires
            n > 0,
    ;
    assert(size % n < n) by (nonlinear_arith)
        requires
            n > 0,
    ;
    assert forall|i: nat, j: nat| i <= j implies #[trigger] range_start(size, n, i)
        <= #[trigger] range_start(size, n, j) by {
        lemma_monotone(size, n, i, j);
    }
}

proof fn lemma_monotone(size: nat, n: nat, i: nat, j: nat)
    requires
        n > 0,
        i <= j,
    ensures
        range_start(size, n, i) <= range_start(size, n, j),
    decreases j - i,
{
    if i < j {
        lemma_monotone(size, n, i, (j - 1) as nat);
        lemma_step(size, n, (j - 1) as nat);
    }
}

/// The sizes of two ranges differ by at most one byte.
pub proof fn lemma_ranges_even(size: nat, n: nat, i: nat, j: nat)
    requires
        n > 0,
    ensures
        ({
            let a = range_of(size, n, i).1 - range_of(size, n, i).0;
            let b = range_of(size, n, j).1 - range_of(size, n, j).0;
            a - b <= 1 && b - a <= 1
        }),
{
    lemma_step(size, n, i);
    lemma_step(size, n, j);
}

/// Every byte of the file lies in one range, and in no other.
pub proof fn lemma_ranges_exclusive(size: nat, n: nat, off: nat)
    requires
        n > 0,
        off < size,
    ensures
        exists|i: nat|
            i < n && (#[trigger] range_of(size, n, i)).0 <= off < range_of(size, n, i).1,
        forall|i: nat, j: nat|
            (#[trigger] range_of(size, n, i)).0 <= off < range_of(size, n, i).1 && (
            #[trigger] range_of(size, n, j)).0 <= off < range_of(size, n, j).1 ==> i == j,
{
    lemma_ranges_end_to_end(size, n);
    lemma_holder(size, n, off, n);
    assert forall|i: nat, j: nat|
        (#[trigger] range_of(size, n, i)).0 <= off < range_of(size, n, i).1 && (#[trigger] range_of(
            size,
            n,
            j,
        )).0 <= off < range_of(size, n, j).1 implies i == j by {
        if i < j {
            assert(range_start(size, n, i + 1) <= range_start(size, n, j));
        } else if j < i {
            assert(range_start(size, n, j + 1) <= range_start(size, n, i));
        }
    }
}

proof fn lemma_holder(size: nat, n: nat, off: nat, k: nat)
    requires
        n > 0,
        off < range_start(size, n, k),
        k <= n,
    ensures
        exists|i: nat|
            i < n && (#[trigger] range_of(size, n, i)).0 <= off < range_of(size, n, i).1,
    decreases k,
{
    if k > 0 {
        if off < range_start(size, n, (k - 1) as nat) {
            lemma_holder(size, n, off, (k - 1) as nat);
        } else {
            let i = (k - 1) as nat;
            assert(i + 1 == k);
            assert(range_of(size, n, i).0 <= off < range_of(size, n, i).1);
        }
    } else {
        assert(range_start(size, n, 0) == 0);
    }
}

/// Splits `size` bytes into `n` ranges laid end to end.
pub fn split_ranges(size: u64, n: usize) -> (out: Vec<(u64, u64)>)
    requires
        n > 0,
    ensures
        is_split(out@, size as nat, n as nat, 0),
{
    let m: u64 = n as u64;
    let base: u64 = size / m;
    let mut rem: u64 = size % m;
    let mut out: Vec<(u64, u64)> = Vec::with_capacity(n);
    let mut start: u64 = 0;
    let mut i: usize = 0;
    proof {
        lemma_ranges_end_to_end(size as nat, n as nat);
    }
    while i < n
        invariant
            0 < n,
            i <= n,
            base == size as nat / n as nat,
            rem == if i < size as nat % n as nat {
                size as nat % n as nat - i
            } else {
                0
            },
            start == range_start(size as nat, n as nat, i as nat),
            range_start(size as nat, n as nat, n as nat) == size,
            out@.len() == i,
            forall|k: int|
                0 <= k < i ==> (#[trigger] out@[k]).0 == range_of(size as nat, n as nat, k as nat).0
                    && out@[k].1 == range_of(size as nat, n as nat, k as nat).1,
        decreases n - i,
    {
        let mut extra: u64 = 0;
        if rem > 0 {
            rem -= 1;
            extra = 1;
        }
        proof {
            lemma_step(size as nat, n as nat, i as nat);
            lemma_monotone(size as nat, n as nat, (i + 1) as nat, n as nat);
        }
        let end: u64 = start + base + extra;
        out.push((start, end));
        start = end;
        i += 1;
    }
    out
}

/// The ranges of the part of a file that is still to be sent, as offsets into
/// the whole file.
pub fn transfer_ranges(size: u64, resume_from: u64, streams: usize) -> (out: Vec<(u64, u64)>)
    requires
        streams > 0,
        resume_from <= size,
    ensures
        is_split(out@, (size - resume_from) as nat, streams as nat, resume_from as nat),
{
    let ghost left = (size - resume_from) as nat;
    let plain: Vec<(u64, u64)> = split_ranges(size - resume_from, streams);
    let mut out: Vec<(u64, u64)> = Vec::with_capacity(streams);
    let mut i: usize = 0;
    proof {
        lemma_ranges_end_to_end(left, streams as nat);
    }
    while i < streams
        invariant
            i <= streams,
            left == size - resume_from,
            is_split(plain@, left, streams as nat, 0),
            forall|k: nat| k <= streams ==> #[trigger] range_start(left, streams as nat, k) <= left,
            out@.len() == i,
            forall|k: int|
                0 <= k < i ==> (#[trigger] out@[k]).0 == resume_from + range_of(
                    left,
                    streams as nat,
                    k as nat,
                ).0 && out@[k].1 == resume_from + range_of(left, streams as nat, k as nat).1,
        decreases streams - i,
    {
        let (a, b) = plain[i];
        assert(plain@[i as int].0 <= left && plain@[i as int].1 <= left);
        out.push((a + resume_from, b + resume_from));
        i += 1;
    }
    out
}

} // verus!
