//! How the connections of a transfer become its numbered streams.

use crate::crypto::{sid_tag, stream_id_tag};
use crate::text::{dec, dec_text};
use crate::wire::{le, same_bytes, write_u32};
use vstd::prelude::*;

verus! {

/// What a dialer writes first on the connection of stream `id`: the id, and the
/// tag of the id if there is a shared key.
pub open spec fn hello(id: u32, psk: Option<&[u8; 32]>) -> Seq<u8> {
    le(id as nat, 4) + match psk {
        Some(k) => sid_tag(k@, id),
        None => Seq::empty(),
    }
}

pub fn dial_hello(id: u32, psk: Option<&[u8; 32]>) -> (w: Vec<u8>)
    ensures
        w@ == hello(id, psk),
{
    let mut w: Vec<u8> = Vec::new();
    write_u32(&mut w, id);
    if let Some(k) = psk {
        let tag: [u8; 16] = stream_id_tag(k, id);
        w.extend_from_slice(&tag);
    }
    assert(w@ =~= hello(id, psk));
    w
}

/// What a dialer writes first on each of its connections.
pub fn dial_streams(streams: usize, psk: Option<&[u8; 32]>) -> (r: Vec<Vec<u8>>)
    requires
        streams <= u32::MAX,
    ensures
        r@.len() == streams,
        forall|i: int| 0 <= i < streams ==> (#[trigger] r@[i])@ == hello(i as u32, psk),
{
    let mut r: Vec<Vec<u8>> = Vec::new();
    let mut i: usize = 0;
    while i < streams
        invariant
            i <= streams <= u32::MAX,
            r@.len() == i,
            forall|k: int| 0 <= k < i ==> (#[trigger] r@[k])@ == hello(k as u32, psk),
        decreases streams - i,
    {
        r.push(dial_hello(i as u32, psk));
        i += 1;
    }
    r
}

/// How many places are taken.
pub open spec fn taken<T>(s: Seq<Option<T>>) -> nat
    decreases s.len(),
{
    if s.len() == 0 {
        0
    } else {
        taken(s.drop_last()) + if s.last() is Some {
            1nat
        } else {
            0nat
        }
    }
}

/// Why a stream id is out of range, if it is.
pub open spec fn id_refusal(role: Seq<char>, id: u32, streams: nat) -> Option<Seq<char>> {
    if id >= streams {
        Some(
            role + " bad stream id "@ + dec(id as nat) + " (expected 0.."@ + dec(
                if streams > 0 {
                    (streams - 1) as nat
                } else {
                    0
                },
            ) + ")"@,
        )
    } else {
        None
    }
}

/// Why the connection of a dialer that named itself stream `id` is refused, if
/// it is.
pub open spec fn hello_refusal<T>(
    slots: Seq<Option<T>>,
    role: Seq<char>,
    id: u32,
    tag: Seq<u8>,
    psk: Option<&[u8; 32]>,
) -> Option<Seq<char>> {
    if id_refusal(role, id, slots.len()) is Some {
        id_refusal(role, id, slots.len())
    } else if psk is Some && tag != sid_tag(psk->0@, id) {
        Some(role + " bad stream-id MAC for id "@ + dec(id as nat))
    } else if slots[id as int] is Some {
        Some(role + " duplicate stream id "@ + dec(id as nat))
    } else {
        None
    }
}

/// The connections accepted so far, each in the place of its stream.
pub struct AcceptSlots<T> {
    slots: Vec<Option<T>>,
}

impl<T> View for AcceptSlots<T> {
    type V = Seq<Option<T>>;

    closed spec fn view(&self) -> Seq<Option<T>> {
        self.slots@
    }
}

impl<T> AcceptSlots<T> {
    /// A place for each of `streams` streams, none taken.
    pub fn new(streams: usize) -> (s: AcceptSlots<T>)
        ensures
            s@.len() == streams,
            forall|i: int| 0 <= i < streams ==> (#[trigger] s@[i]) is None,
            taken(s@) == 0,
    {
        let mut slots: Vec<Option<T>> = Vec::new();
        let mut i: usize = 0;
        while i < streams
            invariant
                i <= streams,
                slots@.len() == i,
                forall|k: int| 0 <= k < i ==> (#[trigger] slots@[k]) is None,
                taken(slots@) == 0,
            decreases streams - i,
        {
            let ghost was = slots@;
            slots.push(None);
            assert(slots@.drop_last() =~= was);
            i += 1;
        }
        AcceptSlots { slots }
    }

    /// Number of streams.
    pub fn streams(&self) -> (n: usize)
        ensures
            n == self@.len(),
    {
        self.slots.len()
    }

    /// Accepts the id that a dialer names, before its tag is read.
    pub fn check_id(&self, role: &str, id: u32) -> (r: Result<(), String>)
        ensures
            match r {
                Ok(_) => id_refusal(role@, id, self@.len()) is None,
                Err(e) => id_refusal(role@, id, self@.len()) == Some(e@),
            },
    {
        let n: usize = self.slots.len();
        if id as usize >= n {
            let mut m: String = role.to_owned();
            m.append(" bad stream id ");
            m.append(dec_text(id as u64).as_str());
            m.append(" (expected 0..");
            let last: u64 = if n > 0 {
                n as u64 - 1
            } else {
                0
            };
            m.append(dec_text(last).as_str());
            m.append(")");
            return Err(m);
        }
        Ok(())
    }

    /// Puts a connection into the place of its stream. The tag counts only
    /// where there is a shared key.
    pub fn place(
        &mut self,
        role: &str,
        id: u32,
        tag: &[u8; 16],
        psk: Option<&[u8; 32]>,
        conn: T,
    ) -> (r: Result<(), String>)
        ensures
            match r {
                Ok(_) => {
                    &&& hello_refusal(old(self)@, role@, id, tag@, psk) is None
                    &&& final(self)@ == old(self)@.update(id as int, Some(conn))
                    &&& taken(final(self)@) == taken(old(self)@) + 1
                },
                Err(e) => {
                    &&& hello_refusal(old(self)@, role@, id, tag@, psk) == Some(e@)
                    &&& final(self)@ == old(self)@
                },
            },
    {
        self.check_id(role, id)?;
        if let Some(k) = psk {
            let expect: [u8; 16] = stream_id_tag(k, id);
            if !same_bytes(tag, &expect) {
                let mut m: String = role.to_owned();
                m.append(" bad stream-id MAC for id ");
                m.append(dec_text(id as u64).as_str());
                return Err(m);
            }
        }
        if self.slots[id as usize].is_some() {
            let mut m: String = role.to_owned();
            m.append(" duplicate stream id ");
            m.append(dec_text(id as u64).as_str());
            return Err(m);
        }
        proof {
            lemma_taken_update(self.slots@, id as int, conn);
        }
        self.slots.set(id as usize, Some(conn));
        Ok(())
    }

    /// `true` when every stream has its connection.
    pub fn is_full(&self) -> (r: bool)
        ensures
            r == (taken(self@) == self@.len()),
    {
        let n: usize = self.slots.len();
        let mut i: usize = 0;
        while i < n
            invariant
                n == self.slots.len(),
                i <= n,
                forall|k: int| 0 <= k < i ==> (#[trigger] self.slots@[k]) is Some,
            decreases n - i,
        {
            if self.slots[i].is_none() {
                proof {
                    if taken(self.slots@) == n {
                        lemma_full(self.slots@);
                    }
                }
                return false;
            }
            i += 1;
        }
        proof {
            lemma_all_taken(self.slots@);
        }
        true
    }

    /// The connections in the order of their streams.
    pub fn finish(self) -> (r: Vec<T>)
        requires
            taken(self@) == self@.len(),
        ensures
            r@.len() == self@.len(),
            forall|i: int| 0 <= i < r@.len() ==> self@[i] == Some(#[trigger] r@[i]),
    {
        proof {
            lemma_full(self.slots@);
        }
        let mut slots: Vec<Option<T>> = self.slots;
        let mut r: Vec<T> = Vec::new();
        let ghost all = slots@;
        while slots.len() > 0
            invariant
                r@.len() + slots@.len() == all.len(),
                slots@ == all.skip(r@.len() as int),
                forall|i: int| 0 <= i < all.len() ==> (#[trigger] all[i]) is Some,
                forall|i: int| 0 <= i < r@.len() ==> all[i] == Some(#[trigger] r@[i]),
            decreases slots.len(),
        {
            let ghost k = r@.len() as int;
            assert(slots@[0] == all[k]);
            match slots.remove(0) {
                Some(c) => {
                    r.push(c);
                    assert(slots@ =~= all.skip(k + 1));
                },
                None => {},
            }
        }
        r
    }
}

proof fn lemma_taken_bound<T>(s: Seq<Option<T>>)
    ensures
        taken(s) <= s.len(),
    decreases s.len(),
{
    if s.len() > 0 {
        lemma_taken_bound(s.drop_last());
    }
}

proof fn lemma_all_taken<T>(s: Seq<Option<T>>)
    requires
        forall|i: int| 0 <= i < s.len() ==> (#[trigger] s[i]) is Some,
    ensures
        taken(s) == s.len(),
    decreases s.len(),
{
    if s.len() > 0 {
        lemma_all_taken(s.drop_last());
    }
}

/// As many connections as streams, each in a place of its own, leave no stream
/// without one.
pub proof fn lemma_full<T>(s: Seq<Option<T>>)
    requires
        taken(s) == s.len(),
    ensures
        forall|i: int| 0 <= i < s.len() ==> (#[trigger] s[i]) is Some,
    decreases s.len(),
{
    if s.len() > 0 {
        lemma_taken_bound(s.drop_last());
        lemma_full(s.drop_last());
        assert forall|i: int| 0 <= i < s.len() implies (#[trigger] s[i]) is Some by {
            if i < s.len() - 1 {
                assert(s.drop_last()[i] is Some);
            }
        }
    }
}

proof fn lemma_taken_update<T>(s: Seq<Option<T>>, i: int, x: T)
    requires
        0 <= i < s.len(),
        s[i] is None,
    ensures
        taken(s.update(i, Some(x))) == taken(s) + 1,
    decreases s.len(),
{
    let t = s.update(i, Some(x));
    if i == s.len() - 1 {
        assert(t.drop_last() =~= s.drop_last());
    } else {
        assert(t.drop_last() =~= s.drop_last().update(i, Some(x)));
        lemma_taken_update(s.drop_last(), i, x);
    }
}

/// The places after the connections `conns` of the streams `ids` have come in,
/// in that order.
pub open spec fn arrived<T>(streams: nat, ids: Seq<u32>, conns: Seq<T>) -> Seq<Option<T>>
    decreases ids.len(),
{
    if ids.len() == 0 {
        Seq::new(streams, |i: int| None)
    } else {
        arrived(streams, ids.drop_last(), conns.drop_last()).update(
            ids.last() as int,
            Some(conns.last()),
        )
    }
}

/// In whatever order the connections of a dialer come in, none is refused as
/// long as dialer and accepter hold the same key, and at the end each stands in
/// the place of its stream.
pub proof fn lemma_any_order<T>(
    streams: nat,
    role: Seq<char>,
    psk: Option<&[u8; 32]>,
    ids: Seq<u32>,
    conns: Seq<T>,
)
    requires
        ids.len() <= streams,
        conns.len() == ids.len(),
        forall|k: int| 0 <= k < ids.len() ==> (#[trigger] ids[k]) < streams,
        forall|j: int, k: int| 0 <= j < k < ids.len() ==> #[trigger] ids[j] != #[trigger] ids[k],
    ensures
        forall|k: int|
            0 <= k < ids.len() ==> hello_refusal(
                arrived(streams, ids.take(k), conns.take(k)),
                role,
                #[trigger] ids[k],
                match psk {
                    Some(key) => sid_tag(key@, ids[k]),
                    None => Seq::empty(),
                },
                psk,
            ) is None,
        arrived(streams, ids, conns).len() == streams,
        forall|k: int|
            0 <= k < ids.len() ==> arrived(streams, ids, conns)[#[trigger] ids[k] as int] == Some(
                conns[k],
            ),
        taken(arrived(streams, ids, conns)) == ids.len(),
    decreases ids.len(),
{
    lemma_arrived(streams, ids, conns);
    assert forall|k: int| 0 <= k < ids.len() implies hello_refusal(
        arrived(streams, ids.take(k), conns.take(k)),
        role,
        #[trigger] ids[k],
        match psk {
            Some(key) => sid_tag(key@, ids[k]),
            None => Seq::empty(),
        },
        psk,
    ) is None by {
        lemma_arrived(streams, ids.take(k), conns.take(k));
    }
}

proof fn lemma_arrived<T>(streams: nat, ids: Seq<u32>, conns: Seq<T>)
    requires
        conns.len() == ids.len(),
        forall|k: int| 0 <= k < ids.len() ==> (#[trigger] ids[k]) < streams,
        forall|j: int, k: int| 0 <= j < k < ids.len() ==> #[trigger] ids[j] != #[trigger] ids[k],
    ensures
        arrived(streams, ids, conns).len() == streams,
        forall|k: int|
            0 <= k < ids.len() ==> arrived(streams, ids, conns)[#[trigger] ids[k] as int] == Some(
                conns[k],
            ),
        forall|i: int|
            0 <= i < streams && (forall|k: int| 0 <= k < ids.len() ==> #[trigger] ids[k] != i)
                ==> #[trigger] arrived(streams, ids, conns)[i] is None,
        taken(arrived(streams, ids, conns)) == ids.len(),
    decreases ids.len(),
{
    let s = arrived(streams, ids, conns);
    if ids.len() == 0 {
        lemma_none_taken(s);
    } else {
        let a = ids.drop_last();
        let b = conns.drop_last();
        let t = arrived(streams, a, b);
        let last = ids.last() as int;
        lemma_arrived(streams, a, b);
        assert forall|k: int| 0 <= k < a.len() implies #[trigger] a[k] != last by {
            assert(ids[k] != ids[ids.len() - 1]);
        }
        assert(t[last] is None);
        lemma_taken_update(t, last, conns.last());
        assert forall|k: int| 0 <= k < ids.len() implies s[#[trigger] ids[k] as int] == Some(
            conns[k],
        ) by {
            if k < ids.len() - 1 {
                assert(a[k] == ids[k]);
                assert(t[a[k] as int] == Some(b[k]));
            }
        }
        assert forall|i: int|
            0 <= i < streams && (forall|k: int| 0 <= k < ids.len() ==> #[trigger] ids[k] != i)
            implies #[trigger] s[i] is None by {
            assert forall|k: int| 0 <= k < a.len() implies #[trigger] a[k] != i by {
                assert(ids[k] != i);
            }
            assert(ids[ids.len() - 1] != i);
            assert(t[i] is None);
        }
    }
}

proof fn lemma_none_taken<T>(s: Seq<Option<T>>)
    requires
        forall|i: int| 0 <= i < s.len() ==> (#[trigger] s[i]) is None,
    ensures
        taken(s) == 0,
    decreases s.len(),
{
    if s.len() > 0 {
        lemma_none_taken(s.drop_last());
    }
}

} // verus!
