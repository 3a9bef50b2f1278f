//! Market data: the book delta a change publishes, and the bounded ring of
//! recent messages that a reconnecting subscriber resyncs from.
use std::collections::VecDeque;
use vstd::prelude::*;

verus! {

/// A change of one market's book as published to subscribers.
#[derive(Debug)]
pub struct MktDelta {
    pub market_id: String,
    pub seq: u64,
    pub bids_upd: Vec<(u32, u64)>,
    pub asks_upd: Vec<(u32, u64)>,
    pub last_trade: Option<(u32, u32)>,
}

/// A message as a value: its sequence number and its text.
pub type MsgV = (u64, Seq<char>);

/// The newest `cap` messages of `s` (all of them when there are fewer).
pub open spec fn keep_last(s: Seq<MsgV>, cap: int) -> Seq<MsgV> {
    if s.len() > cap {
        s.subrange(s.len() - cap, s.len() as int)
    } else {
        s
    }
}

/// The texts of the messages whose sequence number is strictly greater
/// than `from`, oldest first.
pub open spec fn msgs_after(s: Seq<MsgV>, from: u64) -> Seq<Seq<char>>
    decreases s.len(),
{
    if s.len() == 0 {
        seq![]
    } else {
        let d = msgs_after(s.drop_last(), from);
        if s.last().0 > from {
            d.push(s.last().1)
        } else {
            d
        }
    }
}

/// The ring of the most recent published messages, at most `ring_cap` of
/// them, oldest first.
pub struct Broadcaster {
    pub ring: VecDeque<(u64, String)>,
    pub ring_cap: usize,
}

impl Broadcaster {
    pub open spec fn msgs(&self) -> Seq<MsgV> {
        self.ring@.map_values(|m: (u64, String)| (m.0, m.1@))
    }

    /// The ring never holds more than its capacity.
    pub open spec fn wf(&self) -> bool {
        self.ring@.len() <= self.ring_cap
    }

    pub fn new(capacity: usize) -> (b: Self)
        ensures
            b.wf(),
            b.msgs() == Seq::<MsgV>::empty(),
            b.ring_cap == capacity,
    {
        let b = Broadcaster { ring: VecDeque::with_capacity(capacity), ring_cap: capacity };
        assert(b.msgs() =~= Seq::<MsgV>::empty());
        b
    }

    /// Appends a message and drops the oldest ones beyond the capacity.
    pub fn push(&mut self, seq: u64, s: String)
        ensures
            final(self).wf(),
            final(self).ring_cap == old(self).ring_cap,
            final(self).msgs() == keep_last(old(self).msgs().push((seq, s@)), old(self).ring_cap as int),
    {
        let ghost t = self.msgs().push((seq, s@));
        self.ring.push_back((seq, s));
        assert(self.msgs() =~= t);
        let ghost mut k: int = 0;
        while self.ring.len() > self.ring_cap
            invariant
                0 <= k <= t.len(),
                self.msgs() == t.subrange(k, t.len() as int),
                k > 0 ==> t.len() - k >= self.ring_cap,
                self.ring_cap == old(self).ring_cap,
            decreases self.ring@.len(),
        {
            let ghost before = self.msgs();
            let _ = self.ring.pop_front();
            proof {
                assert(self.msgs() =~= before.subrange(1, before.len() as int));
                assert(self.msgs() =~= t.subrange(k + 1, t.len() as int));
                k = k + 1;
            }
        }
        proof {
            if k == 0 {
                assert(t.subrange(0, t.len() as int) =~= t);
            }
        }
    }

    /// The texts of the ring's messages with a sequence number strictly
    /// greater than `from_seq`, oldest first.
    pub fn snapshot_from_seq(&self, from_seq: u64) -> (res: Vec<String>)
        ensures
            res@.len() == msgs_after(self.msgs(), from_seq).len(),
            forall|i: int| 0 <= i < res@.len() ==> (#[trigger] res@[i])@ == msgs_after(self.msgs(), from_seq)[i],
    {
        let ghost m = self.msgs();
        let mut out: Vec<String> = Vec::new();
        let mut i: usize = 0;
        assert(m.subrange(0, 0) =~= Seq::<MsgV>::empty());
        while i < self.ring.len()
            invariant
                m == self.msgs(),
                i <= m.len(),
                out@.len() == msgs_after(m.subrange(0, i as int), from_seq).len(),
                forall|j: int| 0 <= j < out@.len() ==> (#[trigger] out@[j])@ == msgs_after(m.subrange(0, i as int), from_seq)[j],
            decreases m.len() - i,
        {
            assert(m.subrange(0, i + 1).drop_last() =~= m.subrange(0, i as int));
            let e = &self.ring[i];
            assert(m[i as int] == (e.0, e.1@));
            if e.0 > from_seq {
                out.push(e.1.clone());
            }
            i = i + 1;
        }
        assert(m.subrange(0, m.len() as int) =~= m);
        out
    }
}

/// A resync sees the newest message: after a message is pushed to a ring
/// of positive capacity, it is kept as the newest entry, the ring holds at
/// most its capacity, and a resync from any point before its sequence
/// number returns it last.
pub proof fn law_resync_sees_latest(s: Seq<MsgV>, x: MsgV, cap: int, from: u64)
    requires
        cap > 0,
        x.0 > from,
    ensures
        keep_last(s.push(x), cap).len() <= cap,
        keep_last(s.push(x), cap).last() == x,
        msgs_after(keep_last(s.push(x), cap), from).last() == x.1,
{
    let k = keep_last(s.push(x), cap);
    assert(k.last() == x);
    assert(k.len() > 0);
}

} // verus!
