//! The simulator's event queue: a priority queue popping the smallest (tick, seq) first.

use crate::sim::delay::{NodeId, Tick};
use vstd::prelude::*;

verus! {

pub enum Payload<M> {
    Deliver { from: NodeId, msg: M },
    Timer { timer: String },
}

pub struct QueueItem<M> {
    pub tick: Tick,
    pub seq: u64,
    pub node: NodeId,
    pub payload: Payload<M>,
}

/// Strict order on event keys: by tick, then by sequence number.
pub open spec fn key_before(a_tick: Tick, a_seq: u64, b_tick: Tick, b_seq: u64) -> bool {
    a_tick < b_tick || (a_tick == b_tick && a_seq < b_seq)
}

pub open spec fn item_before<M>(a: QueueItem<M>, b: QueueItem<M>) -> bool {
    key_before(a.tick, a.seq, b.tick, b.seq)
}

/// Items kept in strictly descending key order, so the smallest is at the end.
pub open spec fn descending<M>(s: Seq<QueueItem<M>>) -> bool {
    forall|i: int, j: int| 0 <= i < j < s.len() ==> item_before(s[j], s[i])
}

pub struct EventQueue<M> {
    items: Vec<QueueItem<M>>,
}

impl<M> View for EventQueue<M> {
    type V = Seq<QueueItem<M>>;

    closed spec fn view(&self) -> Seq<QueueItem<M>> {
        self.items@
    }
}

impl<M> EventQueue<M> {
    pub open spec fn wf(&self) -> bool {
        descending(self@)
    }

    pub fn new() -> (q: Self)
        ensures
            q@ == Seq::<QueueItem<M>>::empty(),
            q.wf(),
    {
        EventQueue { items: Vec::new() }
    }

    pub fn len(&self) -> (n: usize)
        ensures
            n == self@.len(),
    {
        self.items.len()
    }

    /// The tick of the earliest pending event.
    pub fn peek_tick(&self) -> (t: Option<Tick>)
        ensures
            self@.len() == 0 ==> t is None,
            self@.len() > 0 ==> t == Some(self@.last().tick),
    {
        if self.items.len() == 0 {
            None
        } else {
            Some(self.items[self.items.len() - 1].tick)
        }
    }

    /// Adds an event whose key differs from every queued key.
    pub fn push(&mut self, item: QueueItem<M>)
        requires
            old(self).wf(),
            forall|i: int| 0 <= i < old(self)@.len() ==> item.seq != #[trigger] old(self)@[i].seq,
        ensures
            final(self).wf(),
            final(self)@.len() == old(self)@.len() + 1,
            exists|p: int|
                0 <= p <= old(self)@.len() && final(self)@ == old(self)@.take(p).push(item) + old(
                    self,
                )@.skip(p),
    {
        let mut lo: usize = 0;
        let mut hi: usize = self.items.len();
        while lo < hi
            invariant
                0 <= lo <= hi <= self.items@.len(),
                self@ == old(self)@,
                self.wf(),
                forall|i: int| 0 <= i < self@.len() ==> item.seq != #[trigger] self@[i].seq,
                forall|j: int| 0 <= j < lo ==> item_before(item, #[trigger] self@[j]),
                forall|j: int| hi <= j < self@.len() ==> item_before(#[trigger] self@[j], item),
            decreases hi - lo,
        {
            let mid = lo + (hi - lo) / 2;
            let m = &self.items[mid];
            if m.tick > item.tick || (m.tick == item.tick && m.seq > item.seq) {
                assert forall|j: int| 0 <= j < mid + 1 implies item_before(item, #[trigger] self@[j]) by {
                    if j < mid {
                        assert(item_before(self@[mid as int], self@[j]));
                    }
                }
                lo = mid + 1;
            } else {
                assert(self@[mid as int].seq != item.seq);
                assert forall|j: int| mid <= j < self@.len() implies item_before(#[trigger] self@[j], item) by {
                    if j > mid {
                        assert(item_before(self@[j], self@[mid as int]));
                    }
                }
                hi = mid;
            }
        }
        let ghost old_items = self@;
        self.items.insert(lo, item);
        proof {
            assert(self@ =~= old_items.take(lo as int).push(item) + old_items.skip(lo as int));
            assert forall|i: int, j: int| 0 <= i < j < self@.len() implies item_before(
                self@[j],
                self@[i],
            ) by {
                if i < lo && j < lo {
                    assert(self@[i] == old_items[i] && self@[j] == old_items[j]);
                } else if i < lo && j == lo {
                    assert(self@[i] == old_items[i]);
                } else if i < lo && j > lo {
                    assert(self@[i] == old_items[i] && self@[j] == old_items[j - 1]);
                } else if i == lo {
                    assert(self@[j] == old_items[j - 1]);
                } else {
                    assert(self@[i] == old_items[i - 1] && self@[j] == old_items[j - 1]);
                }
            }
        }
    }

    /// Removes and returns the earliest pending event.
    pub fn pop_min(&mut self) -> (r: Option<QueueItem<M>>)
        requires
            old(self).wf(),
        ensures
            final(self).wf(),
            old(self)@.len() == 0 ==> r is None && final(self)@ == old(self)@,
            old(self)@.len() > 0 ==> r == Some(old(self)@.last()) && final(self)@
                == old(self)@.drop_last(),
    {
        let r = self.items.pop();
        proof {
            if old(self)@.len() > 0 {
                assert(self@ =~= old(self)@.drop_last());
            }
        }
        r
    }
}

} // verus!
