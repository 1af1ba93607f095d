//! Bounded ingress buffer.
//!
//! A first-in-first-out buffer of trades with a fixed capacity.  A full
//! buffer never drops: offering to it hands the trade back, and the
//! producer is expected to hold it (backpressure).

use vstd::prelude::*;

use crate::trade::{TradeRecord, TradeView};

verus! {

/// Bounded single-producer single-consumer trade buffer.
pub struct IngressQueue {
    pub capacity: usize,
    pub items: Vec<TradeRecord>,
}

impl IngressQueue {
    /// Ghost content, oldest first.
    pub open spec fn trades(self) -> Seq<TradeView> {
        self.items@.map_values(|t: TradeRecord| t@)
    }

    /// Queue invariant: within capacity, well-formed trades.
    pub open spec fn wf(self) -> bool {
        &&& self.items@.len() <= self.capacity
        &&& forall|i: int| 0 <= i < self.items@.len() ==> (#[trigger] self.items@[i])@.wf()
    }

    /// An empty buffer of the given capacity.
    pub fn new(capacity: usize) -> (r: IngressQueue)
        ensures
            r.wf(),
            r.capacity == capacity,
            r.trades() == Seq::<TradeView>::empty(),
    {
        let q = IngressQueue { capacity, items: Vec::new() };
        proof {
            assert(q.trades() =~= Seq::<TradeView>::empty());
        }
        q
    }

    /// Number of buffered trades.
    pub fn len(&self) -> (r: usize)
        ensures
            r == self.trades().len(),
    {
        self.items.len()
    }

    /// Offer one trade.  A buffer below capacity takes it; a full buffer
    /// hands it back unchanged (the producer blocks — nothing is dropped).
    pub fn offer(&mut self, t: TradeRecord) -> (r: Result<(), TradeRecord>)
        requires
            old(self).wf(),
            t@.wf(),
        ensures
            final(self).wf(),
            final(self).capacity == old(self).capacity,
            old(self).trades().len() < old(self).capacity ==> (r is Ok && final(self).trades()
                == old(self).trades().push(t@)),
            old(self).trades().len() >= old(self).capacity ==> (r matches Err(back) && back@ == t@
                && final(self).trades() == old(self).trades()),
    {
        if self.items.len() < self.capacity {
            self.items.push(t);
            proof {
                assert(self.trades() =~= old(self).trades().push(t@));
            }
            Ok(())
        } else {
            Err(t)
        }
    }

    /// Take the oldest trade, if any.
    pub fn take_front(&mut self) -> (r: Option<TradeRecord>)
        requires
            old(self).wf(),
        ensures
            final(self).wf(),
            final(self).capacity == old(self).capacity,
            old(self).trades().len() == 0 ==> (r is None && final(self).trades() == old(
                self,
            ).trades()),
            old(self).trades().len() > 0 ==> (r matches Some(t) && t@ == old(self).trades()[0]
                && t@.wf() && final(self).trades() == old(self).trades().drop_first()),
    {
        if self.items.len() == 0 {
            None
        } else {
            let t = self.items.remove(0);
            proof {
                assert(self.trades() =~= old(self).trades().drop_first());
            }
            Some(t)
        }
    }
}

} // verus!
