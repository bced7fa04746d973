//! A channel between two operators on one worker, with counters of the
//! records pushed into it and pulled out of it at each timestamp.
use vstd::prelude::*;
use crate::order::Product;
use crate::change_batch::ChangeBatch;

verus! {

/// The records that batches in `q` hold at `t`.
pub open spec fn pending_of<D>(q: Seq<(Product, Vec<D>)>, t: Product) -> int
    decreases q.len(),
{
    if q.len() == 0 {
        0
    } else {
        pending_of(q.drop_last(), t) + if q.last().0 == t { q.last().1@.len() as int } else { 0 }
    }
}

proof fn lemma_pending_front<D>(q: Seq<(Product, Vec<D>)>, t: Product)
    requires
        q.len() > 0,
    ensures
        pending_of(q, t) == pending_of(q.subrange(1, q.len() as int), t) + if q[0].0 == t {
            q[0].1@.len() as int
        } else {
            0
        },
    decreases q.len(),
{
    if q.len() > 1 {
        lemma_pending_front(q.drop_last(), t);
        assert(q.drop_last().subrange(1, q.len() - 1) =~= q.subrange(1, q.len() as int).drop_last());
    } else {
        assert(q.subrange(1, q.len() as int) =~= Seq::<(Product, Vec<D>)>::empty());
        assert(q.drop_last() =~= Seq::<(Product, Vec<D>)>::empty());
    }
}

proof fn lemma_pending_nonnegative<D>(q: Seq<(Product, Vec<D>)>, t: Product)
    ensures
        pending_of(q, t) >= 0,
    decreases q.len(),
{
    if q.len() > 0 {
        lemma_pending_nonnegative(q.drop_last(), t);
    }
}

/// Batches of records in flight, in the order they were pushed.
pub struct Channel<D> {
    queue: Vec<(Product, Vec<D>)>,
    pushed: ChangeBatch,
    pulled: ChangeBatch,
}

impl<D> Channel<D> {
    /// Records pushed at `t`.
    pub closed spec fn pushed(&self, t: Product) -> int {
        self.pushed.count(t)
    }

    /// Records pulled at `t`.
    pub closed spec fn pulled(&self, t: Product) -> int {
        self.pulled.count(t)
    }

    /// Records at `t` still in flight.
    pub closed spec fn pending(&self, t: Product) -> int {
        pending_of(self.queue@, t)
    }

    /// The batches in flight, front first.
    pub closed spec fn in_flight(&self) -> Seq<(Product, Vec<D>)> {
        self.queue@
    }

    pub closed spec fn wf(&self) -> bool {
        &&& self.pushed.wf()
        &&& self.pulled.wf()
        &&& forall|t: Product| #[trigger] self.pushed.count(t) == self.pulled.count(t) + pending_of(self.queue@, t)
        &&& forall|t: Product| #[trigger] self.pulled.count(t) >= 0
    }

    /// An empty channel.
    pub fn new() -> (r: Channel<D>)
        ensures
            r.wf(),
            r.in_flight().len() == 0,
            forall|t: Product| #[trigger] r.pushed(t) == 0 && r.pulled(t) == 0,
    {
        Channel { queue: Vec::new(), pushed: ChangeBatch::new(), pulled: ChangeBatch::new() }
    }

    /// The records pushed at `t` so far.
    pub fn pushed_count(&self, t: &Product) -> (r: i64)
        requires
            self.wf(),
        ensures
            r == self.pushed(*t),
    {
        self.pushed.get(t)
    }

    /// The records pulled at `t` so far.
    pub fn pulled_count(&self, t: &Product) -> (r: i64)
        requires
            self.wf(),
        ensures
            r == self.pulled(*t),
    {
        self.pulled.get(t)
    }

    /// Sends a batch of records at `time`; refused (and handed back) where
    /// the count of records pushed at `time` would leave the range of `i64`.
    pub fn push(&mut self, time: Product, batch: Vec<D>) -> (r: Result<(), Vec<D>>)
        requires
            old(self).wf(),
        ensures
            final(self).wf(),
            r is Err <==> old(self).pushed(time) + batch@.len() > i64::MAX,
            r is Err ==> *final(self) == *old(self) && r->Err_0 == batch,
            r is Ok ==> final(self).in_flight() == old(self).in_flight().push((time, batch)),
            r is Ok ==> final(self).pushed(time) == old(self).pushed(time) + batch@.len(),
            forall|t: Product| #[trigger] final(self).pulled(t) == old(self).pulled(t),
            forall|t: Product| t != time ==> #[trigger] final(self).pushed(t) == old(self).pushed(t),
    {
        let n = batch.len();
        let before = self.pushed.get(&time);
        proof {
            assert(self.pushed.count(time) == self.pulled.count(time) + pending_of(self.queue@, time));
            assert(self.pulled.count(time) >= 0);
            lemma_pending_nonnegative(self.queue@, time);
        }
        if n as u64 > (i64::MAX - before) as u64 {
            return Err(batch);
        }
        proof {
            self.pushed.lemma_count_range(time);
        }
        self.pushed.update(time, n as i64);
        let ghost q = self.queue@;
        self.queue.push((time, batch));
        proof {
            assert(self.queue@.drop_last() =~= q);
            assert forall|t: Product| #[trigger] self.pushed.count(t) == self.pulled.count(t) + pending_of(self.queue@, t) by {
                assert(old(self).pushed.count(t) == old(self).pulled.count(t) + pending_of(q, t));
            }
        }
        Ok(())
    }

    /// Receives the oldest batch in flight, if any.
    pub fn pull(&mut self) -> (r: Option<(Product, Vec<D>)>)
        requires
            old(self).wf(),
        ensures
            final(self).wf(),
            old(self).in_flight().len() == 0 ==> r is None && *final(self) == *old(self),
            old(self).in_flight().len() > 0 ==> r == Some(old(self).in_flight()[0])
                && final(self).in_flight() == old(self).in_flight().subrange(1, old(self).in_flight().len() as int)
                && final(self).pulled(r->Some_0.0) == old(self).pulled(r->Some_0.0) + r->Some_0.1@.len(),
            forall|t: Product| #[trigger] final(self).pushed(t) == old(self).pushed(t),
            forall|t: Product| (r is None || t != r->Some_0.0) ==> #[trigger] final(self).pulled(t) == old(self).pulled(t),
    {
        if self.queue.len() == 0 {
            return None;
        }
        let ghost q = self.queue@;
        let (time, batch) = self.queue.remove(0);
        proof {
            assert(self.queue@ =~= q.subrange(1, q.len() as int));
            assert forall|t: Product| #[trigger] pending_of(q, t) == pending_of(self.queue@, t) + if q[0].0 == t {
                q[0].1@.len() as int
            } else {
                0
            } by {
                lemma_pending_front(q, t);
            }
            lemma_pending_nonnegative(self.queue@, time);
            self.pushed.lemma_count_range(time);
            self.pulled.lemma_count_range(time);
            assert(self.pushed.count(time) == self.pulled.count(time) + pending_of(q, time));
            assert(self.pulled.count(time) + batch@.len() <= self.pushed.count(time));
        }
        self.pulled.update(time, batch.len() as i64);
        proof {
            assert forall|t: Product| #[trigger] self.pushed.count(t) == self.pulled.count(t) + pending_of(self.queue@, t) by {
                assert(old(self).pushed.count(t) == old(self).pulled.count(t) + pending_of(q, t));
            }
            assert forall|t: Product| #[trigger] self.pulled.count(t) >= 0 by {
                assert(old(self).pulled.count(t) >= 0);
            }
        }
        Some((time, batch))
    }
}

/// Conservation: at every timestamp, the records pushed into a channel are
/// those pulled out of it plus those still in flight, of which there are
/// never fewer than none.
pub proof fn lemma_channel_conserves<D>(c: &Channel<D>, t: Product)
    requires
        c.wf(),
    ensures
        c.pushed(t) == c.pulled(t) + c.pending(t),
        c.pending(t) >= 0,
        c.pushed(t) >= c.pulled(t),
{
    lemma_pending_nonnegative(c.in_flight(), t);
}

} // verus!
