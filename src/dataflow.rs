//! A dataflow: the operators a worker built together, and its teardown.
use vstd::prelude::*;
use crate::order::Product;
use crate::change_batch::{ChangeBatch, all_wf, replace_at};
use crate::operator::{Operator, same_frame, keeps_inputs, keeps_produced};

verus! {

/// The operators of one dataflow on one worker.
pub struct Dataflow {
    id: usize,
    operators: Vec<Operator>,
    dropped: bool,
}

/// `b` is `a` with every live capability given up, and `r` holds the
/// capability changes that this makes.
pub open spec fn retracted(a: Operator, b: Operator, r: Seq<ChangeBatch>) -> bool {
    &&& b.wf()
    &&& same_frame(a, b)
    &&& keeps_inputs(a, b)
    &&& keeps_produced(a, b)
    &&& forall|o: int, t: Product| 0 <= o < a.outputs() ==> #[trigger] b.held_count(o, t) == 0
        && b.internal_count(o, t) == a.internal_count(o, t)
    &&& r.len() == a.outputs()
    &&& all_wf(r)
    &&& forall|o: int, t: Product| 0 <= o < a.outputs() ==> #[trigger] r[o].count(t) == -a.held_count(o, t)
}

/// What dropping dataflow `a` makes of it (`b`) and hands back (`r`): a
/// dataflow already dropped is left as it is and nothing is handed back;
/// otherwise every operator gives up its capabilities.
pub open spec fn dropped_from(a: Dataflow, b: Dataflow, r: Seq<Vec<ChangeBatch>>) -> bool {
    if a.spec_dropped() {
        b == a && r.len() == 0
    } else {
        &&& b.spec_dropped()
        &&& b.spec_id() == a.spec_id()
        &&& b.spec_operators().len() == a.spec_operators().len()
        &&& r.len() == a.spec_operators().len()
        &&& forall|i: int| 0 <= i < r.len() ==> retracted(a.spec_operators()[i], #[trigger] b.spec_operators()[i], r[i]@)
    }
}

impl Dataflow {
    pub closed spec fn spec_id(&self) -> usize {
        self.id
    }

    pub closed spec fn spec_dropped(&self) -> bool {
        self.dropped
    }

    pub closed spec fn spec_operators(&self) -> Seq<Operator> {
        self.operators@
    }

    pub open spec fn wf(&self) -> bool {
        forall|i: int| 0 <= i < self.spec_operators().len() ==> (#[trigger] self.spec_operators()[i]).wf()
    }

    /// A dataflow with no operators yet.
    pub fn new(id: usize) -> (r: Dataflow)
        ensures
            r.wf(),
            r.spec_id() == id,
            !r.spec_dropped(),
            r.spec_operators().len() == 0,
    {
        Dataflow { id, operators: Vec::new(), dropped: false }
    }

    /// The dataflow's identifier.
    pub fn id(&self) -> (r: usize)
        ensures
            r == self.spec_id(),
    {
        self.id
    }

    /// Whether the dataflow was dropped.
    pub fn is_dropped(&self) -> (r: bool)
        ensures
            r == self.spec_dropped(),
    {
        self.dropped
    }

    /// Adds a built operator.
    pub fn add_operator(&mut self, op: Operator)
        requires
            old(self).wf(),
            op.wf(),
        ensures
            final(self).wf(),
            final(self).spec_operators() == old(self).spec_operators().push(op),
            final(self).spec_id() == old(self).spec_id(),
            final(self).spec_dropped() == old(self).spec_dropped(),
    {
        self.operators.push(op);
        proof {
            assert forall|i: int| 0 <= i < self.spec_operators().len() implies (#[trigger] self.spec_operators()[i]).wf() by {
                if i < old(self).spec_operators().len() {
                    assert(self.spec_operators()[i] == old(self).spec_operators()[i]);
                }
            }
        }
    }

    /// The operators, in the order they were added.
    pub fn operators(&self) -> (r: &Vec<Operator>)
        ensures
            r@ == self.spec_operators(),
    {
        &self.operators
    }

    /// Whether no operator holds a live capability.
    pub fn holds_no_capabilities(&self) -> (r: bool)
        requires
            self.wf(),
        ensures
            r == forall|i: int, o: int, t: Product| 0 <= i < self.spec_operators().len() && 0 <= o
                < self.spec_operators()[i].outputs() ==> #[trigger] self.spec_operators()[i].held_count(o, t) == 0,
    {
        let mut k: usize = 0;
        while k < self.operators.len()
            invariant
                self.wf(),
                0 <= k <= self.operators@.len(),
                forall|i: int, o: int, t: Product| 0 <= i < k && 0 <= o < self.spec_operators()[i].outputs()
                    ==> #[trigger] self.spec_operators()[i].held_count(o, t) == 0,
            decreases self.operators@.len() - k,
        {
            if !self.operators[k].holds_nothing() {
                return false;
            }
            k = k + 1;
        }
        true
    }

    /// Cancels the dataflow: every operator gives up its live capabilities,
    /// and the capability changes this makes are handed back, one vector of
    /// batches per operator, to be published. A dataflow already dropped is
    /// left alone.
    pub fn drop_dataflow(&mut self) -> (r: Vec<Vec<ChangeBatch>>)
        requires
            old(self).wf(),
        ensures
            final(self).wf(),
            dropped_from(*old(self), *final(self), r@),
    {
        if self.dropped {
            return Vec::new();
        }
        let mut r: Vec<Vec<ChangeBatch>> = Vec::new();
        let mut k: usize = 0;
        while k < self.operators.len()
            invariant
                !old(self).dropped,
                self.wf(),
                !self.dropped,
                self.id == old(self).id,
                0 <= k <= self.operators@.len(),
                self.operators@.len() == old(self).operators@.len(),
                forall|i: int| k <= i < self.operators@.len() ==> #[trigger] self.operators@[i] == old(self).operators@[i],
                r@.len() == k,
                forall|i: int| 0 <= i < k ==> retracted(old(self).operators@[i], #[trigger] self.operators@[i], r@[i]@),
            decreases self.operators@.len() - k,
        {
            assert(self.spec_operators()[k as int].wf());
            let ghost before = self.operators@;
            let mut op = replace_at(&mut self.operators, k, Operator::empty());
            let changes = op.retract_all();
            replace_at(&mut self.operators, k, op);
            proof {
                assert(self.operators@ == before.update(k as int, op));
                assert forall|i: int| 0 <= i < self.spec_operators().len() implies (#[trigger] self.spec_operators()[i]).wf() by {
                    if i != k {
                        assert(self.spec_operators()[i] == before[i]);
                        assert(before[i].wf());
                    }
                }
            }
            r.push(changes);
            k = k + 1;
        }
        self.dropped = true;
        r
    }
}

/// Dropping a dataflow twice does no more than dropping it once: the second
/// drop leaves the dataflow as the first left it and hands back nothing.
pub proof fn lemma_drop_idempotent(
    a: Dataflow,
    b: Dataflow,
    first: Seq<Vec<ChangeBatch>>,
    c: Dataflow,
    second: Seq<Vec<ChangeBatch>>,
)
    requires
        dropped_from(a, b, first),
        dropped_from(b, c, second),
    ensures
        c == b,
        second.len() == 0,
        b.spec_dropped(),
{
}

} // verus!
