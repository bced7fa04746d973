//! A built operator: its input frontiers, its capabilities, and the counts
//! of records it consumed and produced, which it hands to the scheduler.
use vstd::prelude::*;
use crate::order::{Product, le};
use crate::antichain::Antichain;
use crate::change_batch::{ChangeBatch, all_wf, drain_each, replace_at};
use crate::mutable_antichain::{MutableAntichain, ind, lemma_frontier_advances};
use crate::builder::{Edge, OperatorShape, table_entry};

verus! {

/// The right to produce records on one output of one operator at a
/// timestamp and later ones. It is handed out by the operator and spent
/// through it.
pub struct Capability {
    operator: usize,
    port: usize,
    time: Product,
}

impl Capability {
    pub closed spec fn spec_operator(&self) -> usize {
        self.operator
    }

    pub closed spec fn spec_port(&self) -> usize {
        self.port
    }

    pub closed spec fn spec_time(&self) -> Product {
        self.time
    }

    /// The timestamp the capability allows.
    pub fn time(&self) -> (r: Product)
        ensures
            r == self.spec_time(),
    {
        self.time
    }

    /// The output port the capability belongs to.
    pub fn port(&self) -> (r: usize)
        ensures
            r == self.spec_port(),
    {
        self.port
    }

    /// The index of the operator the capability belongs to.
    pub fn operator(&self) -> (r: usize)
        ensures
            r == self.spec_operator(),
    {
        self.operator
    }
}

/// Why an operator refused a capability or a count.
#[derive(Clone, Copy, PartialEq, Eq, Structural, Debug)]
pub enum CapabilityError {
    /// The capability is not one the operator holds.
    NotHeld,
    /// The new timestamp is not at or after the capability's.
    NotLater,
    /// A count would leave the range of `i64`.
    Overflow,
}

/// The progress an operator exchanges with the scheduler in one step:
/// changes to each input frontier coming in, and counts of consumed records,
/// capability changes and produced records going out.
pub struct SharedProgress {
    pub frontiers: Vec<ChangeBatch>,
    pub consumeds: Vec<ChangeBatch>,
    pub internals: Vec<ChangeBatch>,
    pub produceds: Vec<ChangeBatch>,
}

fn empty_batches(n: usize) -> (r: Vec<ChangeBatch>)
    ensures
        r@.len() == n,
        all_wf(r@),
        forall|i: int| 0 <= i < n ==> (#[trigger] r@[i]).is_zero(),
{
    let mut r: Vec<ChangeBatch> = Vec::new();
    let mut k: usize = 0;
    while k < n
        invariant
            0 <= k <= n,
            r@.len() == k,
            all_wf(r@),
            forall|i: int| 0 <= i < k ==> (#[trigger] r@[i]).is_zero(),
        decreases n - k,
    {
        r.push(ChangeBatch::new());
        k = k + 1;
    }
    r
}

impl SharedProgress {
    /// The shape of progress for `inputs` inputs and `outputs` outputs.
    pub open spec fn fits(&self, inputs: nat, outputs: nat) -> bool {
        &&& self.frontiers@.len() == inputs
        &&& self.consumeds@.len() == inputs
        &&& self.internals@.len() == outputs
        &&& self.produceds@.len() == outputs
        &&& all_wf(self.frontiers@)
        &&& all_wf(self.consumeds@)
        &&& all_wf(self.internals@)
        &&& all_wf(self.produceds@)
    }

    /// Empty progress for an operator with the given numbers of ports.
    pub fn new(inputs: usize, outputs: usize) -> (r: SharedProgress)
        ensures
            r.fits(inputs as nat, outputs as nat),
            forall|i: int| 0 <= i < inputs ==> (#[trigger] r.frontiers@[i]).is_zero(),
            forall|i: int| 0 <= i < inputs ==> (#[trigger] r.consumeds@[i]).is_zero(),
            forall|i: int| 0 <= i < outputs ==> (#[trigger] r.internals@[i]).is_zero(),
            forall|i: int| 0 <= i < outputs ==> (#[trigger] r.produceds@[i]).is_zero(),
    {
        SharedProgress {
            frontiers: empty_batches(inputs),
            consumeds: empty_batches(inputs),
            internals: empty_batches(outputs),
            produceds: empty_batches(outputs),
        }
    }
}

/// An operator ready to run. Its logic sits with the caller; the operator
/// keeps what the scheduler needs to know of it.
pub struct Operator {
    shape: OperatorShape,
    index: usize,
    global: usize,
    address: Vec<usize>,
    connectivity: Vec<(usize, usize, Antichain)>,
    edges: Vec<Edge>,
    frontier: Vec<MutableAntichain>,
    consumed: Vec<ChangeBatch>,
    produced: Vec<ChangeBatch>,
    internal: Vec<ChangeBatch>,
    held: Vec<ChangeBatch>,
    reschedule: bool,
}

impl Operator {
    pub closed spec fn spec_shape(&self) -> &OperatorShape {
        &self.shape
    }

    pub closed spec fn spec_index(&self) -> usize {
        self.index
    }

    pub closed spec fn spec_global(&self) -> usize {
        self.global
    }

    pub closed spec fn spec_address(&self) -> Seq<usize> {
        self.address@
    }

    pub closed spec fn spec_edges(&self) -> Seq<Edge> {
        self.edges@
    }

    /// Whether the operator's own answer decides if it runs again.
    pub closed spec fn spec_reschedule(&self) -> bool {
        self.reschedule
    }

    pub open spec fn inputs(&self) -> nat {
        self.spec_shape().spec_inputs()
    }

    pub open spec fn outputs(&self) -> nat {
        self.spec_shape().spec_outputs()
    }

    /// The summaries from input `i` to output `o`.
    pub closed spec fn summary(&self, i: usize, o: usize) -> Seq<Product> {
        table_entry(self.connectivity@, i, o)
    }

    /// The count of `t` in the multiset behind the frontier of input `i`.
    pub closed spec fn frontier_count(&self, i: int, t: Product) -> int {
        self.frontier@[i].count(t)
    }

    /// Whether `t` stands in the frontier of input `i`.
    pub closed spec fn in_frontier(&self, i: int, t: Product) -> bool {
        self.frontier@[i].in_frontier(t)
    }

    /// Records consumed at input `i` and time `t`, not yet published.
    pub closed spec fn consumed_count(&self, i: int, t: Product) -> int {
        self.consumed@[i].count(t)
    }

    /// Records produced at output `o` and time `t`, not yet published.
    pub closed spec fn produced_count(&self, o: int, t: Product) -> int {
        self.produced@[o].count(t)
    }

    /// Capability changes at output `o` and time `t`, not yet published.
    pub closed spec fn internal_count(&self, o: int, t: Product) -> int {
        self.internal@[o].count(t)
    }

    /// Live capabilities at output `o` and time `t`.
    pub closed spec fn held_count(&self, o: int, t: Product) -> int {
        self.held@[o].count(t)
    }

    pub closed spec fn wf(&self) -> bool {
        &&& self.frontier@.len() == self.shape.spec_inputs()
        &&& self.consumed@.len() == self.shape.spec_inputs()
        &&& self.produced@.len() == self.shape.spec_outputs()
        &&& self.internal@.len() == self.shape.spec_outputs()
        &&& self.held@.len() == self.shape.spec_outputs()
        &&& forall|i: int| 0 <= i < self.frontier@.len() ==> (#[trigger] self.frontier@[i]).wf()
        &&& all_wf(self.consumed@)
        &&& all_wf(self.produced@)
        &&& all_wf(self.internal@)
        &&& all_wf(self.held@)
        &&& forall|o: int, t: Product| 0 <= o < self.held@.len() ==> #[trigger] self.held@[o].count(t) >= 0
    }

    /// Whether `cap` is a capability the operator holds.
    pub open spec fn holds(&self, cap: &Capability) -> bool {
        &&& cap.spec_operator() == self.spec_index()
        &&& cap.spec_port() < self.outputs()
        &&& self.held_count(cap.spec_port() as int, cap.spec_time()) > 0
    }

    /// Whether `cap` is a capability the operator holds.
    pub fn holds_capability(&self, cap: &Capability) -> (r: bool)
        requires
            self.wf(),
        ensures
            r == self.holds(cap),
    {
        cap.operator == self.index && cap.port < self.held.len() && self.held[cap.port].get(&cap.time) > 0
    }

    /// A new capability at `t`, on the output and operator of `cap`, which
    /// stays live. `t` must be at or after the capability's timestamp.
    pub fn delayed(&mut self, cap: &Capability, t: Product) -> (r: Result<Capability, CapabilityError>)
        requires
            old(self).wf(),
        ensures
            final(self).wf(),
            same_frame(*old(self), *final(self)),
            r == Err::<Capability, _>(CapabilityError::NotHeld) <==> !old(self).holds(cap),
            r == Err::<Capability, _>(CapabilityError::NotLater) <==> old(self).holds(cap) && !le(cap.spec_time(), t),
            r == Err::<Capability, _>(CapabilityError::Overflow) <==> old(self).holds(cap) && le(cap.spec_time(), t)
                && (old(self).held_count(cap.spec_port() as int, t) == i64::MAX
                    || old(self).internal_count(cap.spec_port() as int, t) == i64::MAX),
            r is Ok <==> old(self).holds(cap) && le(cap.spec_time(), t)
                && old(self).held_count(cap.spec_port() as int, t) < i64::MAX
                && old(self).internal_count(cap.spec_port() as int, t) < i64::MAX,
            r is Ok ==> {
                let c = r->Ok_0;
                &&& c.spec_operator() == cap.spec_operator()
                &&& c.spec_port() == cap.spec_port()
                &&& c.spec_time() == t
                &&& counts_moved(*old(self), *final(self), cap.spec_port() as int, t, 1)
            },
            r is Err ==> *final(self) == *old(self),
    {
        if !self.holds_capability(cap) {
            return Err(CapabilityError::NotHeld);
        }
        if !cap.time.less_equal(&t) {
            return Err(CapabilityError::NotLater);
        }
        let port = cap.port;
        if self.held[port].get(&t) == i64::MAX || self.internal[port].get(&t) == i64::MAX {
            return Err(CapabilityError::Overflow);
        }
        self.shift(port, t, 1);
        Ok(Capability { operator: cap.operator, port, time: t })
    }

    /// Gives up `cap`.
    pub fn drop_capability(&mut self, cap: Capability) -> (r: Result<(), CapabilityError>)
        requires
            old(self).wf(),
        ensures
            final(self).wf(),
            same_frame(*old(self), *final(self)),
            r == Err::<(), _>(CapabilityError::NotHeld) <==> !old(self).holds(&cap),
            r == Err::<(), _>(CapabilityError::Overflow) <==> old(self).holds(&cap)
                && old(self).internal_count(cap.spec_port() as int, cap.spec_time()) == i64::MIN,
            r is Ok <==> old(self).holds(&cap)
                && old(self).internal_count(cap.spec_port() as int, cap.spec_time()) > i64::MIN,
            r is Ok ==> counts_moved(*old(self), *final(self), cap.spec_port() as int, cap.spec_time(), -1),
            r is Err ==> *final(self) == *old(self),
    {
        if !self.holds_capability(&cap) {
            return Err(CapabilityError::NotHeld);
        }
        let port = cap.port;
        if self.internal[port].get(&cap.time) == i64::MIN {
            return Err(CapabilityError::Overflow);
        }
        self.shift(port, cap.time, -1);
        Ok(())
    }

    /// Records `count` live-capability changes at `(port, t)`, in both the
    /// live count and the changes still to publish.
    fn shift(&mut self, port: usize, t: Product, delta: i64)
        requires
            old(self).wf(),
            port < old(self).outputs(),
            delta == 1 || delta == -1,
            delta == 1 ==> old(self).held_count(port as int, t) < i64::MAX && old(self).internal_count(port as int, t) < i64::MAX,
            delta == -1 ==> old(self).held_count(port as int, t) > 0 && old(self).internal_count(port as int, t) > i64::MIN,
        ensures
            final(self).wf(),
            same_frame(*old(self), *final(self)),
            counts_moved(*old(self), *final(self), port as int, t, delta as int),
    {
        let mut h = replace_at(&mut self.held, port, ChangeBatch::new());
        proof {
            h.lemma_count_range(t);
            old(self).internal@[port as int].lemma_count_range(t);
        }
        h.update(t, delta);
        replace_at(&mut self.held, port, h);
        let mut b = replace_at(&mut self.internal, port, ChangeBatch::new());
        b.update(t, delta);
        replace_at(&mut self.internal, port, b);
        proof {
            assert forall|o: int, u: Product| 0 <= o < self.outputs() && (o != port || u != t) implies
                #[trigger] self.held_count(o, u) == old(self).held_count(o, u)
                && self.internal_count(o, u) == old(self).internal_count(o, u) by {
            }
        }
    }

    /// Records `count` records produced on `output` at the timestamp of
    /// `cap`, which must belong to that output: using a capability on
    /// another output is a bug of the caller, not a condition. The records
    /// are refused where the operator does not hold `cap`.
    pub fn give(&mut self, output: usize, cap: &Capability, count: u32) -> (r: Result<(), CapabilityError>)
        requires
            old(self).wf(),
            cap.spec_port() == output,
        ensures
            final(self).wf(),
            same_frame(*old(self), *final(self)),
            r == Err::<(), _>(CapabilityError::NotHeld) <==> !old(self).holds(cap),
            r == Err::<(), _>(CapabilityError::Overflow) <==> old(self).holds(cap) && cap.spec_port() == output
                && old(self).produced_count(output as int, cap.spec_time()) + count > i64::MAX,
            r is Ok <==> old(self).holds(cap) && cap.spec_port() == output
                && old(self).produced_count(output as int, cap.spec_time()) + count <= i64::MAX,
            r is Ok ==> final(self).produced_count(output as int, cap.spec_time())
                == old(self).produced_count(output as int, cap.spec_time()) + count,
            forall|o: int, t: Product| 0 <= o < old(self).outputs() && !(r is Ok && o == output && t == cap.spec_time())
                ==> #[trigger] final(self).produced_count(o, t) == old(self).produced_count(o, t),
            keeps_capabilities(*old(self), *final(self)),
            keeps_inputs(*old(self), *final(self)),
    {
        if !self.holds_capability(cap) {
            return Err(CapabilityError::NotHeld);
        }
        let c = count as i64;
        if self.produced[output].get(&cap.time) > i64::MAX - c {
            return Err(CapabilityError::Overflow);
        }
        let mut b = replace_at(&mut self.produced, output, ChangeBatch::new());
        b.update(cap.time, c);
        replace_at(&mut self.produced, output, b);
        Ok(())
    }

    /// Records `count` records consumed at `input` and timestamp `t`.
    pub fn consume(&mut self, input: usize, t: Product, count: u32) -> (r: Result<(), CapabilityError>)
        requires
            old(self).wf(),
            input < old(self).inputs(),
        ensures
            final(self).wf(),
            same_frame(*old(self), *final(self)),
            r == Err::<(), _>(CapabilityError::Overflow) <==> old(self).consumed_count(input as int, t) + count > i64::MAX,
            r is Ok <==> old(self).consumed_count(input as int, t) + count <= i64::MAX,
            r is Ok ==> final(self).consumed_count(input as int, t) == old(self).consumed_count(input as int, t) + count,
            forall|i: int, u: Product| 0 <= i < old(self).inputs() && !(r is Ok && i == input && u == t)
                ==> #[trigger] final(self).consumed_count(i, u) == old(self).consumed_count(i, u),
            keeps_capabilities(*old(self), *final(self)),
            keeps_produced(*old(self), *final(self)),
            forall|i: int, u: Product| 0 <= i < old(self).inputs() ==> #[trigger] final(self).frontier_count(i, u)
                == old(self).frontier_count(i, u),
    {
        let c = count as i64;
        if self.consumed[input].get(&t) > i64::MAX - c {
            return Err(CapabilityError::Overflow);
        }
        let mut b = replace_at(&mut self.consumed, input, ChangeBatch::new());
        b.update(t, c);
        replace_at(&mut self.consumed, input, b);
        Ok(())
    }

    /// Takes in the frontier changes that the scheduler left in `progress`,
    /// emptying them there. Returns whether any input frontier moved.
    pub fn refresh_frontiers(&mut self, progress: &mut SharedProgress) -> (r: bool)
        requires
            old(self).wf(),
            old(progress).fits(old(self).inputs(), old(self).outputs()),
            forall|i: int, t: Product| 0 <= i < old(self).inputs() ==> i64::MIN <= #[trigger] old(self).frontier_count(i, t)
                + old(progress).frontiers@[i].count(t) <= i64::MAX,
        ensures
            final(self).wf(),
            same_frame(*old(self), *final(self)),
            keeps_capabilities(*old(self), *final(self)),
            keeps_produced(*old(self), *final(self)),
            forall|i: int, t: Product| 0 <= i < old(self).inputs() ==> #[trigger] final(self).consumed_count(i, t)
                == old(self).consumed_count(i, t),
            forall|i: int, t: Product| 0 <= i < old(self).inputs() ==> #[trigger] final(self).frontier_count(i, t)
                == old(self).frontier_count(i, t) + old(progress).frontiers@[i].count(t),
            final(progress).fits(old(self).inputs(), old(self).outputs()),
            forall|i: int| 0 <= i < old(self).inputs() ==> (#[trigger] final(progress).frontiers@[i]).is_zero(),
            final(progress).consumeds == old(progress).consumeds,
            final(progress).internals == old(progress).internals,
            final(progress).produceds == old(progress).produceds,
            r == exists|i: int, t: Product| 0 <= i < old(self).inputs() && #[trigger] final(self).in_frontier(i, t)
                != old(self).in_frontier(i, t),
            forall|i: int| 0 <= i < old(self).inputs() && advancing(*old(self), old(progress).frontiers@[i], i)
                ==> #[trigger] not_retreated(*old(self), *final(self), i),
    {
        let mut changed = false;
        let mut k: usize = 0;
        while k < self.frontier.len()
            invariant
                self.wf(),
                0 <= k <= self.frontier@.len(),
                self.frontier@.len() == old(self).frontier@.len(),
                same_frame(*old(self), *self),
                self.held == old(self).held,
                self.internal == old(self).internal,
                self.produced == old(self).produced,
                self.consumed == old(self).consumed,
                progress.fits(old(self).inputs(), old(self).outputs()),
                progress.consumeds == old(progress).consumeds,
                progress.internals == old(progress).internals,
                progress.produceds == old(progress).produceds,
                forall|i: int, t: Product| 0 <= i < old(self).inputs() ==> i64::MIN <= #[trigger] old(self).frontier_count(i, t)
                    + old(progress).frontiers@[i].count(t) <= i64::MAX,
                forall|i: int| k <= i < self.frontier@.len() ==> #[trigger] self.frontier@[i] == old(self).frontier@[i],
                forall|i: int| k <= i < self.frontier@.len() ==> #[trigger] progress.frontiers@[i] == old(progress).frontiers@[i],
                forall|i: int| 0 <= i < k ==> (#[trigger] progress.frontiers@[i]).is_zero(),
                forall|i: int, t: Product| 0 <= i < k ==> #[trigger] self.frontier_count(i, t)
                    == old(self).frontier_count(i, t) + old(progress).frontiers@[i].count(t),
                changed == exists|i: int, t: Product| 0 <= i < k && #[trigger] self.in_frontier(i, t)
                    != old(self).in_frontier(i, t),
            decreases self.frontier@.len() - k,
        {
            let ghost s0 = *self;
            let mut f = replace_at(&mut self.frontier, k, MutableAntichain::new());
            let mut p = replace_at(&mut progress.frontiers, k, ChangeBatch::new());
            proof {
                assert forall|t: Product| i64::MIN <= #[trigger] f.count(t) + p.count(t) <= i64::MAX by {
                    assert(i64::MIN <= old(self).frontier_count(k as int, t) + old(progress).frontiers@[k as int].count(t) <= i64::MAX);
                }
            }
            let ghost f0 = f;
            let ghost p0 = p;
            assert(f0 == old(self).frontier@[k as int]);
            assert(p0 == old(progress).frontiers@[k as int]);
            let moves = f.update_iter(&p);
            p.clear();
            replace_at(&mut self.frontier, k, f);
            replace_at(&mut progress.frontiers, k, p);
            let moved = !moves.is_empty();
            proof {
                assert forall|i: int, t: Product| 0 <= i < k + 1 implies #[trigger] self.frontier_count(i, t)
                    == old(self).frontier_count(i, t) + old(progress).frontiers@[i].count(t) by {
                    if i == k {
                        assert(self.frontier@[i] == f);
                        assert(f.count(t) == f0.count(t) + p0.count(t));
                    } else {
                        assert(self.frontier@[i] == s0.frontier@[i]);
                        assert(s0.frontier_count(i, t) == old(self).frontier_count(i, t) + old(progress).frontiers@[i].count(t));
                    }
                }
                assert forall|i: int, t: Product| 0 <= i < k implies #[trigger] self.in_frontier(i, t) == s0.in_frontier(i, t) by {
                    assert(self.frontier@[i] == s0.frontier@[i]);
                }
                assert(f0 == old(self).frontier@[k as int]);
                let grown = exists|i: int, t: Product| 0 <= i < k + 1 && #[trigger] self.in_frontier(i, t)
                    != old(self).in_frontier(i, t);
                if grown {
                    let (i, t) = choose|i: int, t: Product| 0 <= i < k + 1 && #[trigger] self.in_frontier(i, t)
                        != old(self).in_frontier(i, t);
                    if i == k {
                        assert(self.frontier@[k as int] == f);
                        assert(moves.count(t) != 0);
                    } else {
                        assert(s0.in_frontier(i, t) != old(self).in_frontier(i, t));
                    }
                }
                if changed {
                    let (i, t) = choose|i: int, t: Product| 0 <= i < k && #[trigger] s0.in_frontier(i, t)
                        != old(self).in_frontier(i, t);
                    assert(self.in_frontier(i, t) != old(self).in_frontier(i, t));
                }
                if moved {
                    let t = choose|t: Product| moves.count(t) != 0;
                    assert(self.frontier@[k as int] == f);
                    assert(self.in_frontier(k as int, t) != old(self).in_frontier(k as int, t));
                }
            }
            changed = changed || moved;
            k = k + 1;
        }
        proof {
            assert(keeps_capabilities(*old(self), *self));
            assert(keeps_produced(*old(self), *self));
            assert forall|i: int| 0 <= i < old(self).inputs() && advancing(*old(self), old(progress).frontiers@[i], i)
                implies #[trigger] not_retreated(*old(self), *self, i) by {
                let before = old(self).frontier@[i];
                let after = self.frontier@[i];
                let upd = old(progress).frontiers@[i];
                assert forall|t: Product| #[trigger] after.count(t) == before.count(t) + upd.count(t) by {
                    assert(self.frontier_count(i, t) == old(self).frontier_count(i, t) + upd.count(t));
                }
                assert forall|t: Product| #[trigger] upd.count(t) > 0 implies exists|f: Product|
                    before.in_frontier(f) && le(f, t) by {
                    let f = choose|f: Product| old(self).in_frontier(i, f) && le(f, t);
                    assert(before.in_frontier(f));
                }
                lemma_frontier_advances(before, upd, after);
                assert forall|t: Product| #[trigger] self.in_frontier(i, t) implies exists|f: Product|
                    old(self).in_frontier(i, f) && le(f, t) by {
                    assert(after.in_frontier(t));
                    let f = choose|f: Product| before.in_frontier(f) && le(f, t);
                    assert(old(self).in_frontier(i, f));
                }
            }
        }
        changed
    }

    /// Moves the consumed counts, capability changes and produced counts
    /// gathered since the last call into `progress`, emptying them here.
    pub fn publish(&mut self, progress: &mut SharedProgress)
        requires
            old(self).wf(),
            old(progress).fits(old(self).inputs(), old(self).outputs()),
            forall|i: int, t: Product| 0 <= i < old(self).inputs() ==> i64::MIN <= #[trigger] old(progress).consumeds@[i].count(t)
                + old(self).consumed_count(i, t) <= i64::MAX,
            forall|o: int, t: Product| 0 <= o < old(self).outputs() ==> i64::MIN <= #[trigger] old(progress).internals@[o].count(t)
                + old(self).internal_count(o, t) <= i64::MAX,
            forall|o: int, t: Product| 0 <= o < old(self).outputs() ==> i64::MIN <= #[trigger] old(progress).produceds@[o].count(t)
                + old(self).produced_count(o, t) <= i64::MAX,
        ensures
            final(self).wf(),
            same_frame(*old(self), *final(self)),
            forall|i: int, t: Product| 0 <= i < old(self).inputs() ==> #[trigger] final(self).frontier_count(i, t)
                == old(self).frontier_count(i, t) && final(self).consumed_count(i, t) == 0,
            forall|o: int, t: Product| 0 <= o < old(self).outputs() ==> #[trigger] final(self).held_count(o, t)
                == old(self).held_count(o, t) && final(self).internal_count(o, t) == 0
                && final(self).produced_count(o, t) == 0,
            final(progress).fits(old(self).inputs(), old(self).outputs()),
            final(progress).frontiers == old(progress).frontiers,
            forall|i: int, t: Product| 0 <= i < old(self).inputs() ==> #[trigger] final(progress).consumeds@[i].count(t)
                == old(progress).consumeds@[i].count(t) + old(self).consumed_count(i, t),
            forall|o: int, t: Product| 0 <= o < old(self).outputs() ==> #[trigger] final(progress).internals@[o].count(t)
                == old(progress).internals@[o].count(t) + old(self).internal_count(o, t),
            forall|o: int, t: Product| 0 <= o < old(self).outputs() ==> #[trigger] final(progress).produceds@[o].count(t)
                == old(progress).produceds@[o].count(t) + old(self).produced_count(o, t),
    {
        drain_each(&mut self.consumed, &mut progress.consumeds);
        drain_each(&mut self.internal, &mut progress.internals);
        drain_each(&mut self.produced, &mut progress.produceds);
    }

    /// Whether the operator is to run again even with no new input, given
    /// what its logic answered.
    pub fn reschedule(&self, answer: bool) -> (r: bool)
        ensures
            r == (self.spec_reschedule() && answer),
    {
        self.reschedule && answer
    }

    /// The input frontiers.
    pub fn frontiers(&self) -> (r: &Vec<MutableAntichain>)
        requires
            self.wf(),
        ensures
            r@.len() == self.inputs(),
            forall|i: int| 0 <= i < self.inputs() ==> (#[trigger] r@[i]).wf(),
            forall|i: int, t: Product| 0 <= i < self.inputs() ==> #[trigger] r@[i].in_frontier(t) == self.in_frontier(i, t),
    {
        &self.frontier
    }

    /// The live capabilities at `(output, t)`.
    pub fn held(&self, output: usize, t: &Product) -> (r: i64)
        requires
            self.wf(),
            output < self.outputs(),
        ensures
            r == self.held_count(output as int, *t),
    {
        self.held[output].get(t)
    }

    /// The operator's index within its scope.
    pub fn index(&self) -> (r: usize)
        ensures
            r == self.spec_index(),
    {
        self.index
    }

    /// The operator's shape.
    pub fn shape(&self) -> (r: &OperatorShape)
        ensures
            r == self.spec_shape(),
    {
        &self.shape
    }

    /// Gives up every live capability. Returns, for each output, the
    /// capability changes that this makes, which are still to be published.
    pub fn retract_all(&mut self) -> (r: Vec<ChangeBatch>)
        requires
            old(self).wf(),
        ensures
            final(self).wf(),
            same_frame(*old(self), *final(self)),
            keeps_inputs(*old(self), *final(self)),
            keeps_produced(*old(self), *final(self)),
            forall|o: int, t: Product| 0 <= o < old(self).outputs() ==> #[trigger] final(self).held_count(o, t) == 0
                && final(self).internal_count(o, t) == old(self).internal_count(o, t),
            r@.len() == old(self).outputs(),
            all_wf(r@),
            forall|o: int, t: Product| 0 <= o < old(self).outputs() ==> #[trigger] r@[o].count(t)
                == -old(self).held_count(o, t),
    {
        let mut r: Vec<ChangeBatch> = Vec::new();
        let mut k: usize = 0;
        while k < self.held.len()
            invariant
                self.wf(),
                0 <= k <= self.held@.len(),
                same_frame(*old(self), *self),
                self.frontier == old(self).frontier,
                self.consumed == old(self).consumed,
                self.produced == old(self).produced,
                self.internal == old(self).internal,
                self.held@.len() == old(self).held@.len(),
                forall|o: int| k <= o < self.held@.len() ==> #[trigger] self.held@[o] == old(self).held@[o],
                forall|o: int, t: Product| 0 <= o < k ==> #[trigger] self.held@[o].count(t) == 0,
                r@.len() == k,
                all_wf(r@),
                forall|o: int, t: Product| 0 <= o < k ==> #[trigger] r@[o].count(t) == -old(self).held_count(o, t),
            decreases self.held@.len() - k,
        {
            let h = replace_at(&mut self.held, k, ChangeBatch::new());
            proof {
                assert forall|t: Product| #[trigger] h.count(t) > i64::MIN by {
                    assert(old(self).held@[k as int].count(t) >= 0);
                }
            }
            r.push(h.negated());
            proof {
                assert forall|o: int, t: Product| 0 <= o < self.held@.len() implies #[trigger] self.held@[o].count(t) >= 0 by {
                    if o > k {
                        assert(self.held@[o] == old(self).held@[o]);
                    }
                }
            }
            k = k + 1;
        }
        r
    }

    /// Whether no capability is live.
    pub fn holds_nothing(&self) -> (r: bool)
        requires
            self.wf(),
        ensures
            r == forall|o: int, t: Product| 0 <= o < self.outputs() ==> #[trigger] self.held_count(o, t) == 0,
    {
        let mut k: usize = 0;
        while k < self.held.len()
            invariant
                self.wf(),
                0 <= k <= self.held@.len(),
                forall|o: int, t: Product| 0 <= o < k ==> #[trigger] self.held_count(o, t) == 0,
            decreases self.held@.len() - k,
        {
            if !self.held[k].is_empty() {
                proof {
                    let t = choose|t: Product| self.held@[k as int].count(t) != 0;
                    assert(self.held_count(k as int, t) != 0);
                }
                return false;
            }
            k = k + 1;
        }
        true
    }

    /// An operator with no ports, standing in for one moved out.
    pub(crate) fn empty() -> (r: Operator)
        ensures
            r.wf(),
    {
        Operator {
            shape: OperatorShape::unnamed(),
            index: 0,
            global: 0,
            address: Vec::new(),
            connectivity: Vec::new(),
            edges: Vec::new(),
            frontier: Vec::new(),
            consumed: Vec::new(),
            produced: Vec::new(),
            internal: Vec::new(),
            held: Vec::new(),
            reschedule: false,
        }
    }

    /// Assembles an operator whose counts are all zero but for one live
    /// capability at the least timestamp on each output.
    pub(crate) fn assemble(
        shape: OperatorShape,
        index: usize,
        global: usize,
        address: Vec<usize>,
        connectivity: Vec<(usize, usize, Antichain)>,
        edges: Vec<Edge>,
        reschedule: bool,
    ) -> (r: (Operator, Vec<Capability>))
        ensures
            r.0.wf(),
            r.0.spec_shape() == shape,
            r.0.spec_index() == index,
            r.0.spec_global() == global,
            r.0.spec_address() == address@,
            r.0.spec_edges() == edges@,
            r.0.spec_reschedule() == reschedule,
            forall|i: usize, o: usize| #[trigger] r.0.summary(i, o) == table_entry(connectivity@, i, o),
            initial_state(r.0),
            initial_capabilities(r.1@, index, shape.spec_outputs()),
    {
        let inputs = shape.inputs();
        let outputs = shape.outputs();
        let mut frontier: Vec<MutableAntichain> = Vec::new();
        let mut k: usize = 0;
        while k < inputs
            invariant
                0 <= k <= inputs,
                frontier@.len() == k,
                forall|i: int| 0 <= i < k ==> (#[trigger] frontier@[i]).wf(),
                forall|i: int, t: Product| 0 <= i < k ==> #[trigger] frontier@[i].count(t) == 0,
            decreases inputs - k,
        {
            frontier.push(MutableAntichain::new());
            k = k + 1;
        }
        let mut held = empty_batches(outputs);
        let mut caps: Vec<Capability> = Vec::new();
        let mut o: usize = 0;
        while o < outputs
            invariant
                0 <= o <= outputs,
                held@.len() == outputs,
                all_wf(held@),
                caps@.len() == o,
                forall|j: int| 0 <= j < o ==> (#[trigger] caps@[j]).operator == index && caps@[j].port == j
                    && caps@[j].time == Product::spec_minimum(),
                forall|j: int, t: Product| 0 <= j < o ==> #[trigger] held@[j].count(t) == ind(t == Product::spec_minimum()),
                forall|j: int| o <= j < outputs ==> (#[trigger] held@[j]).is_zero(),
            decreases outputs - o,
        {
            let mut b = replace_at(&mut held, o, ChangeBatch::new());
            assert(b.count(Product::spec_minimum()) == 0);
            b.update(Product::minimum(), 1);
            replace_at(&mut held, o, b);
            caps.push(Capability { operator: index, port: o, time: Product::minimum() });
            o = o + 1;
        }
        let op = Operator {
            shape,
            index,
            global,
            address,
            connectivity,
            edges,
            frontier,
            consumed: empty_batches(inputs),
            produced: empty_batches(outputs),
            internal: empty_batches(outputs),
            held,
            reschedule,
        };
        (op, caps)
    }
}

/// No counts but one live capability at the least timestamp on each output.
pub open spec fn initial_state(op: Operator) -> bool {
    &&& forall|i: int, t: Product| 0 <= i < op.inputs() ==> #[trigger] op.frontier_count(i, t) == 0
    &&& forall|i: int, t: Product| 0 <= i < op.inputs() ==> #[trigger] op.consumed_count(i, t) == 0
    &&& forall|o: int, t: Product| 0 <= o < op.outputs() ==> #[trigger] op.produced_count(o, t) == 0
    &&& forall|o: int, t: Product| 0 <= o < op.outputs() ==> #[trigger] op.internal_count(o, t) == 0
    &&& forall|o: int, t: Product| 0 <= o < op.outputs() ==> #[trigger] op.held_count(o, t) == ind(
        t == Product::spec_minimum(),
    )
}

/// One capability for each output, in order, at the least timestamp.
pub open spec fn initial_capabilities(caps: Seq<Capability>, operator: usize, outputs: nat) -> bool {
    &&& caps.len() == outputs
    &&& forall|o: int| 0 <= o < outputs ==> (#[trigger] caps[o]).spec_operator() == operator
        && caps[o].spec_port() == o && caps[o].spec_time() == Product::spec_minimum()
}

/// The parts of an operator that running it leaves alone.
pub open spec fn same_frame(a: Operator, b: Operator) -> bool {
    &&& a.spec_shape() == b.spec_shape()
    &&& a.spec_index() == b.spec_index()
    &&& a.spec_global() == b.spec_global()
    &&& a.spec_address() == b.spec_address()
    &&& a.spec_edges() == b.spec_edges()
    &&& a.spec_reschedule() == b.spec_reschedule()
    &&& forall|i: usize, o: usize| #[trigger] a.summary(i, o) == b.summary(i, o)
}

/// `delta` live capabilities at `(port, t)`, in both the live count and the
/// changes still to publish; nothing else moved.
pub open spec fn counts_moved(a: Operator, b: Operator, port: int, t: Product, delta: int) -> bool {
    &&& b.held_count(port, t) == a.held_count(port, t) + delta
    &&& b.internal_count(port, t) == a.internal_count(port, t) + delta
    &&& forall|o: int, u: Product| 0 <= o < a.outputs() && (o != port || u != t) ==>
        #[trigger] b.held_count(o, u) == a.held_count(o, u) && b.internal_count(o, u) == a.internal_count(o, u)
    &&& forall|o: int, u: Product| 0 <= o < a.outputs() ==> #[trigger] b.produced_count(o, u) == a.produced_count(o, u)
    &&& forall|i: int, u: Product| 0 <= i < a.inputs() ==> #[trigger] b.consumed_count(i, u) == a.consumed_count(i, u)
    &&& forall|i: int, u: Product| 0 <= i < a.inputs() ==> #[trigger] b.frontier_count(i, u) == a.frontier_count(i, u)
}

/// Live capabilities and capability changes are as they were.
pub open spec fn keeps_capabilities(a: Operator, b: Operator) -> bool {
    forall|o: int, u: Product| 0 <= o < a.outputs() ==> #[trigger] b.held_count(o, u) == a.held_count(o, u)
        && b.internal_count(o, u) == a.internal_count(o, u)
}

/// Input frontiers and consumed counts are as they were.
pub open spec fn keeps_inputs(a: Operator, b: Operator) -> bool {
    forall|i: int, u: Product| 0 <= i < a.inputs() ==> #[trigger] b.consumed_count(i, u) == a.consumed_count(i, u)
        && b.frontier_count(i, u) == a.frontier_count(i, u)
}

/// Produced counts are as they were.
pub open spec fn keeps_produced(a: Operator, b: Operator) -> bool {
    forall|o: int, u: Product| 0 <= o < a.outputs() ==> #[trigger] b.produced_count(o, u) == a.produced_count(o, u)
}

/// Every time that gains count in `update` lies at or above some element of
/// the frontier of input `i` of `op`.
pub open spec fn advancing(op: Operator, update: ChangeBatch, i: int) -> bool {
    forall|t: Product| #[trigger] update.count(t) > 0 ==> exists|f: Product| op.in_frontier(i, f) && le(f, t)
}

/// Every element of the frontier of input `i` in `b` lies at or above some
/// element of that frontier in `a`.
pub open spec fn not_retreated(a: Operator, b: Operator, i: int) -> bool {
    forall|t: Product| #[trigger] b.in_frontier(i, t) ==> exists|f: Product| a.in_frontier(i, f) && le(f, t)
}

} // verus!
