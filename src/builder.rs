//! Building operators: ports, connectivity between them, and the per-port
//! progress bookkeeping that an operator hands to the scheduler.
use vstd::prelude::*;
use crate::order::Product;
use crate::antichain::Antichain;
use crate::operator::{Capability, Operator, initial_state, initial_capabilities};

verus! {

/// How records move from a producer to a consumer.
#[derive(Clone, Copy, PartialEq, Eq, Structural, Debug)]
pub enum Pact {
    /// Producer and consumer on the same worker; records stay in order.
    Pipeline,
    /// Each record goes to the worker that its routing value picks.
    Exchange,
}

/// A logical edge: an output port of an operator.
#[derive(Clone, Copy, PartialEq, Eq, Structural, Debug)]
pub struct Stream {
    pub operator: usize,
    pub port: usize,
}

/// An edge into an input port of an operator under construction.
#[derive(Clone, Copy, PartialEq, Eq, Structural, Debug)]
pub struct Edge {
    pub source: Stream,
    pub target: usize,
    pub pact: Pact,
}

/// The summary entry that a connection list gives to port `p`: later entries
/// for the same port replace earlier ones; a port not named has none.
pub open spec fn port_entry(c: Seq<(usize, Antichain)>, p: usize) -> Seq<Product>
    decreases c.len(),
{
    if c.len() == 0 {
        seq![]
    } else if c.last().0 == p {
        c.last().1@
    } else {
        port_entry(c.drop_last(), p)
    }
}

/// The summary entry that a table of `(input, output, summaries)` gives to a pair of ports.
pub open spec fn table_entry(s: Seq<(usize, usize, Antichain)>, i: usize, o: usize) -> Seq<Product>
    decreases s.len(),
{
    if s.len() == 0 {
        seq![]
    } else if s.last().0 == i && s.last().1 == o {
        s.last().2@
    } else {
        table_entry(s.drop_last(), i, o)
    }
}

/// Every port named in `c` lies below `n`, and every summary is an antichain.
pub open spec fn connection_ok(c: Seq<(usize, Antichain)>, n: nat) -> bool {
    forall|k: int| 0 <= k < c.len() ==> (#[trigger] c[k]).0 < n && c[k].1.wf()
}

/// The unit summary from each of the ports `0..n`.
pub open spec fn unit_connection(c: Seq<(usize, Antichain)>, n: nat) -> bool {
    &&& c.len() == n
    &&& forall|k: int| 0 <= k < n ==> (#[trigger] c[k]).0 == k && c[k].1@ == seq![Product { outer: 0, inner: 0 }]
}

pub proof fn lemma_table_fresh(s: Seq<(usize, usize, Antichain)>, i: usize, o: usize)
    requires
        forall|k: int| 0 <= k < s.len() ==> !(s[k].0 == i && s[k].1 == o),
    ensures
        table_entry(s, i, o) == Seq::<Product>::empty(),
    decreases s.len(),
{
    if s.len() > 0 {
        lemma_table_fresh(s.drop_last(), i, o);
    }
}

pub proof fn lemma_unit_entry(c: Seq<(usize, Antichain)>, n: nat, p: usize)
    requires
        unit_connection(c, n),
        p < n,
    ensures
        port_entry(c, p) == seq![Product { outer: 0, inner: 0 }],
    decreases c.len(),
{
    if c.last().0 != p {
        assert forall|k: int| 0 <= k < n - 1 implies (#[trigger] c.drop_last()[k]).0 == k
            && c.drop_last()[k].1@ == seq![Product { outer: 0, inner: 0 }] by {
            assert(c.drop_last()[k] == c[k]);
        }
        assert(unit_connection(c.drop_last(), (n - 1) as nat));
        lemma_unit_entry(c.drop_last(), (n - 1) as nat, p);
    }
}

/// The unit summary from each of the ports `0..n`.
fn unit_connection_of(n: usize) -> (r: Vec<(usize, Antichain)>)
    ensures
        unit_connection(r@, n as nat),
        connection_ok(r@, n as nat),
{
    let mut r: Vec<(usize, Antichain)> = Vec::new();
    let mut k: usize = 0;
    while k < n
        invariant
            0 <= k <= n,
            unit_connection(r@, k as nat),
            connection_ok(r@, k as nat),
        decreases n - k,
    {
        let ghost prev = r@;
        r.push((k, Antichain::from_elem(Product::minimum())));
        proof {
            assert forall|j: int| 0 <= j < k + 1 implies (#[trigger] r@[j]).0 == j
                && r@[j].1@ == seq![Product { outer: 0, inner: 0 }] by {
                if j < k {
                    assert(r@[j] == prev[j]);
                }
            }
            assert forall|j: int| 0 <= j < r@.len() implies (#[trigger] r@[j]).0 < k + 1 && r@[j].1.wf() by {
                if j < k {
                    assert(r@[j] == prev[j]);
                }
            }
        }
        k = k + 1;
    }
    r
}

/// The static description of an operator: its name, its ports, and whether
/// it asks to hear of frontier changes.
pub struct OperatorShape {
    name: String,
    notify: bool,
    peers: usize,
    inputs: usize,
    outputs: usize,
}

impl OperatorShape {
    pub closed spec fn spec_inputs(&self) -> nat {
        self.inputs as nat
    }

    pub closed spec fn spec_outputs(&self) -> nat {
        self.outputs as nat
    }

    pub closed spec fn spec_notify(&self) -> bool {
        self.notify
    }

    pub closed spec fn spec_peers(&self) -> nat {
        self.peers as nat
    }

    pub closed spec fn spec_name(&self) -> Seq<char> {
        self.name@
    }

    /// A shape with no name and no ports.
    pub(crate) fn unnamed() -> (r: OperatorShape)
        ensures
            r.spec_inputs() == 0,
            r.spec_outputs() == 0,
    {
        OperatorShape { name: String::new(), notify: false, peers: 1, inputs: 0, outputs: 0 }
    }

    /// The number of input ports.
    pub fn inputs(&self) -> (r: usize)
        ensures
            r == self.spec_inputs(),
    {
        self.inputs
    }

    /// The number of output ports.
    pub fn outputs(&self) -> (r: usize)
        ensures
            r == self.spec_outputs(),
    {
        self.outputs
    }

    /// Whether the operator asks to hear of frontier changes.
    pub fn notify(&self) -> (r: bool)
        ensures
            r == self.spec_notify(),
    {
        self.notify
    }

    /// The number of workers that run a copy of the operator.
    pub fn peers(&self) -> (r: usize)
        ensures
            r == self.spec_peers(),
    {
        self.peers
    }

    /// The operator's name.
    pub fn name(&self) -> (r: &String)
        ensures
            r@ == self.spec_name(),
    {
        &self.name
    }
}

/// Where an operator stands: its index in its scope, its worker-unique
/// identifier, and its address (the scope's address followed by its index).
pub struct OperatorInfo {
    pub local_id: usize,
    pub global_id: usize,
    pub address: Vec<usize>,
}

/// The scope that operators are built in: it hands out operator indices and
/// worker-unique identifiers. Index zero stands for the scope itself.
pub struct Scope {
    address: Vec<usize>,
    peers: usize,
    next_index: usize,
    next_global: usize,
}

impl Scope {
    pub closed spec fn spec_address(&self) -> Seq<usize> {
        self.address@
    }

    pub closed spec fn spec_peers(&self) -> nat {
        self.peers as nat
    }

    pub closed spec fn spec_next_index(&self) -> nat {
        self.next_index as nat
    }

    pub closed spec fn spec_next_global(&self) -> nat {
        self.next_global as nat
    }

    /// Whether another operator can still be given an index.
    pub open spec fn spec_can_allocate(&self) -> bool {
        self.spec_next_index() < usize::MAX && self.spec_next_global() < usize::MAX
    }

    /// A scope at `address` whose operators run on `peers` workers; its
    /// first operator gets index one and identifier `first_global`.
    pub fn new(address: Vec<usize>, peers: usize, first_global: usize) -> (r: Scope)
        ensures
            r.spec_address() == address@,
            r.spec_peers() == peers,
            r.spec_next_index() == 1,
            r.spec_next_global() == first_global,
    {
        Scope { address, peers, next_index: 1, next_global: first_global }
    }

    /// Whether another operator can still be given an index.
    pub fn can_allocate(&self) -> (r: bool)
        ensures
            r == self.spec_can_allocate(),
    {
        self.next_index < usize::MAX && self.next_global < usize::MAX
    }

    /// The number of workers.
    pub fn peers(&self) -> (r: usize)
        ensures
            r == self.spec_peers(),
    {
        self.peers
    }

    /// The scope's address.
    pub fn addr(&self) -> (r: Vec<usize>)
        ensures
            r@ == self.spec_address(),
    {
        copy_address(&self.address)
    }
}

fn copy_address(a: &Vec<usize>) -> (r: Vec<usize>)
    ensures
        r@ == a@,
{
    let mut r: Vec<usize> = Vec::new();
    let mut i: usize = 0;
    while i < a.len()
        invariant
            0 <= i <= a@.len(),
            r@ == a@.take(i as int),
        decreases a@.len() - i,
    {
        r.push(a[i]);
        proof {
            assert(a@.take(i + 1) =~= a@.take(i as int).push(a@[i as int]));
        }
        i = i + 1;
    }
    proof {
        assert(a@.take(i as int) =~= a@);
    }
    r
}

/// Builds an operator of any shape: inputs and outputs are added one at a
/// time, each with the summaries that connect it to the ports already there.
pub struct OperatorBuilder {
    shape: OperatorShape,
    index: usize,
    global: usize,
    address: Vec<usize>,
    connectivity: Vec<(usize, usize, Antichain)>,
    edges: Vec<Edge>,
}

impl OperatorBuilder {
    pub closed spec fn spec_shape(&self) -> &OperatorShape {
        &self.shape
    }

    pub closed spec fn spec_index(&self) -> nat {
        self.index as nat
    }

    pub closed spec fn spec_global(&self) -> nat {
        self.global as nat
    }

    pub closed spec fn spec_address(&self) -> Seq<usize> {
        self.address@
    }

    /// The summaries from input `i` to output `o`; empty where no path connects them.
    pub closed spec fn summary(&self, i: usize, o: usize) -> Seq<Product> {
        table_entry(self.connectivity@, i, o)
    }

    /// The edges into the operator's inputs, in the order the inputs were added.
    pub closed spec fn spec_edges(&self) -> Seq<Edge> {
        self.edges@
    }

    pub closed spec fn wf(&self) -> bool {
        &&& forall|k: int| 0 <= k < self.connectivity@.len() ==> #[trigger] self.connectivity@[k].0 < self.shape.inputs
            && self.connectivity@[k].1 < self.shape.outputs && self.connectivity@[k].2.wf()
        &&& self.edges@.len() == self.shape.inputs
        &&& self.address@.len() > 0
    }

    /// Allocates a builder for an operator named `name` in `scope`, with no
    /// ports yet.
    pub fn new(name: String, scope: &mut Scope) -> (r: OperatorBuilder)
        requires
            old(scope).spec_can_allocate(),
        ensures
            r.wf(),
            r.spec_index() == old(scope).spec_next_index(),
            r.spec_global() == old(scope).spec_next_global(),
            r.spec_address() == old(scope).spec_address().push(r.spec_index() as usize),
            r.spec_shape().spec_name() == name@,
            r.spec_shape().spec_inputs() == 0,
            r.spec_shape().spec_outputs() == 0,
            r.spec_shape().spec_notify(),
            r.spec_shape().spec_peers() == old(scope).spec_peers(),
            r.spec_edges().len() == 0,
            final(scope).spec_next_index() == old(scope).spec_next_index() + 1,
            final(scope).spec_next_global() == old(scope).spec_next_global() + 1,
            final(scope).spec_address() == old(scope).spec_address(),
            final(scope).spec_peers() == old(scope).spec_peers(),
    {
        let index = scope.next_index;
        let global = scope.next_global;
        scope.next_index = index + 1;
        scope.next_global = global + 1;
        let mut address = copy_address(&scope.address);
        address.push(index);
        OperatorBuilder {
            shape: OperatorShape { name, notify: true, peers: scope.peers, inputs: 0, outputs: 0 },
            index,
            global,
            address,
            connectivity: Vec::new(),
            edges: Vec::new(),
        }
    }

    /// Indicates whether the operator requires frontier information.
    pub fn set_notify(&mut self, notify: bool)
        ensures
            final(self).spec_shape().spec_notify() == notify,
            final(self).spec_shape().spec_inputs() == old(self).spec_shape().spec_inputs(),
            final(self).spec_shape().spec_outputs() == old(self).spec_shape().spec_outputs(),
            final(self).spec_shape().spec_name() == old(self).spec_shape().spec_name(),
            final(self).spec_shape().spec_peers() == old(self).spec_shape().spec_peers(),
            final(self).spec_index() == old(self).spec_index(),
            final(self).spec_global() == old(self).spec_global(),
            final(self).spec_address() == old(self).spec_address(),
            final(self).spec_edges() == old(self).spec_edges(),
            forall|i: usize, o: usize| #[trigger] final(self).summary(i, o) == old(self).summary(i, o),
            old(self).wf() ==> final(self).wf(),
    {
        self.shape.notify = notify;
        proof {
            if old(self).wf() {
                assert forall|k: int| 0 <= k < self.connectivity@.len() implies #[trigger] self.connectivity@[k].0 < self.shape.inputs
                    && self.connectivity@[k].1 < self.shape.outputs && self.connectivity@[k].2.wf() by {
                    assert(old(self).connectivity@[k].0 < old(self).shape.inputs);
                }
            }
        }
    }

    /// Adds an input fed by `stream` under `pact`, connected to every existing
    /// output by the unit summary. Returns the new input's index.
    pub fn new_input(&mut self, stream: &Stream, pact: Pact) -> (r: usize)
        requires
            old(self).wf(),
            old(self).spec_shape().spec_inputs() < usize::MAX,
        ensures
            final(self).wf(),
            r == old(self).spec_shape().spec_inputs(),
            final(self).spec_shape().spec_inputs() == old(self).spec_shape().spec_inputs() + 1,
            final(self).spec_shape().spec_outputs() == old(self).spec_shape().spec_outputs(),
            final(self).spec_edges() == old(self).spec_edges().push(Edge { source: *stream, target: r, pact }),
            forall|o: usize| o < old(self).spec_shape().spec_outputs() ==>
                #[trigger] final(self).summary(r, o) == seq![Product { outer: 0, inner: 0 }],
            forall|i: usize, o: usize| i < r ==> #[trigger] final(self).summary(i, o) == old(self).summary(i, o),
            final(self).spec_index() == old(self).spec_index(),
            final(self).spec_global() == old(self).spec_global(),
            final(self).spec_address() == old(self).spec_address(),
    {
        let connection = unit_connection_of(self.shape.outputs);
        let r = self.new_input_connection(stream, pact, connection);
        proof {
            assert forall|o: usize| o < old(self).spec_shape().spec_outputs() implies
                #[trigger] self.summary(r, o) == seq![Product { outer: 0, inner: 0 }] by {
                lemma_unit_entry(connection@, old(self).shape.outputs as nat, o);
            }
        }
        r
    }

    /// Adds an input fed by `stream` under `pact`. For each existing output
    /// `o`, `connection` gives the summaries that any timestamp arriving at the
    /// input passes through on its way to `o` (later entries for the same
    /// output replace earlier ones; an output not named is not reachable).
    /// Returns the new input's index.
    pub fn new_input_connection(
        &mut self,
        stream: &Stream,
        pact: Pact,
        connection: Vec<(usize, Antichain)>,
    ) -> (r: usize)
        requires
            old(self).wf(),
            old(self).spec_shape().spec_inputs() < usize::MAX,
            connection_ok(connection@, old(self).spec_shape().spec_outputs()),
        ensures
            final(self).wf(),
            r == old(self).spec_shape().spec_inputs(),
            final(self).spec_shape().spec_inputs() == old(self).spec_shape().spec_inputs() + 1,
            final(self).spec_shape().spec_outputs() == old(self).spec_shape().spec_outputs(),
            final(self).spec_shape().spec_notify() == old(self).spec_shape().spec_notify(),
            final(self).spec_shape().spec_name() == old(self).spec_shape().spec_name(),
            final(self).spec_shape().spec_peers() == old(self).spec_shape().spec_peers(),
            final(self).spec_edges() == old(self).spec_edges().push(Edge { source: *stream, target: r, pact }),
            forall|o: usize| #[trigger] final(self).summary(r, o) == port_entry(connection@, o),
            forall|i: usize, o: usize| i < r ==> #[trigger] final(self).summary(i, o) == old(self).summary(i, o),
            final(self).spec_index() == old(self).spec_index(),
            final(self).spec_global() == old(self).spec_global(),
            final(self).spec_address() == old(self).spec_address(),
    {
        let r = self.shape.inputs;
        let ghost s0 = self.connectivity@;
        proof {
            assert forall|o: usize| #[trigger] table_entry(s0, r, o) == Seq::<Product>::empty() by {
                lemma_table_fresh(s0, r, o);
            }
            assert forall|j: int| 0 <= j < self.connectivity@.len() implies #[trigger] self.connectivity@[j].0 <= r
                && self.connectivity@[j].1 < self.shape.outputs && self.connectivity@[j].2.wf() by {
                assert(old(self).wf());
                assert(old(self).connectivity@[j].0 < old(self).shape.inputs);
                assert(self.connectivity@[j].0 < self.shape.inputs);
            }
        }
        let mut k: usize = 0;
        while k < connection.len()
            invariant
                0 <= k <= connection@.len(),
                connection_ok(connection@, self.shape.outputs as nat),
                self.shape.inputs == r,
                r < usize::MAX,
                self.shape == old(self).shape,
                self.edges == old(self).edges,
                self.index == old(self).index,
                self.global == old(self).global,
                self.address == old(self).address,
                forall|j: int| 0 <= j < self.connectivity@.len() ==> #[trigger] self.connectivity@[j].0 <= r
                    && self.connectivity@[j].1 < self.shape.outputs && self.connectivity@[j].2.wf(),
                forall|o: usize| #[trigger] table_entry(self.connectivity@, r, o) == port_entry(connection@.take(k as int), o),
                forall|i: usize, o: usize| i != r ==> #[trigger] table_entry(self.connectivity@, i, o) == table_entry(s0, i, o),
            decreases connection@.len() - k,
        {
            let o = connection[k].0;
            let a = connection[k].1.duplicate();
            assert(connection@[k as int].1.wf());
            let ghost prev = self.connectivity@;
            let ghost av = a@;
            self.connectivity.push((r, o, a));
            proof {
                assert(self.connectivity@ == prev.push((r, o, a)));
                assert(self.connectivity@.last().2@ == av);
                assert(self.connectivity@.drop_last() =~= prev);
                assert(connection@.take(k + 1).last() == connection@[k as int]);
                assert forall|o2: usize| #[trigger] table_entry(self.connectivity@, r, o2)
                    == port_entry(connection@.take(k + 1), o2) by {
                    assert(connection@.take(k + 1).drop_last() =~= connection@.take(k as int));
                    assert(port_entry(connection@.take(k + 1), o2) == if o == o2 { av } else {
                        port_entry(connection@.take(k as int), o2) });
                    assert(table_entry(self.connectivity@, r, o2) == if o == o2 { av } else {
                        table_entry(prev, r, o2) });
                }
                assert forall|i2: usize, o2: usize| i2 != r implies #[trigger] table_entry(self.connectivity@, i2, o2)
                    == table_entry(s0, i2, o2) by {
                    assert(self.connectivity@.last().0 != i2);
                    assert(table_entry(self.connectivity@, i2, o2) == table_entry(self.connectivity@.drop_last(), i2, o2));
                    assert(table_entry(prev, i2, o2) == table_entry(s0, i2, o2));
                }
                assert(connection@.take(k + 1).drop_last() =~= connection@.take(k as int));
                assert(self.connectivity@.drop_last() =~= prev);
                assert forall|j: int| 0 <= j < self.connectivity@.len() implies #[trigger] self.connectivity@[j].0 <= r
                    && self.connectivity@[j].1 < self.shape.outputs && self.connectivity@[j].2.wf() by {
                    if j < prev.len() {
                        assert(self.connectivity@[j] == prev[j]);
                    }
                }
            }
            k = k + 1;
        }
        proof {
            assert(connection@.take(k as int) =~= connection@);
        }
        self.shape.inputs = r + 1;
        self.edges.push(Edge { source: *stream, target: r, pact });
        r
    }

    /// Adds an output connected from every existing input by the unit
    /// summary. Returns the new output's index and the stream it feeds.
    pub fn new_output(&mut self) -> (r: (usize, Stream))
        requires
            old(self).wf(),
            old(self).spec_shape().spec_outputs() < usize::MAX,
        ensures
            final(self).wf(),
            r.0 == old(self).spec_shape().spec_outputs(),
            r.1 == (Stream { operator: old(self).spec_index() as usize, port: r.0 }),
            final(self).spec_shape().spec_outputs() == old(self).spec_shape().spec_outputs() + 1,
            final(self).spec_shape().spec_inputs() == old(self).spec_shape().spec_inputs(),
            final(self).spec_edges() == old(self).spec_edges(),
            forall|i: usize| i < old(self).spec_shape().spec_inputs() ==>
                #[trigger] final(self).summary(i, r.0) == seq![Product { outer: 0, inner: 0 }],
            forall|i: usize, o: usize| o < r.0 ==> #[trigger] final(self).summary(i, o) == old(self).summary(i, o),
            final(self).spec_index() == old(self).spec_index(),
            final(self).spec_global() == old(self).spec_global(),
            final(self).spec_address() == old(self).spec_address(),
    {
        let connection = unit_connection_of(self.shape.inputs);
        let r = self.new_output_connection(connection);
        proof {
            assert forall|i: usize| i < old(self).spec_shape().spec_inputs() implies
                #[trigger] self.summary(i, r.0) == seq![Product { outer: 0, inner: 0 }] by {
                lemma_unit_entry(connection@, old(self).shape.inputs as nat, i);
            }
        }
        r
    }

    /// Adds an output. For each existing input `i`, `connection` gives the
    /// summaries that any timestamp arriving at `i` passes through on its way
    /// to the new output (later entries for the same input replace earlier
    /// ones; an input not named does not reach it). Returns the new output's
    /// index and the stream it feeds.
    pub fn new_output_connection(&mut self, connection: Vec<(usize, Antichain)>) -> (r: (usize, Stream))
        requires
            old(self).wf(),
            old(self).spec_shape().spec_outputs() < usize::MAX,
            connection_ok(connection@, old(self).spec_shape().spec_inputs()),
        ensures
            final(self).wf(),
            r.0 == old(self).spec_shape().spec_outputs(),
            r.1 == (Stream { operator: old(self).spec_index() as usize, port: r.0 }),
            final(self).spec_shape().spec_outputs() == old(self).spec_shape().spec_outputs() + 1,
            final(self).spec_shape().spec_inputs() == old(self).spec_shape().spec_inputs(),
            final(self).spec_shape().spec_notify() == old(self).spec_shape().spec_notify(),
            final(self).spec_shape().spec_name() == old(self).spec_shape().spec_name(),
            final(self).spec_shape().spec_peers() == old(self).spec_shape().spec_peers(),
            final(self).spec_edges() == old(self).spec_edges(),
            forall|i: usize| #[trigger] final(self).summary(i, r.0) == port_entry(connection@, i),
            forall|i: usize, o: usize| o < r.0 ==> #[trigger] final(self).summary(i, o) == old(self).summary(i, o),
            final(self).spec_index() == old(self).spec_index(),
            final(self).spec_global() == old(self).spec_global(),
            final(self).spec_address() == old(self).spec_address(),
    {
        let r = self.shape.outputs;
        let ghost s0 = self.connectivity@;
        proof {
            assert forall|i: usize| #[trigger] table_entry(s0, i, r) == Seq::<Product>::empty() by {
                lemma_table_fresh(s0, i, r);
            }
            assert forall|j: int| 0 <= j < self.connectivity@.len() implies #[trigger] self.connectivity@[j].0 < self.shape.inputs
                && self.connectivity@[j].1 <= r && self.connectivity@[j].2.wf() by {
                assert(old(self).wf());
                assert(old(self).connectivity@[j].0 < old(self).shape.inputs);
                assert(self.connectivity@[j].1 < self.shape.outputs);
            }
        }
        let mut k: usize = 0;
        while k < connection.len()
            invariant
                0 <= k <= connection@.len(),
                connection_ok(connection@, self.shape.inputs as nat),
                self.shape.outputs == r,
                r < usize::MAX,
                self.shape == old(self).shape,
                self.edges == old(self).edges,
                self.index == old(self).index,
                self.global == old(self).global,
                self.address == old(self).address,
                forall|j: int| 0 <= j < self.connectivity@.len() ==> #[trigger] self.connectivity@[j].0 < self.shape.inputs
                    && self.connectivity@[j].1 <= r && self.connectivity@[j].2.wf(),
                forall|i: usize| #[trigger] table_entry(self.connectivity@, i, r) == port_entry(connection@.take(k as int), i),
                forall|i: usize, o: usize| o != r ==> #[trigger] table_entry(self.connectivity@, i, o) == table_entry(s0, i, o),
            decreases connection@.len() - k,
        {
            let i = connection[k].0;
            let a = connection[k].1.duplicate();
            assert(connection@[k as int].1.wf());
            let ghost prev = self.connectivity@;
            let ghost av = a@;
            self.connectivity.push((i, r, a));
            proof {
                assert(self.connectivity@ == prev.push((i, r, a)));
                assert(self.connectivity@.last().2@ == av);
                assert(self.connectivity@.drop_last() =~= prev);
                assert(connection@.take(k + 1).last() == connection@[k as int]);
                assert forall|i2: usize| #[trigger] table_entry(self.connectivity@, i2, r)
                    == port_entry(connection@.take(k + 1), i2) by {
                    assert(connection@.take(k + 1).drop_last() =~= connection@.take(k as int));
                    assert(port_entry(connection@.take(k + 1), i2) == if i == i2 { av } else {
                        port_entry(connection@.take(k as int), i2) });
                    assert(table_entry(self.connectivity@, i2, r) == if i == i2 { av } else {
                        table_entry(prev, i2, r) });
                }
                assert forall|i2: usize, o2: usize| o2 != r implies #[trigger] table_entry(self.connectivity@, i2, o2)
                    == table_entry(s0, i2, o2) by {
                    assert(self.connectivity@.last().1 != o2);
                    assert(table_entry(self.connectivity@, i2, o2) == table_entry(self.connectivity@.drop_last(), i2, o2));
                    assert(table_entry(prev, i2, o2) == table_entry(s0, i2, o2));
                }
                assert(connection@.take(k + 1).drop_last() =~= connection@.take(k as int));
                assert(self.connectivity@.drop_last() =~= prev);
                assert forall|j: int| 0 <= j < self.connectivity@.len() implies #[trigger] self.connectivity@[j].0 < self.shape.inputs
                    && self.connectivity@[j].1 <= r && self.connectivity@[j].2.wf() by {
                    if j < prev.len() {
                        assert(self.connectivity@[j] == prev[j]);
                    }
                }
            }
            k = k + 1;
        }
        proof {
            assert(connection@.take(k as int) =~= connection@);
        }
        self.shape.outputs = r + 1;
        proof {
            assert forall|j: int| 0 <= j < self.connectivity@.len() implies #[trigger] self.connectivity@[j].0 < self.shape.inputs
                && self.connectivity@[j].1 < self.shape.outputs && self.connectivity@[j].2.wf() by {
                assert(self.connectivity@[j].0 < self.shape.inputs);
                assert(self.connectivity@[j].1 <= r);
                assert(self.connectivity@[j].2.wf());
            }
        }
        (r, Stream { operator: self.index, port: r })
    }

    /// Finishes the operator. `constructor` receives one capability for each
    /// output, at the least timestamp, and returns the operator's logic; the
    /// operator starts with those capabilities live and nothing yet to publish.
    /// Its logic is never asked whether it wants to run again.
    pub fn build<B, L>(self, constructor: B) -> (r: (Operator, L))
        where
            B: FnOnce(Vec<Capability>) -> L,
        requires
            self.wf(),
            forall|caps: Vec<Capability>| constructor.requires((caps,)),
        ensures
            r.0.wf(),
            !r.0.spec_reschedule(),
            built_from(r.0, self),
            initial_state(r.0),
            exists|caps: Vec<Capability>|
                initial_capabilities(caps@, self.spec_index() as usize, self.spec_shape().spec_outputs())
                    && constructor.ensures((caps,), r.1),
    {
        self.finish(constructor, false)
    }

    /// As `build`, but the logic's answer to whether it wants to run again,
    /// even with no new input, is heeded.
    pub fn build_reschedule<B, L>(self, constructor: B) -> (r: (Operator, L))
        where
            B: FnOnce(Vec<Capability>) -> L,
        requires
            self.wf(),
            forall|caps: Vec<Capability>| constructor.requires((caps,)),
        ensures
            r.0.wf(),
            r.0.spec_reschedule(),
            built_from(r.0, self),
            initial_state(r.0),
            exists|caps: Vec<Capability>|
                initial_capabilities(caps@, self.spec_index() as usize, self.spec_shape().spec_outputs())
                    && constructor.ensures((caps,), r.1),
    {
        self.finish(constructor, true)
    }

    fn finish<B, L>(self, constructor: B, reschedule: bool) -> (r: (Operator, L))
        where
            B: FnOnce(Vec<Capability>) -> L,
        requires
            self.wf(),
            forall|caps: Vec<Capability>| constructor.requires((caps,)),
        ensures
            r.0.wf(),
            r.0.spec_reschedule() == reschedule,
            built_from(r.0, self),
            initial_state(r.0),
            exists|caps: Vec<Capability>|
                initial_capabilities(caps@, self.spec_index() as usize, self.spec_shape().spec_outputs())
                    && constructor.ensures((caps,), r.1),
    {
        let ghost before = self;
        let (op, caps) = Operator::assemble(
            self.shape,
            self.index,
            self.global,
            self.address,
            self.connectivity,
            self.edges,
            reschedule,
        );
        let ghost given = caps;
        let logic = constructor(caps);
        proof {
            assert(initial_capabilities(given@, before.spec_index() as usize, before.spec_shape().spec_outputs()));
        }
        (op, logic)
    }

    /// The operator's index within its scope.
    pub fn index(&self) -> (r: usize)
        ensures
            r == self.spec_index(),
    {
        self.index
    }

    /// The operator's worker-unique identifier.
    pub fn global(&self) -> (r: usize)
        ensures
            r == self.spec_global(),
    {
        self.global
    }

    /// The operator's shape.
    pub fn shape(&self) -> (r: &OperatorShape)
        ensures
            r == self.spec_shape(),
    {
        &self.shape
    }

    /// Where the operator stands.
    pub fn operator_info(&self) -> (r: OperatorInfo)
        ensures
            r.local_id == self.spec_index(),
            r.global_id == self.spec_global(),
            r.address@ == self.spec_address(),
    {
        OperatorInfo { local_id: self.index, global_id: self.global, address: copy_address(&self.address) }
    }
}

/// The operator has the shape, place, connectivity and edges that the builder gave it.
pub open spec fn built_from(op: Operator, b: OperatorBuilder) -> bool {
    &&& op.spec_shape() == b.spec_shape()
    &&& op.spec_index() == b.spec_index()
    &&& op.spec_global() == b.spec_global()
    &&& op.spec_address() == b.spec_address()
    &&& op.spec_edges() == b.spec_edges()
    &&& forall|i: usize, o: usize| #[trigger] op.summary(i, o) == b.summary(i, o)
}

} // verus!
