//! Observers: the push side of a channel, opened and shut around each
//! timestamp's records.
use vstd::prelude::*;
use crate::order::Product;
use crate::change_batch::ChangeBatch;
use crate::routing::Data;

verus! {

/// One thing sent to an observer.
pub enum Event<T, D> {
    /// Records at this timestamp follow.
    Open(T),
    /// One record, lent.
    Show(D),
    /// One record, handed over.
    Give(D),
    /// No more records at this timestamp follow.
    Shut(T),
}

/// Receives records in batches bracketed by the timestamp they carry.
pub trait Observer {
    type Time;
    type Data;

    /// Everything the observer has been sent, in order.
    spec fn events(&self) -> Seq<Event<Self::Time, Self::Data>>;

    /// Records at `time` are about to follow.
    fn open(&mut self, time: &Self::Time)
        ensures
            final(self).events() == old(self).events().push(Event::Open(*time)),
    ;

    /// One record, lent.
    fn show(&mut self, data: &Self::Data)
        ensures
            final(self).events() == old(self).events().push(Event::Show(*data)),
    ;

    /// One record, handed over.
    fn give(&mut self, data: Self::Data)
        ensures
            final(self).events() == old(self).events().push(Event::Give(data)),
    ;

    /// No more records at `time` follow.
    fn shut(&mut self, time: &Self::Time)
        ensures
            final(self).events() == old(self).events().push(Event::Shut(*time)),
    ;
}

/// Each record of `s`, handed over in turn.
pub open spec fn gives<T, D>(s: Seq<D>) -> Seq<Event<T, D>> {
    Seq::new(s.len(), |i: int| Event::Give(s[i]))
}

/// Each record of `s`, lent in turn.
pub open spec fn shows<T, D>(s: Seq<D>) -> Seq<Event<T, D>> {
    Seq::new(s.len(), |i: int| Event::Show(s[i]))
}

/// `after` is `before` followed by one batch handed over, holding `b`.
pub open spec fn sent_batch<T, D>(before: Seq<Event<T, Vec<D>>>, after: Seq<Event<T, Vec<D>>>, b: Seq<D>) -> bool {
    &&& after.len() == before.len() + 1
    &&& after.drop_last() == before
    &&& after.last() is Give
    &&& after.last()->Give_0@ == b
}

/// Takes batches of records and hands them one by one to an inner observer,
/// keeping each emptied batch for reuse.
pub struct OutputPortFlattener<O: Observer> {
    observer: O,
    stash: Vec<Vec<O::Data>>,
    log: Ghost<Seq<Event<O::Time, Vec<O::Data>>>>,
}

impl<O: Observer> OutputPortFlattener<O> {
    pub closed spec fn spec_stash(&self) -> Seq<Vec<O::Data>> {
        self.stash@
    }

    /// Everything the inner observer has been sent.
    pub closed spec fn inner_events(&self) -> Seq<Event<O::Time, O::Data>> {
        self.observer.events()
    }

    pub closed spec fn spec_inner(&self) -> &O {
        &self.observer
    }

    /// Wraps `observer`, with `stash` holding batches ready for reuse.
    pub fn new(observer: O, stash: Vec<Vec<O::Data>>) -> (r: OutputPortFlattener<O>)
        ensures
            r.spec_stash() == stash@,
            r.events().len() == 0,
            r.inner_events() == observer.events(),
            *r.spec_inner() == observer,
    {
        OutputPortFlattener { observer, stash, log: Ghost(Seq::empty()) }
    }

    /// An emptied batch to fill, if one is kept.
    pub fn take_stashed(&mut self) -> (r: Option<Vec<O::Data>>)
        ensures
            old(self).spec_stash().len() == 0 ==> r is None && final(self).spec_stash().len() == 0,
            old(self).spec_stash().len() > 0 ==> r == Some(old(self).spec_stash().last())
                && final(self).spec_stash() == old(self).spec_stash().drop_last(),
            final(self).events() == old(self).events(),
            final(self).inner_events() == old(self).inner_events(),
    {
        self.stash.pop()
    }

    /// The inner observer.
    pub fn inner(&self) -> (r: &O)
        ensures
            r == self.spec_inner(),
            r.events() == self.inner_events(),
    {
        &self.observer
    }
}

impl<O: Observer> Observer for OutputPortFlattener<O> {
    type Time = O::Time;
    type Data = Vec<O::Data>;

    closed spec fn events(&self) -> Seq<Event<O::Time, Vec<O::Data>>> {
        self.log@
    }

    fn open(&mut self, time: &O::Time)
        ensures
            final(self).inner_events() == old(self).inner_events().push(Event::Open(*time)),
            final(self).spec_stash() == old(self).spec_stash(),
    {
        self.observer.open(time);
        self.log = Ghost(self.log@.push(Event::Open(*time)));
    }

    fn show(&mut self, data: &Vec<O::Data>)
        ensures
            final(self).inner_events() == old(self).inner_events() + shows(data@),
            final(self).spec_stash() == old(self).spec_stash(),
    {
        let mut i: usize = 0;
        while i < data.len()
            invariant
                0 <= i <= data@.len(),
                self.stash == old(self).stash,
                self.log == old(self).log,
                self.observer.events() == old(self).observer.events() + shows::<O::Time, O::Data>(data@.take(i as int)),
            decreases data@.len() - i,
        {
            self.observer.show(&data[i]);
            proof {
                assert(shows::<O::Time, O::Data>(data@.take(i + 1)) =~= shows::<O::Time, O::Data>(data@.take(i as int)).push(
                    Event::Show(data@[i as int]),
                ));
            }
            i = i + 1;
        }
        proof {
            assert(data@.take(i as int) =~= data@);
        }
        self.log = Ghost(self.log@.push(Event::Show(*data)));
    }

    fn give(&mut self, data: Vec<O::Data>)
        ensures
            final(self).inner_events() == old(self).inner_events() + gives(data@),
            final(self).spec_stash().len() == old(self).spec_stash().len() + 1,
            final(self).spec_stash().drop_last() == old(self).spec_stash(),
            final(self).spec_stash().last()@.len() == 0,
    {
        let ghost whole = data;
        let mut rest = data;
        let total = rest.len();
        let mut k: usize = 0;
        while rest.len() > 0
            invariant
                whole@.len() == total,
                0 <= k <= whole@.len(),
                rest@ == whole@.skip(k as int),
                self.stash == old(self).stash,
                self.log == old(self).log,
                self.observer.events() == old(self).observer.events() + gives::<O::Time, O::Data>(whole@.take(k as int)),
            decreases rest@.len(),
        {
            let datum = rest.remove(0);
            proof {
                assert(datum == whole@[k as int]);
            }
            self.observer.give(datum);
            proof {
                assert(gives::<O::Time, O::Data>(whole@.take(k + 1)) =~= gives::<O::Time, O::Data>(whole@.take(k as int)).push(
                    Event::Give(whole@[k as int]),
                ));
                assert(rest@ =~= whole@.skip(k + 1));
            }
            k = k + 1;
        }
        proof {
            assert(whole@.take(k as int) =~= whole@);
        }
        self.stash.push(rest);
        self.log = Ghost(self.log@.push(Event::Give(whole)));
    }

    fn shut(&mut self, time: &O::Time)
        ensures
            final(self).inner_events() == old(self).inner_events().push(Event::Shut(*time)),
            final(self).spec_stash() == old(self).spec_stash(),
    {
        self.observer.shut(time);
        self.log = Ghost(self.log@.push(Event::Shut(*time)));
    }
}

/// Records counted since the last shut, and the counts recorded per
/// timestamp; both stay valid whatever is done to them.
struct Tally {
    counts: ChangeBatch,
    count: i64,
}

impl Tally {
    #[verifier::type_invariant]
    spec fn valid(&self) -> bool {
        self.counts.wf() && self.count >= 0
    }

    fn new() -> (r: Tally)
        ensures
            r.counts.is_zero(),
            r.count == 0,
    {
        Tally { counts: ChangeBatch::new(), count: 0 }
    }

    fn bump(&mut self)
        ensures
            final(self).counts == old(self).counts,
            final(self).count == if old(self).count < i64::MAX { old(self).count + 1 } else { old(self).count as int },
    {
        proof {
            use_type_invariant(&*self);
        }
        if self.count < i64::MAX {
            self.count = self.count + 1;
        }
    }

    fn close(&mut self, time: &Product)
        ensures
            old(self).counts.count(*time) + old(self).count <= i64::MAX ==> {
                &&& final(self).count == 0
                &&& final(self).counts.count(*time) == old(self).counts.count(*time) + old(self).count
                &&& forall|u: Product| u != *time ==> #[trigger] final(self).counts.count(u) == old(self).counts.count(u)
            },
            old(self).counts.count(*time) + old(self).count > i64::MAX ==> *final(self) == *old(self),
    {
        proof {
            use_type_invariant(&*self);
            self.counts.lemma_count_range(*time);
        }
        if self.counts.get(time) <= i64::MAX - self.count {
            let mut next = self.counts.duplicate();
            next.update(*time, self.count);
            self.counts = next;
            self.count = 0;
        }
    }

    fn drain(&mut self, updates: &mut ChangeBatch)
        requires
            old(updates).wf(),
            forall|t: Product| i64::MIN <= #[trigger] old(updates).count(t) + old(self).counts.count(t) <= i64::MAX,
        ensures
            final(self).counts.is_zero(),
            final(self).count == old(self).count,
            final(updates).wf(),
            forall|t: Product| #[trigger] final(updates).count(t) == old(updates).count(t) + old(self).counts.count(t),
    {
        proof {
            use_type_invariant(&*self);
        }
        updates.extend(&self.counts);
        self.counts = ChangeBatch::new();
    }
}

/// Counts the records passing to an inner observer for each timestamp,
/// so that progress can report them.
pub struct ObserverHelper<O: Observer<Time = Product>> {
    observer: O,
    tally: Tally,
    log: Ghost<Seq<Event<Product, O::Data>>>,
}

impl<O: Observer<Time = Product>> ObserverHelper<O> {
    /// Counts recorded per timestamp and not yet pulled.
    pub closed spec fn spec_counts(&self) -> ChangeBatch {
        self.tally.counts
    }

    /// Records passed on since the last shut.
    pub closed spec fn spec_count(&self) -> int {
        self.tally.count as int
    }

    /// Everything the inner observer has been sent.
    pub closed spec fn inner_events(&self) -> Seq<Event<Product, O::Data>> {
        self.observer.events()
    }

    /// Wraps `observer`, with nothing counted yet.
    pub fn new(observer: O) -> (r: ObserverHelper<O>)
        ensures
            r.spec_counts().is_zero(),
            r.spec_count() == 0,
            r.inner_events() == observer.events(),
            r.events().len() == 0,
    {
        ObserverHelper { observer, tally: Tally::new(), log: Ghost(Seq::empty()) }
    }

    /// The inner observer.
    pub fn inner(&self) -> (r: &O)
        ensures
            r.events() == self.inner_events(),
    {
        &self.observer
    }

    /// Moves the counts recorded so far into `updates`.
    pub fn pull_progress(&mut self, updates: &mut ChangeBatch)
        requires
            old(updates).wf(),
            forall|t: Product| i64::MIN <= #[trigger] old(updates).count(t) + old(self).spec_counts().count(t) <= i64::MAX,
        ensures
            final(self).spec_counts().is_zero(),
            final(self).spec_count() == old(self).spec_count(),
            final(self).inner_events() == old(self).inner_events(),
            final(self).events() == old(self).events(),
            final(updates).wf(),
            forall|t: Product| #[trigger] final(updates).count(t) == old(updates).count(t) + old(self).spec_counts().count(t),
    {
        self.tally.drain(updates);
    }
}

impl<O: Observer<Time = Product>> Observer for ObserverHelper<O> {
    type Time = Product;
    type Data = O::Data;

    closed spec fn events(&self) -> Seq<Event<Product, O::Data>> {
        self.log@
    }

    fn open(&mut self, time: &Product)
        ensures
            final(self).inner_events() == old(self).inner_events().push(Event::Open(*time)),
            final(self).spec_counts() == old(self).spec_counts(),
            final(self).spec_count() == old(self).spec_count(),
    {
        self.observer.open(time);
        self.log = Ghost(self.log@.push(Event::Open(*time)));
    }

    /// Counts the record (the count stays at `i64::MAX` once there) and lends it on.
    fn show(&mut self, data: &O::Data)
        ensures
            final(self).inner_events() == old(self).inner_events().push(Event::Show(*data)),
            final(self).spec_counts() == old(self).spec_counts(),
            final(self).spec_count() == if old(self).spec_count() < i64::MAX {
                old(self).spec_count() + 1
            } else {
                old(self).spec_count()
            },
    {
        self.tally.bump();
        self.observer.show(data);
        self.log = Ghost(self.log@.push(Event::Show(*data)));
    }

    /// Counts the record (the count stays at `i64::MAX` once there) and hands it on.
    fn give(&mut self, data: O::Data)
        ensures
            final(self).inner_events() == old(self).inner_events().push(Event::Give(data)),
            final(self).spec_counts() == old(self).spec_counts(),
            final(self).spec_count() == if old(self).spec_count() < i64::MAX {
                old(self).spec_count() + 1
            } else {
                old(self).spec_count()
            },
    {
        let ghost d = data;
        self.tally.bump();
        self.observer.give(data);
        self.log = Ghost(self.log@.push(Event::Give(d)));
    }

    /// Records the records counted since the last shut at `time`, then
    /// shuts the inner observer. Where the count at `time` would leave the
    /// range of `i64`, the counted records stay pending for the next shut.
    fn shut(&mut self, time: &Product)
        ensures
            final(self).inner_events() == old(self).inner_events().push(Event::Shut(*time)),
            old(self).spec_counts().count(*time) + old(self).spec_count() <= i64::MAX ==> {
                &&& final(self).spec_count() == 0
                &&& final(self).spec_counts().count(*time) == old(self).spec_counts().count(*time) + old(self).spec_count()
                &&& forall|u: Product| u != *time ==> #[trigger] final(self).spec_counts().count(u)
                    == old(self).spec_counts().count(u)
            },
            old(self).spec_counts().count(*time) + old(self).spec_count() > i64::MAX ==> final(self).spec_counts()
                == old(self).spec_counts() && final(self).spec_count() == old(self).spec_count(),
    {
        self.tally.close(time);
        self.observer.shut(time);
        self.log = Ghost(self.log@.push(Event::Shut(*time)));
    }
}

/// The number of records an output port buffers before it hands them on.
pub const PORT_LIMIT: usize = 256;

/// A copy of `v`.
fn copy_records<D: Data>(v: &Vec<D>) -> (r: Vec<D>)
    ensures
        r@ == v@,
{
    let mut r: Vec<D> = Vec::new();
    let mut i: usize = 0;
    while i < v.len()
        invariant
            0 <= i <= v@.len(),
            r@ == v@.take(i as int),
        decreases v@.len() - i,
    {
        r.push(v[i]);
        proof {
            assert(v@.take(i + 1) =~= v@.take(i as int).push(v@[i as int]));
        }
        i = i + 1;
    }
    proof {
        assert(v@.take(i as int) =~= v@);
    }
    r
}

/// The push side of an operator output: it buffers records and hands each
/// full buffer, as one batch, to every observer of the output.
#[verifier::reject_recursive_types(D)]
pub struct OutputPort<D: Data, O: Observer<Data = Vec<D>>> {
    limit: usize,
    buffer: Vec<D>,
    observers: Vec<O>,
    log: Ghost<Seq<Event<O::Time, D>>>,
}

impl<D: Data, O: Observer<Data = Vec<D>>> OutputPort<D, O> {
    /// The records waiting to be handed on.
    pub closed spec fn buffered(&self) -> Seq<D> {
        self.buffer@
    }

    pub closed spec fn spec_limit(&self) -> nat {
        self.limit as nat
    }

    pub closed spec fn observer_count(&self) -> nat {
        self.observers@.len()
    }

    /// Everything observer `j` has been sent.
    pub closed spec fn observer_events(&self, j: int) -> Seq<Event<O::Time, Vec<D>>> {
        self.observers@[j].events()
    }

    /// A port with no observers and an empty buffer.
    pub fn new() -> (r: OutputPort<D, O>)
        ensures
            r.buffered().len() == 0,
            r.spec_limit() == PORT_LIMIT,
            r.observer_count() == 0,
            r.events().len() == 0,
    {
        OutputPort { limit: PORT_LIMIT, buffer: Vec::new(), observers: Vec::new(), log: Ghost(Seq::empty()) }
    }

    /// Adds an observer of the records handed on from now.
    pub fn add_observer(&mut self, observer: O)
        ensures
            final(self).observer_count() == old(self).observer_count() + 1,
            forall|j: int| 0 <= j < old(self).observer_count() ==> #[trigger] final(self).observer_events(j)
                == old(self).observer_events(j),
            final(self).observer_events(old(self).observer_count() as int) == observer.events(),
            final(self).buffered() == old(self).buffered(),
            final(self).spec_limit() == old(self).spec_limit(),
            final(self).events() == old(self).events(),
    {
        let ghost before = self.observers@;
        self.observers.push(observer);
        proof {
            assert forall|j: int| 0 <= j < before.len() implies #[trigger] self.observers@[j] == before[j] by {}
        }
    }

    /// Hands the buffered records, as one batch, to every observer in turn,
    /// and empties the buffer. With no observers the records are dropped.
    fn flush_buffer(&mut self)
        ensures
            final(self).buffered().len() == 0,
            final(self).spec_limit() == old(self).spec_limit(),
            final(self).observer_count() == old(self).observer_count(),
            final(self).events() == old(self).events(),
            forall|j: int| 0 <= j < old(self).observer_count() ==> sent_batch(
                old(self).observer_events(j),
                #[trigger] final(self).observer_events(j),
                old(self).buffered(),
            ),
    {
        let ghost all = self.observers@;
        let n = self.observers.len();
        let mut done: Vec<O> = Vec::new();
        while self.observers.len() > 0
            invariant
                all.len() == n,
                done@.len() + self.observers@.len() == n,
                self.observers@ == all.skip(done@.len() as int),
                self.limit == old(self).limit,
                self.buffer == old(self).buffer,
                self.log == old(self).log,
                forall|j: int| 0 <= j < done@.len() ==> sent_batch(
                    all[j].events(),
                    #[trigger] done@[j].events(),
                    old(self).buffer@,
                ),
            decreases self.observers@.len(),
        {
            let batch = copy_records(&self.buffer);
            let mut o = self.observers.remove(0);
            proof {
                assert(o == all[done@.len() as int]);
            }
            let ghost e0 = o.events();
            o.give(batch);
            proof {
                assert(o.events().drop_last() =~= e0);
            }
            let ghost k = done@.len();
            done.push(o);
            proof {
                assert(self.observers@ =~= all.skip(done@.len() as int));
                assert forall|j: int| 0 <= j < done@.len() implies sent_batch(
                    all[j].events(),
                    #[trigger] done@[j].events(),
                    old(self).buffer@,
                ) by {
                    if j < k {
                        assert(done@[j] == done@.drop_last()[j]);
                    }
                }
            }
        }
        self.observers = done;
        self.buffer = Vec::new();
    }

    /// Buffers `d`; once the buffer holds more than the limit, hands it on
    /// to every observer as one batch and empties it.
    pub fn push_record(&mut self, d: D)
        ensures
            final(self).spec_limit() == old(self).spec_limit(),
            final(self).observer_count() == old(self).observer_count(),
            final(self).events() == old(self).events(),
            old(self).buffered().len() + 1 > old(self).spec_limit() ==> {
                &&& final(self).buffered().len() == 0
                &&& forall|j: int| 0 <= j < old(self).observer_count() ==> sent_batch(
                    old(self).observer_events(j),
                    #[trigger] final(self).observer_events(j),
                    old(self).buffered().push(d),
                )
            },
            old(self).buffered().len() + 1 <= old(self).spec_limit() ==> {
                &&& final(self).buffered() == old(self).buffered().push(d)
                &&& forall|j: int| 0 <= j < old(self).observer_count() ==> #[trigger] final(self).observer_events(j)
                    == old(self).observer_events(j)
            },
    {
        self.buffer.push(d);
        if self.buffer.len() > self.limit {
            self.flush_buffer();
        }
    }

    /// Tells every observer, in turn, that records at `time` follow.
    pub fn begin(&mut self, time: &O::Time)
        ensures
            final(self).buffered() == old(self).buffered(),
            final(self).spec_limit() == old(self).spec_limit(),
            final(self).observer_count() == old(self).observer_count(),
            final(self).events() == old(self).events(),
            forall|j: int| 0 <= j < old(self).observer_count() ==> #[trigger] final(self).observer_events(j)
                == old(self).observer_events(j).push(Event::Open(*time)),
    {
        let ghost all = self.observers@;
        let n = self.observers.len();
        let mut done: Vec<O> = Vec::new();
        while self.observers.len() > 0
            invariant
                all.len() == n,
                done@.len() + self.observers@.len() == n,
                self.observers@ == all.skip(done@.len() as int),
                self.limit == old(self).limit,
                self.buffer == old(self).buffer,
                self.log == old(self).log,
                forall|j: int| 0 <= j < done@.len() ==> #[trigger] done@[j].events() == all[j].events().push(
                    Event::Open(*time),
                ),
            decreases self.observers@.len(),
        {
            let mut o = self.observers.remove(0);
            proof {
                assert(o == all[done@.len() as int]);
            }
            o.open(time);
            done.push(o);
            proof {
                assert(self.observers@ =~= all.skip(done@.len() as int));
            }
        }
        self.observers = done;
    }

    /// Hands on what is buffered, if anything, then tells every observer,
    /// in turn, that `time` is shut.
    pub fn close(&mut self, time: &O::Time)
        ensures
            final(self).buffered().len() == 0,
            final(self).spec_limit() == old(self).spec_limit(),
            final(self).observer_count() == old(self).observer_count(),
            final(self).events() == old(self).events(),
            forall|j: int| 0 <= j < old(self).observer_count() ==> {
                let e = #[trigger] final(self).observer_events(j);
                &&& e.len() > 0
                &&& e.last() == Event::<O::Time, Vec<D>>::Shut(*time)
                &&& old(self).buffered().len() > 0 ==> sent_batch(old(self).observer_events(j), e.drop_last(), old(self).buffered())
                &&& old(self).buffered().len() == 0 ==> e.drop_last() == old(self).observer_events(j)
            },
    {
        if self.buffer.len() > 0 {
            self.flush_buffer();
        }
        let ghost mid = *self;
        let ghost all = self.observers@;
        let n = self.observers.len();
        let mut done: Vec<O> = Vec::new();
        while self.observers.len() > 0
            invariant
                all.len() == n,
                done@.len() + self.observers@.len() == n,
                self.observers@ == all.skip(done@.len() as int),
                self.limit == old(self).limit,
                self.buffer@.len() == 0,
                self.log == old(self).log,
                forall|j: int| 0 <= j < done@.len() ==> #[trigger] done@[j].events() == all[j].events().push(
                    Event::Shut(*time),
                ),
            decreases self.observers@.len(),
        {
            let mut o = self.observers.remove(0);
            proof {
                assert(o == all[done@.len() as int]);
            }
            o.shut(time);
            done.push(o);
            proof {
                assert(self.observers@ =~= all.skip(done@.len() as int));
            }
        }
        self.observers = done;
        proof {
            assert forall|j: int| 0 <= j < old(self).observer_count() implies ({
                let e = #[trigger] self.observer_events(j);
                &&& e.len() > 0
                &&& e.last() == Event::<O::Time, Vec<D>>::Shut(*time)
                &&& old(self).buffered().len() > 0 ==> sent_batch(old(self).observer_events(j), e.drop_last(), old(self).buffered())
                &&& old(self).buffered().len() == 0 ==> e.drop_last() == old(self).observer_events(j)
            }) by {
                assert(self.observer_events(j) == mid.observer_events(j).push(Event::Shut(*time)));
                assert(self.observer_events(j).drop_last() =~= mid.observer_events(j));
            }
        }
    }

    /// The observers, in the order they were added.
    pub fn observers(&self) -> (r: &Vec<O>)
        ensures
            r@.len() == self.observer_count(),
            forall|j: int| 0 <= j < self.observer_count() ==> #[trigger] r@[j].events() == self.observer_events(j),
    {
        &self.observers
    }
}

impl<D: Data, O: Observer<Data = Vec<D>>> Observer for OutputPort<D, O> {
    type Time = O::Time;
    type Data = D;

    closed spec fn events(&self) -> Seq<Event<O::Time, D>> {
        self.log@
    }

    fn open(&mut self, time: &O::Time)
        ensures
            final(self).buffered() == old(self).buffered(),
            final(self).observer_count() == old(self).observer_count(),
            forall|j: int| 0 <= j < old(self).observer_count() ==> #[trigger] final(self).observer_events(j)
                == old(self).observer_events(j).push(Event::Open(*time)),
    {
        self.log = Ghost(self.log@.push(Event::Open(*time)));
        self.begin(time);
    }

    fn show(&mut self, data: &D)
        ensures
            final(self).observer_count() == old(self).observer_count(),
            old(self).buffered().len() + 1 > old(self).spec_limit() ==> final(self).buffered().len() == 0
                && forall|j: int| 0 <= j < old(self).observer_count() ==> sent_batch(
                    old(self).observer_events(j),
                    #[trigger] final(self).observer_events(j),
                    old(self).buffered().push(*data),
                ),
            old(self).buffered().len() + 1 <= old(self).spec_limit() ==> final(self).buffered()
                == old(self).buffered().push(*data) && forall|j: int| 0 <= j < old(self).observer_count()
                ==> #[trigger] final(self).observer_events(j) == old(self).observer_events(j),
    {
        self.log = Ghost(self.log@.push(Event::Show(*data)));
        self.push_record(*data);
    }

    fn give(&mut self, data: D)
        ensures
            final(self).observer_count() == old(self).observer_count(),
            old(self).buffered().len() + 1 > old(self).spec_limit() ==> final(self).buffered().len() == 0
                && forall|j: int| 0 <= j < old(self).observer_count() ==> sent_batch(
                    old(self).observer_events(j),
                    #[trigger] final(self).observer_events(j),
                    old(self).buffered().push(data),
                ),
            old(self).buffered().len() + 1 <= old(self).spec_limit() ==> final(self).buffered()
                == old(self).buffered().push(data) && forall|j: int| 0 <= j < old(self).observer_count()
                ==> #[trigger] final(self).observer_events(j) == old(self).observer_events(j),
    {
        self.log = Ghost(self.log@.push(Event::Give(data)));
        self.push_record(data);
    }

    fn shut(&mut self, time: &O::Time)
        ensures
            final(self).buffered().len() == 0,
            final(self).observer_count() == old(self).observer_count(),
            forall|j: int| 0 <= j < old(self).observer_count() ==> {
                let e = #[trigger] final(self).observer_events(j);
                &&& e.len() > 0
                &&& e.last() == Event::<O::Time, Vec<D>>::Shut(*time)
                &&& old(self).buffered().len() > 0 ==> sent_batch(old(self).observer_events(j), e.drop_last(), old(self).buffered())
                &&& old(self).buffered().len() == 0 ==> e.drop_last() == old(self).observer_events(j)
            },
    {
        self.log = Ghost(self.log@.push(Event::Shut(*time)));
        self.close(time);
    }
}

/// An observer that keeps what it is sent: each record with the timestamp
/// opened last, and the timestamps opened and shut.
#[verifier::reject_recursive_types(D)]
pub struct Capture<D: Data> {
    current: Product,
    records: Vec<(Product, D)>,
    opened: Vec<Product>,
    closed: Vec<Product>,
    log: Ghost<Seq<Event<Product, D>>>,
}

impl<D: Data> Capture<D> {
    /// The records received, each with the timestamp open when it came.
    pub closed spec fn captured(&self) -> Seq<(Product, D)> {
        self.records@
    }

    pub closed spec fn spec_opened(&self) -> Seq<Product> {
        self.opened@
    }

    pub closed spec fn spec_closed(&self) -> Seq<Product> {
        self.closed@
    }

    pub closed spec fn spec_current(&self) -> Product {
        self.current
    }

    /// A capture that has received nothing.
    pub fn new() -> (r: Capture<D>)
        ensures
            r.captured().len() == 0,
            r.spec_opened().len() == 0,
            r.spec_closed().len() == 0,
            r.events().len() == 0,
            r.spec_current() == Product::spec_minimum(),
    {
        Capture {
            current: Product::minimum(),
            records: Vec::new(),
            opened: Vec::new(),
            closed: Vec::new(),
            log: Ghost(Seq::empty()),
        }
    }

    /// The records received, each with its timestamp.
    pub fn records(&self) -> (r: &Vec<(Product, D)>)
        ensures
            r@ == self.captured(),
    {
        &self.records
    }

    /// The timestamps opened, in order.
    pub fn opened(&self) -> (r: &Vec<Product>)
        ensures
            r@ == self.spec_opened(),
    {
        &self.opened
    }

    /// The timestamps shut, in order.
    pub fn closed(&self) -> (r: &Vec<Product>)
        ensures
            r@ == self.spec_closed(),
    {
        &self.closed
    }
}

impl<D: Data> Observer for Capture<D> {
    type Time = Product;
    type Data = D;

    closed spec fn events(&self) -> Seq<Event<Product, D>> {
        self.log@
    }

    fn open(&mut self, time: &Product)
        ensures
            final(self).spec_current() == *time,
            final(self).spec_opened() == old(self).spec_opened().push(*time),
            final(self).spec_closed() == old(self).spec_closed(),
            final(self).captured() == old(self).captured(),
    {
        self.current = *time;
        self.opened.push(*time);
        self.log = Ghost(self.log@.push(Event::Open(*time)));
    }

    fn show(&mut self, data: &D)
        ensures
            final(self).captured() == old(self).captured().push((old(self).spec_current(), *data)),
            final(self).spec_current() == old(self).spec_current(),
            final(self).spec_opened() == old(self).spec_opened(),
            final(self).spec_closed() == old(self).spec_closed(),
    {
        self.records.push((self.current, *data));
        self.log = Ghost(self.log@.push(Event::Show(*data)));
    }

    fn give(&mut self, data: D)
        ensures
            final(self).captured() == old(self).captured().push((old(self).spec_current(), data)),
            final(self).spec_current() == old(self).spec_current(),
            final(self).spec_opened() == old(self).spec_opened(),
            final(self).spec_closed() == old(self).spec_closed(),
    {
        self.records.push((self.current, data));
        self.log = Ghost(self.log@.push(Event::Give(data)));
    }

    fn shut(&mut self, time: &Product)
        ensures
            final(self).spec_closed() == old(self).spec_closed().push(*time),
            final(self).spec_current() == old(self).spec_current(),
            final(self).spec_opened() == old(self).spec_opened(),
            final(self).captured() == old(self).captured(),
    {
        self.closed.push(*time);
        self.log = Ghost(self.log@.push(Event::Shut(*time)));
    }
}

} // verus!
