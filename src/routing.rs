//! Moving records: routing them between workers, and transforming them one
//! by one on the way.
use vstd::prelude::*;

verus! {

/// What records must offer to travel through a dataflow.
pub trait Data: Copy {
}

impl Data for u64 {
}

impl Data for u32 {
}

impl Data for i64 {
}

impl Data for usize {
}

/// The records of `data` that the routing values `hashes` send to worker `w`
/// of `peers`, in the order they arrive.
pub open spec fn routed<D>(data: Seq<D>, hashes: Seq<u64>, peers: nat, w: int) -> Seq<D>
    decreases data.len(),
{
    if data.len() == 0 || hashes.len() != data.len() {
        seq![]
    } else if hashes.last() as int % peers as int == w {
        routed(data.drop_last(), hashes.drop_last(), peers, w).push(data.last())
    } else {
        routed(data.drop_last(), hashes.drop_last(), peers, w)
    }
}

/// The number of records that workers `0..n` receive in all.
pub open spec fn delivered<D>(data: Seq<D>, hashes: Seq<u64>, peers: nat, n: nat) -> nat
    decreases n,
{
    if n == 0 {
        0
    } else {
        delivered(data, hashes, peers, (n - 1) as nat) + routed(data, hashes, peers, n - 1).len()
    }
}

/// The worker that a routing value selects among `peers`.
pub fn route(hash: u64, peers: usize) -> (r: usize)
    requires
        peers > 0,
    ensures
        r == hash as int % peers as int,
        r < peers,
{
    (hash % (peers as u64)) as usize
}

/// Routes records between workers.
pub trait Exchange<D: Data>: Sized {
    /// Splits the records into one part for each of `peers` workers: each
    /// record goes to the worker that `route` of it selects, modulo `peers`.
    fn exchange<F: Fn(&D) -> u64>(&self, peers: usize, route: F) -> (r: Vec<Vec<D>>)
        requires
            peers > 0,
            forall|d: &D| route.requires((d,)),
        ensures
            r@.len() == peers,
            exists|hashes: Seq<u64>|
                hashes.len() == Self::records(self).len()
                && (forall|w: int| 0 <= w < peers ==> (#[trigger] r@[w])@ == routed(Self::records(self), hashes, peers as nat, w))
                && forall|i: int| 0 <= i < hashes.len()
                    ==> route.ensures((&Self::records(self)[i],), #[trigger] hashes[i]),
    ;

    /// The records held, in order.
    spec fn records(s: &Self) -> Seq<D>;
}

impl<D: Data> Exchange<D> for Vec<D> {
    open spec fn records(s: &Self) -> Seq<D> {
        s@
    }

    fn exchange<F: Fn(&D) -> u64>(&self, peers: usize, route_of: F) -> (r: Vec<Vec<D>>) {
        let mut parts: Vec<Vec<D>> = Vec::new();
        let mut w: usize = 0;
        while w < peers
            invariant
                0 <= w <= peers,
                parts@.len() == w,
                forall|j: int| 0 <= j < w ==> (#[trigger] parts@[j])@.len() == 0,
            decreases peers - w,
        {
            parts.push(Vec::new());
            w = w + 1;
        }
        let ghost mut hashes: Seq<u64> = seq![];
        let mut i: usize = 0;
        while i < self.len()
            invariant
                peers > 0,
                forall|d: &D| route_of.requires((d,)),
                0 <= i <= self@.len(),
                parts@.len() == peers,
                hashes.len() == i,
                forall|k: int| 0 <= k < i ==> route_of.ensures((&self@[k],), #[trigger] hashes[k]),
                forall|j: int| 0 <= j < peers ==> (#[trigger] parts@[j])@ == routed(self@.take(i as int), hashes, peers as nat, j),
            decreases self@.len() - i,
        {
            let d = self[i];
            let h = route_of(&d);
            let target = route(h, peers);
            let mut part = crate::change_batch::replace_at(&mut parts, target, Vec::new());
            part.push(d);
            crate::change_batch::replace_at(&mut parts, target, part);
            proof {
                let ghost h0 = hashes;
                hashes = hashes.push(h);
                assert(self@.take(i + 1).drop_last() =~= self@.take(i as int));
                assert(hashes.drop_last() =~= h0);
                assert forall|j: int| 0 <= j < peers implies (#[trigger] parts@[j])@ == routed(
                    self@.take(i + 1),
                    hashes,
                    peers as nat,
                    j,
                ) by {
                }
            }
            i = i + 1;
        }
        proof {
            assert(self@.take(i as int) =~= self@);
        }
        parts
    }
}

/// Adding one record delivers it to exactly one of the workers `0..n` if its
/// worker is below `n`, and to none otherwise.
proof fn lemma_delivered_push<D>(data: Seq<D>, hashes: Seq<u64>, d: D, h: u64, peers: nat, n: nat)
    requires
        peers > 0,
        hashes.len() == data.len(),
    ensures
        delivered(data.push(d), hashes.push(h), peers, n) == delivered(data, hashes, peers, n)
            + if (h as int % peers as int) < n { 1nat } else { 0nat },
    decreases n,
{
    if n > 0 {
        lemma_delivered_push(data, hashes, d, h, peers, (n - 1) as nat);
        assert(data.push(d).drop_last() =~= data);
        assert(hashes.push(h).drop_last() =~= hashes);
    }
}

/// Exchange routing: every record is delivered exactly once in all, and only
/// to the worker that its routing value selects, where it keeps its order.
pub proof fn lemma_exchange_routes<D>(data: Seq<D>, hashes: Seq<u64>, peers: nat)
    requires
        peers > 0,
        hashes.len() == data.len(),
    ensures
        delivered(data, hashes, peers, peers) == data.len(),
        forall|w: int, k: int| 0 <= w < peers && 0 <= k < routed(data, hashes, peers, w).len() ==> exists|i: int|
            0 <= i < data.len() && data[i] == #[trigger] routed(data, hashes, peers, w)[k] && hashes[i] as int % peers as int == w,
    decreases data.len(),
{
    if data.len() == 0 {
        lemma_delivered_empty(data, hashes, peers, peers);
    } else {
        let d0 = data.drop_last();
        let h0 = hashes.drop_last();
        lemma_exchange_routes(d0, h0, peers);
        assert(d0.push(data.last()) =~= data);
        assert(h0.push(hashes.last()) =~= hashes);
        lemma_delivered_push(d0, h0, data.last(), hashes.last(), peers, peers);
        assert forall|w: int, k: int| 0 <= w < peers && 0 <= k < routed(data, hashes, peers, w).len() implies exists|i: int|
            0 <= i < data.len() && data[i] == #[trigger] routed(data, hashes, peers, w)[k] && hashes[i] as int % peers as int == w by {
            if k < routed(d0, h0, peers, w).len() {
                let i = choose|i: int| 0 <= i < d0.len() && d0[i] == #[trigger] routed(d0, h0, peers, w)[k] && h0[i] as int % peers as int == w;
                assert(data[i] == d0[i]);
                assert(hashes[i] == h0[i]);
            } else {
                assert(data[data.len() - 1] == data.last());
            }
        }
    }
}

proof fn lemma_delivered_empty<D>(data: Seq<D>, hashes: Seq<u64>, peers: nat, n: nat)
    requires
        data.len() == 0,
    ensures
        delivered(data, hashes, peers, n) == 0,
    decreases n,
{
    if n > 0 {
        lemma_delivered_empty(data, hashes, peers, (n - 1) as nat);
    }
}

/// Transforms records one by one.
pub trait RecordMap<D: Data>: Sized {
    /// Each record replaced by what `logic` makes of it, in order.
    fn map<D2: Data, F: Fn(D) -> D2>(&self, logic: F) -> (r: Vec<D2>)
        requires
            forall|d: D| logic.requires((d,)),
        ensures
            r@.len() == Self::items(self).len(),
            forall|i: int| 0 <= i < r@.len() ==> logic.ensures((Self::items(self)[i],), #[trigger] r@[i]),
    ;

    /// Each record replaced by the records that `logic` makes of it, in order.
    fn flat_map<D2: Data, F: Fn(D) -> Vec<D2>>(&self, logic: F) -> (r: Vec<D2>)
        requires
            forall|d: D| logic.requires((d,)),
        ensures
            exists|outs: Seq<Vec<D2>>|
                outs.len() == Self::items(self).len() && (forall|i: int| 0 <= i < outs.len()
                    ==> logic.ensures((Self::items(self)[i],), #[trigger] outs[i])) && r@ == flatten_views(outs),
    ;

    /// The records held, in order.
    spec fn items(s: &Self) -> Seq<D>;
}

/// The records of each vector in turn.
pub open spec fn flatten_views<D2>(outs: Seq<Vec<D2>>) -> Seq<D2>
    decreases outs.len(),
{
    if outs.len() == 0 {
        seq![]
    } else {
        flatten_views(outs.drop_last()) + outs.last()@
    }
}

impl<D: Data> RecordMap<D> for Vec<D> {
    open spec fn items(s: &Self) -> Seq<D> {
        s@
    }

    fn map<D2: Data, F: Fn(D) -> D2>(&self, logic: F) -> (r: Vec<D2>) {
        let mut r: Vec<D2> = Vec::new();
        let mut i: usize = 0;
        while i < self.len()
            invariant
                forall|d: D| logic.requires((d,)),
                0 <= i <= self@.len(),
                r@.len() == i,
                forall|k: int| 0 <= k < i ==> logic.ensures((self@[k],), #[trigger] r@[k]),
            decreases self@.len() - i,
        {
            let y = logic(self[i]);
            r.push(y);
            i = i + 1;
        }
        r
    }

    fn flat_map<D2: Data, F: Fn(D) -> Vec<D2>>(&self, logic: F) -> (r: Vec<D2>) {
        let mut r: Vec<D2> = Vec::new();
        let ghost mut outs: Seq<Vec<D2>> = seq![];
        let mut i: usize = 0;
        while i < self.len()
            invariant
                forall|d: D| logic.requires((d,)),
                0 <= i <= self@.len(),
                outs.len() == i,
                forall|k: int| 0 <= k < i ==> logic.ensures((self@[k],), #[trigger] outs[k]),
                r@ == flatten_views(outs),
            decreases self@.len() - i,
        {
            let ys = logic(self[i]);
            let ghost before = r@;
            let mut j: usize = 0;
            while j < ys.len()
                invariant
                    0 <= j <= ys@.len(),
                    r@ == before + ys@.take(j as int),
                decreases ys@.len() - j,
            {
                r.push(ys[j]);
                proof {
                    assert(ys@.take(j + 1) =~= ys@.take(j as int).push(ys@[j as int]));
                    assert(before + ys@.take(j + 1) =~= (before + ys@.take(j as int)).push(ys@[j as int]));
                }
                j = j + 1;
            }
            proof {
                let o0 = outs;
                assert(ys@.take(j as int) =~= ys@);
                outs = outs.push(ys);
                assert(outs.drop_last() =~= o0);
            }
            i = i + 1;
        }
        r
    }
}

} // verus!
