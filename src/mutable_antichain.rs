//! Frontiers derived from a multiset of timestamps with signed counts.
use vstd::prelude::*;
use crate::order::{Product, le};
use crate::change_batch::{ChangeBatch, consolidated, sum_of, lemma_sum_at, lemma_sum_absent};

verus! {

/// One for a true statement, zero for a false one.
pub open spec fn ind(b: bool) -> int {
    if b { 1 } else { 0 }
}

/// `t` has a positive count and nothing strictly below it does.
pub open spec fn minimal_in(counts: spec_fn(Product) -> int, t: Product) -> bool {
    counts(t) > 0 && forall|u: Product| #[trigger] counts(u) > 0 && le(u, t) ==> u == t
}

proof fn lemma_push_contains(s: Seq<Product>, t: Product, x: Product)
    ensures
        s.push(t).contains(x) <==> (s.contains(x) || x == t),
{
    if s.contains(x) {
        let a = choose|a: int| 0 <= a < s.len() && s[a] == x;
        assert(s.push(t)[a] == x);
    }
    if x == t {
        assert(s.push(t)[s.len() as int] == x);
    }
    if s.push(t).contains(x) && x != t {
        let a = choose|a: int| 0 <= a < s.len() + 1 && s.push(t)[a] == x;
        assert(s[a] == x);
    }
}

proof fn lemma_positive(s: Seq<(Product, i64)>, u: Product)
    requires
        consolidated(s),
        sum_of(s, u) > 0,
    ensures
        exists|j: int| 0 <= j < s.len() && s[j].0 == u && s[j].1 > 0,
{
    if forall|j: int| 0 <= j < s.len() ==> s[j].0 != u {
        lemma_sum_absent(s, u);
    } else {
        let j = choose|j: int| 0 <= j < s.len() && s[j].0 == u;
        lemma_sum_at(s, j);
    }
}

/// An antichain maintained over a multiset of timestamps: its frontier holds
/// exactly the minimal timestamps among those with a positive count.
pub struct MutableAntichain {
    counts: ChangeBatch,
    frontier: Vec<Product>,
}

impl MutableAntichain {
    /// The accumulated count of `t`.
    pub closed spec fn count(&self, t: Product) -> int {
        self.counts.count(t)
    }

    /// Whether `t` stands in the frontier.
    pub open spec fn in_frontier(&self, t: Product) -> bool {
        minimal_in(|u: Product| self.count(u), t)
    }

    /// The frontier, as a sequence.
    pub closed spec fn frontier_seq(&self) -> Seq<Product> {
        self.frontier@
    }

    pub closed spec fn wf(&self) -> bool {
        &&& self.counts.wf()
        &&& self.frontier@.no_duplicates()
        &&& forall|t: Product| #[trigger] self.frontier@.contains(t) <==> self.in_frontier(t)
    }

    /// A multiset with no counts; its frontier is empty.
    pub fn new() -> (r: MutableAntichain)
        ensures
            r.wf(),
            forall|t: Product| #[trigger] r.count(t) == 0,
    {
        MutableAntichain { counts: ChangeBatch::new(), frontier: Vec::new() }
    }

    /// The frontier's elements.
    pub fn frontier(&self) -> (r: &Vec<Product>)
        requires
            self.wf(),
        ensures
            r@ == self.frontier_seq(),
            r@.no_duplicates(),
            forall|t: Product| #[trigger] r@.contains(t) <==> self.in_frontier(t),
    {
        &self.frontier
    }

    /// Whether the frontier is empty: no timestamp has a positive count.
    pub fn is_empty(&self) -> (r: bool)
        requires
            self.wf(),
        ensures
            r == (forall|t: Product| !#[trigger] self.in_frontier(t)),
    {
        if self.frontier.len() == 0 {
            assert forall|t: Product| !#[trigger] self.in_frontier(t) by {
                assert(!self.frontier@.contains(t));
            }
            true
        } else {
            assert(self.frontier@.contains(self.frontier@[0]));
            false
        }
    }

    /// Whether some frontier element is less than or equal to `t`.
    pub fn less_equal(&self, t: &Product) -> (r: bool)
        requires
            self.wf(),
        ensures
            r == exists|f: Product| #[trigger] self.in_frontier(f) && le(f, *t),
    {
        let mut i: usize = 0;
        while i < self.frontier.len()
            invariant
                self.wf(),
                0 <= i <= self.frontier@.len(),
                forall|j: int| 0 <= j < i ==> !le(self.frontier@[j], *t),
            decreases self.frontier@.len() - i,
        {
            if self.frontier[i].less_equal(t) {
                assert(self.frontier@.contains(self.frontier@[i as int]));
                return true;
            }
            i = i + 1;
        }
        proof {
            assert forall|f: Product| #[trigger] self.in_frontier(f) implies !le(f, *t) by {
                assert(self.frontier@.contains(f));
            }
        }
        false
    }

    /// The minimal timestamps with a positive count in `counts`.
    fn minimal_of(counts: &ChangeBatch) -> (r: Vec<Product>)
        requires
            counts.wf(),
        ensures
            r@.no_duplicates(),
            forall|t: Product| #[trigger] r@.contains(t) <==> minimal_in(|u: Product| counts.count(u), t),
    {
        let e = counts.to_vec();
        proof {
            counts.lemma_entries();
        }
        let ghost cf = |u: Product| counts.count(u);
        let mut r: Vec<Product> = Vec::new();
        let mut i: usize = 0;
        while i < e.len()
            invariant
                e@ == counts.entries(),
                consolidated(e@),
                forall|t: Product| #[trigger] counts.count(t) == sum_of(e@, t),
                cf == (|u: Product| counts.count(u)),
                0 <= i <= e@.len(),
                r@.no_duplicates(),
                forall|t: Product| #[trigger] r@.contains(t) <==> (exists|j: int| 0 <= j < i && e@[j].0 == t) && minimal_in(cf, t),
            decreases e@.len() - i,
        {
            let (t, c) = e[i];
            let ghost r0 = r@;
            proof {
                lemma_sum_at(e@, i as int);
            }
            if c > 0 {
                let mut j: usize = 0;
                let mut below = false;
                while j < e.len()
                    invariant
                        0 <= j <= e@.len(),
                        !below ==> forall|k: int| 0 <= k < j ==> !(e@[k].1 > 0 && e@[k].0 != t && le(e@[k].0, t)),
                        below ==> exists|k: int| 0 <= k < e@.len() && e@[k].1 > 0 && e@[k].0 != t && le(e@[k].0, t),
                    decreases e@.len() - j,
                {
                    if !below && e[j].1 > 0 && e[j].0 != t && e[j].0.less_equal(&t) {
                        below = true;
                    }
                    j = j + 1;
                }
                proof {
                    lemma_sum_at(e@, i as int);
                    if below {
                        let k = choose|k: int| 0 <= k < e@.len() && e@[k].1 > 0 && e@[k].0 != t && le(e@[k].0, t);
                        lemma_sum_at(e@, k);
                        assert(cf(e@[k].0) > 0);
                        assert(!minimal_in(cf, t));
                    } else {
                        assert forall|u: Product| #[trigger] cf(u) > 0 && le(u, t) implies u == t by {
                            lemma_positive(e@, u);
                        }
                        assert(minimal_in(cf, t));
                    }
                }
                if !below {
                    proof {
                        assert forall|k: int| 0 <= k < r@.len() implies r@[k] != t by {
                            assert(r@.contains(r@[k]));
                            let j2 = choose|j2: int| 0 <= j2 < i && e@[j2].0 == r@[k];
                        }
                    }
                    r.push(t);
                }
            } else {
                proof {
                    lemma_sum_at(e@, i as int);
                }
            }
            proof {
                assert(r@ == r0 || (r@ == r0.push(t) && minimal_in(cf, t)));
                assert(r@ == r0 ==> (!minimal_in(cf, t) || r0.contains(t)));
                assert forall|x: Product| #[trigger] r@.contains(x) <==> (exists|j: int| 0 <= j < i + 1 && e@[j].0 == x) && minimal_in(cf, x) by {
                    if r@ != r0 {
                        lemma_push_contains(r0, t, x);
                    }
                    if exists|j: int| 0 <= j < i + 1 && e@[j].0 == x {
                        let j = choose|j: int| 0 <= j < i + 1 && e@[j].0 == x;
                        if j < i {
                            assert(exists|j: int| 0 <= j < i && e@[j].0 == x);
                        }
                    }
                    if exists|j: int| 0 <= j < i && e@[j].0 == x {
                        assert(exists|j: int| 0 <= j < i + 1 && e@[j].0 == x);
                    }
                }
            }
            i = i + 1;
        }
        proof {
            assert forall|t: Product| #[trigger] r@.contains(t) <==> minimal_in(cf, t) by {
                if minimal_in(cf, t) {
                    lemma_positive(e@, t);
                }
            }
        }
        r
    }

    /// Applies the signed counts of `updates` and returns how the frontier
    /// moved: `+1` for each time that entered it, `-1` for each that left.
    pub fn update_iter(&mut self, updates: &ChangeBatch) -> (r: ChangeBatch)
        requires
            old(self).wf(),
            updates.wf(),
            forall|t: Product|
                i64::MIN <= #[trigger] old(self).count(t) + updates.count(t) <= i64::MAX,
        ensures
            final(self).wf(),
            forall|t: Product| #[trigger]
                final(self).count(t) == old(self).count(t) + updates.count(t),
            r.wf(),
            forall|t: Product| #[trigger]
                r.count(t) == ind(final(self).in_frontier(t)) - ind(old(self).in_frontier(t)),
    {
        let ghost before = self.frontier@;
        proof {
            assert forall|t: Product|
                i64::MIN <= #[trigger] self.counts.count(t) + updates.count(t) <= i64::MAX by {
                assert(self.counts.count(t) == old(self).count(t));
            }
        }
        self.counts.extend(updates);
        let next = Self::minimal_of(&self.counts);
        let changes = frontier_diff(&self.frontier, &next);
        self.frontier = next;
        proof {
            assert((|u: Product| self.counts.count(u)) =~= (|u: Product| self.count(u)));
            assert forall|t: Product| #[trigger]
                changes.count(t) == ind(self.in_frontier(t)) - ind(old(self).in_frontier(t)) by {
                assert(self.frontier@.contains(t) == self.in_frontier(t));
                assert(before.contains(t) == old(self).in_frontier(t));
            }
        }
        changes
    }
}

/// Whether `v` holds `t`.
fn contains(v: &Vec<Product>, t: &Product) -> (r: bool)
    ensures
        r == v@.contains(*t),
{
    let mut i: usize = 0;
    while i < v.len()
        invariant
            0 <= i <= v@.len(),
            forall|j: int| 0 <= j < i ==> v@[j] != *t,
        decreases v@.len() - i,
    {
        if v[i] == *t {
            assert(v@[i as int] == *t);
            return true;
        }
        i = i + 1;
    }
    false
}

proof fn lemma_take_step(s: Seq<Product>, i: int, x: Product)
    requires
        0 <= i < s.len(),
    ensures
        s.take(i + 1).contains(x) <==> (s.take(i).contains(x) || x == s[i]),
{
    assert(s.take(i + 1) =~= s.take(i).push(s[i]));
    lemma_push_contains(s.take(i), s[i], x);
}

proof fn lemma_take_nodup(s: Seq<Product>, i: int)
    requires
        s.no_duplicates(),
        0 <= i < s.len(),
    ensures
        !s.take(i).contains(s[i]),
{
    if s.take(i).contains(s[i]) {
        let a = choose|a: int| 0 <= a < i && s.take(i)[a] == s[i];
        assert(s[a] == s[i]);
    }
}

/// The signed difference between two frontiers.
fn frontier_diff(before: &Vec<Product>, after: &Vec<Product>) -> (r: ChangeBatch)
    requires
        before@.no_duplicates(),
        after@.no_duplicates(),
    ensures
        r.wf(),
        forall|t: Product| #[trigger]
            r.count(t) == ind(after@.contains(t)) - ind(before@.contains(t)),
{
    let mut r = ChangeBatch::new();
    let mut i: usize = 0;
    while i < before.len()
        invariant
            0 <= i <= before@.len(),
            before@.no_duplicates(),
            r.wf(),
            forall|t: Product| #[trigger]
                r.count(t) == -ind(before@.take(i as int).contains(t) && !after@.contains(t)),
        decreases before@.len() - i,
    {
        let t = before[i];
        proof {
            lemma_take_nodup(before@, i as int);
            assert forall|x: Product| #[trigger] before@.take(i + 1).contains(x) <==> (before@.take(i as int).contains(x) || x == t) by {
                lemma_take_step(before@, i as int, x);
            }
        }
        if !contains(after, &t) {
            r.update(t, -1);
        }
        i = i + 1;
    }
    proof {
        assert(before@.take(i as int) =~= before@);
    }
    let mut j: usize = 0;
    while j < after.len()
        invariant
            0 <= j <= after@.len(),
            after@.no_duplicates(),
            r.wf(),
            forall|t: Product| #[trigger]
                r.count(t) == -ind(before@.contains(t) && !after@.contains(t))
                    + ind(after@.take(j as int).contains(t) && !before@.contains(t)),
        decreases after@.len() - j,
    {
        let t = after[j];
        proof {
            lemma_take_nodup(after@, j as int);
            assert(after@.contains(t)) by {
                assert(after@[j as int] == t);
            }
            assert forall|x: Product| #[trigger] after@.take(j + 1).contains(x) <==> (after@.take(j as int).contains(x) || x == t) by {
                lemma_take_step(after@, j as int, x);
            }
        }
        if !contains(before, &t) {
            r.update(t, 1);
        }
        j = j + 1;
    }
    proof {
        assert(after@.take(j as int) =~= after@);
    }
    r
}

/// Below every timestamp with a positive count lies a minimal one.
pub proof fn lemma_minimal_below(counts: spec_fn(Product) -> int, t: Product)
    requires
        counts(t) > 0,
    ensures
        exists|m: Product| minimal_in(counts, m) && le(m, t),
    decreases t.outer + t.inner,
{
    if !minimal_in(counts, t) {
        let u = choose|u: Product| #[trigger] counts(u) > 0 && le(u, t) && u != t;
        lemma_minimal_below(counts, u);
        let m = choose|m: Product| minimal_in(counts, m) && le(m, u);
        assert(le(m, t));
    } else {
        assert(le(t, t));
    }
}

/// Frontiers do not retreat: if every time that gains count lies at or above
/// the frontier before an update, then every element of the frontier after
/// it lies at or above some element of the frontier before it.
pub proof fn lemma_frontier_advances(
    before: MutableAntichain,
    updates: ChangeBatch,
    after: MutableAntichain,
)
    requires
        forall|t: Product| #[trigger] after.count(t) == before.count(t) + updates.count(t),
        forall|t: Product| #[trigger] updates.count(t) > 0 ==> exists|f: Product|
            before.in_frontier(f) && le(f, t),
    ensures
        forall|t: Product| #[trigger] after.in_frontier(t) ==> exists|f: Product|
            before.in_frontier(f) && le(f, t),
{
    assert forall|t: Product| #[trigger] after.in_frontier(t) implies exists|f: Product|
        before.in_frontier(f) && le(f, t) by {
        if updates.count(t) <= 0 {
            assert(before.count(t) > 0);
            lemma_minimal_below(|u: Product| before.count(u), t);
        }
    }
}

/// A port drains in one update: when the update retracts every count the
/// multiset holds, the frontier after it is empty.
pub proof fn lemma_frontier_drains(before: MutableAntichain, updates: ChangeBatch, after: MutableAntichain)
    requires
        forall|t: Product| #[trigger] after.count(t) == before.count(t) + updates.count(t),
        forall|t: Product| #[trigger] updates.count(t) == -before.count(t),
    ensures
        forall|t: Product| !#[trigger] after.in_frontier(t),
{
    assert forall|t: Product| !#[trigger] after.in_frontier(t) by {
        assert(after.count(t) == before.count(t) + updates.count(t));
        assert(updates.count(t) == -before.count(t));
    }
}

} // verus!
