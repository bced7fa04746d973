//! Accumulating multisets of timestamps with signed counts.
use vstd::prelude::*;
use crate::order::Product;

verus! {

/// The total count that a list of `(time, delta)` updates gives to `t`.
pub open spec fn sum_of(s: Seq<(Product, i64)>, t: Product) -> int
    decreases s.len(),
{
    if s.len() == 0 {
        0
    } else {
        sum_of(s.drop_last(), t) + if s.last().0 == t { s.last().1 as int } else { 0 }
    }
}

/// Updates that name each time at most once, each with a nonzero count.
pub open spec fn consolidated(s: Seq<(Product, i64)>) -> bool {
    &&& forall|i: int, j: int| 0 <= i < j < s.len() ==> s[i].0 != s[j].0
    &&& forall|i: int| 0 <= i < s.len() ==> s[i].1 != 0
}

pub proof fn lemma_sum_absent(s: Seq<(Product, i64)>, t: Product)
    requires
        forall|i: int| 0 <= i < s.len() ==> s[i].0 != t,
    ensures
        sum_of(s, t) == 0,
    decreases s.len(),
{
    if s.len() > 0 {
        lemma_sum_absent(s.drop_last(), t);
    }
}

pub proof fn lemma_sum_at(s: Seq<(Product, i64)>, i: int)
    requires
        consolidated(s),
        0 <= i < s.len(),
    ensures
        sum_of(s, s[i].0) == s[i].1,
    decreases s.len(),
{
    if i == s.len() - 1 {
        lemma_sum_absent(s.drop_last(), s[i].0);
    } else {
        lemma_sum_at(s.drop_last(), i);
    }
}

pub proof fn lemma_sum_update(s: Seq<(Product, i64)>, i: int, c: i64, u: Product)
    requires
        0 <= i < s.len(),
    ensures
        sum_of(s.update(i, (s[i].0, c)), u) == sum_of(s, u) + if s[i].0 == u {
            c - s[i].1
        } else {
            0
        },
    decreases s.len(),
{
    let s2 = s.update(i, (s[i].0, c));
    if i < s.len() - 1 {
        assert(s2.drop_last() =~= s.drop_last().update(i, (s[i].0, c)));
        lemma_sum_update(s.drop_last(), i, c, u);
    } else {
        assert(s2.drop_last() =~= s.drop_last());
    }
}

pub proof fn lemma_sum_remove(s: Seq<(Product, i64)>, i: int, u: Product)
    requires
        0 <= i < s.len(),
    ensures
        sum_of(s.remove(i), u) == sum_of(s, u) - if s[i].0 == u { s[i].1 as int } else { 0 },
    decreases s.len(),
{
    if i < s.len() - 1 {
        assert(s.remove(i).drop_last() =~= s.drop_last().remove(i));
        lemma_sum_remove(s.drop_last(), i, u);
    } else {
        assert(s.remove(i) =~= s.drop_last());
    }
}

/// A multiset of `(time, delta)` pairs, kept consolidated: each time appears
/// at most once and only with a nonzero count.
pub struct ChangeBatch {
    updates: Vec<(Product, i64)>,
}

impl ChangeBatch {
    /// The accumulated count of `t`.
    pub closed spec fn count(&self, t: Product) -> int {
        sum_of(self.updates@, t)
    }

    /// The stored updates.
    pub closed spec fn entries(&self) -> Seq<(Product, i64)> {
        self.updates@
    }

    pub closed spec fn wf(&self) -> bool {
        consolidated(self.updates@)
    }

    /// Whether every count is zero.
    pub open spec fn is_zero(&self) -> bool {
        forall|t: Product| #[trigger] self.count(t) == 0
    }

    pub proof fn lemma_entries(&self)
        requires
            self.wf(),
        ensures
            consolidated(self.entries()),
            forall|t: Product| #[trigger] self.count(t) == sum_of(self.entries(), t),
    {
    }

    /// Every count fits in an `i64`.
    pub proof fn lemma_count_range(&self, t: Product)
        requires
            self.wf(),
        ensures
            i64::MIN <= self.count(t) <= i64::MAX,
    {
        if exists|i: int| 0 <= i < self.updates@.len() && self.updates@[i].0 == t {
            let i = choose|i: int| 0 <= i < self.updates@.len() && self.updates@[i].0 == t;
            lemma_sum_at(self.updates@, i);
        } else {
            lemma_sum_absent(self.updates@, t);
        }
    }

    /// An empty batch.
    pub fn new() -> (r: ChangeBatch)
        ensures
            r.wf(),
            r.is_zero(),
    {
        ChangeBatch { updates: Vec::new() }
    }

    /// Adds `delta` to the count of `t`.
    pub fn update(&mut self, t: Product, delta: i64)
        requires
            old(self).wf(),
            i64::MIN <= old(self).count(t) + delta <= i64::MAX,
        ensures
            final(self).wf(),
            final(self).count(t) == old(self).count(t) + delta,
            forall|u: Product| u != t ==> #[trigger] final(self).count(u) == old(self).count(u),
    {
        let ghost s = self.updates@;
        let mut i: usize = 0;
        while i < self.updates.len()
            invariant
                self.updates@ == s,
                consolidated(s),
                s == old(self).updates@,
                i64::MIN <= sum_of(s, t) + delta <= i64::MAX,
                0 <= i <= s.len(),
                forall|j: int| 0 <= j < i ==> s[j].0 != t,
            decreases s.len() - i,
        {
            if self.updates[i].0 == t {
                proof {
                    lemma_sum_at(s, i as int);
                }
                let c = self.updates[i].1 + delta;
                if c == 0 {
                    self.updates.remove(i);
                    proof {
                        assert forall|u: Product| #[trigger] sum_of(self.updates@, u) == sum_of(s, u)
                            - if s[i as int].0 == u { s[i as int].1 as int } else { 0 } by {
                            lemma_sum_remove(s, i as int, u);
                        }
                    }
                } else {
                    self.updates.set(i, (t, c));
                    proof {
                        assert forall|u: Product| #[trigger] sum_of(self.updates@, u) == sum_of(s, u)
                            + if s[i as int].0 == u { c - s[i as int].1 } else { 0 } by {
                            lemma_sum_update(s, i as int, c, u);
                        }
                    }
                }
                return;
            }
            i = i + 1;
        }
        proof {
            lemma_sum_absent(s, t);
        }
        if delta != 0 {
            self.updates.push((t, delta));
            proof {
                assert(self.updates@.drop_last() =~= s);
            }
        }
    }

    /// The accumulated count of `t`.
    pub fn get(&self, t: &Product) -> (r: i64)
        requires
            self.wf(),
        ensures
            r == self.count(*t),
    {
        let mut i: usize = 0;
        while i < self.updates.len()
            invariant
                0 <= i <= self.updates@.len(),
                consolidated(self.updates@),
                forall|j: int| 0 <= j < i ==> self.updates@[j].0 != *t,
            decreases self.updates@.len() - i,
        {
            if self.updates[i].0 == *t {
                proof {
                    lemma_sum_at(self.updates@, i as int);
                }
                return self.updates[i].1;
            }
            i = i + 1;
        }
        proof {
            lemma_sum_absent(self.updates@, *t);
        }
        0
    }

    /// Whether every count is zero.
    pub fn is_empty(&self) -> (r: bool)
        requires
            self.wf(),
        ensures
            r == self.is_zero(),
    {
        if self.updates.len() == 0 {
            proof {
                assert forall|t: Product| #[trigger] self.count(t) == 0 by {
                    lemma_sum_absent(self.updates@, t);
                }
            }
            true
        } else {
            proof {
                lemma_sum_at(self.updates@, 0);
                assert(self.count(self.updates@[0].0) != 0);
            }
            false
        }
    }

    /// Sets every count to zero.
    pub fn clear(&mut self)
        ensures
            final(self).wf(),
            final(self).is_zero(),
    {
        self.updates = Vec::new();
    }

    /// The nonzero counts, one pair for each time.
    pub fn to_vec(&self) -> (r: Vec<(Product, i64)>)
        requires
            self.wf(),
        ensures
            r@ == self.entries(),
    {
        let mut r: Vec<(Product, i64)> = Vec::new();
        let mut i: usize = 0;
        while i < self.updates.len()
            invariant
                0 <= i <= self.updates@.len(),
                r@ == self.updates@.take(i as int),
            decreases self.updates@.len() - i,
        {
            r.push(self.updates[i]);
            proof {
                assert(self.updates@.take(i + 1) =~= self.updates@.take(i as int).push(self.updates@[i as int]));
            }
            i = i + 1;
        }
        proof {
            assert(self.updates@.take(i as int) =~= self.updates@);
        }
        r
    }

    /// The batch with every count of `self` negated.
    pub fn negated(&self) -> (r: ChangeBatch)
        requires
            self.wf(),
            forall|t: Product| #[trigger] self.count(t) > i64::MIN,
        ensures
            r.wf(),
            forall|t: Product| #[trigger] r.count(t) == -self.count(t),
    {
        let s = &self.updates;
        proof {
            assert forall|t: Product| #[trigger] sum_of(s@, t) > i64::MIN by {
                assert(self.count(t) > i64::MIN);
            }
        }
        let mut r = ChangeBatch::new();
        let mut k: usize = 0;
        while k < s.len()
            invariant
                consolidated(s@),
                s@ == self.updates@,
                forall|t: Product| #[trigger] sum_of(s@, t) > i64::MIN,
                0 <= k <= s@.len(),
                r.wf(),
                forall|t: Product| #[trigger] r.count(t) == -sum_of(s@.take(k as int), t),
            decreases s@.len() - k,
        {
            let (t, c) = s[k];
            proof {
                lemma_sum_at(s@, k as int);
                lemma_sum_absent(s@.take(k as int), t);
            }
            r.update(t, -c);
            proof {
                assert(s@.take(k + 1).drop_last() =~= s@.take(k as int));
            }
            k = k + 1;
        }
        proof {
            assert(s@.take(k as int) =~= s@);
        }
        r
    }

    /// A copy of the batch.
    pub fn duplicate(&self) -> (r: ChangeBatch)
        requires
            self.wf(),
        ensures
            r.wf(),
            forall|t: Product| #[trigger] r.count(t) == self.count(t),
    {
        ChangeBatch { updates: self.to_vec() }
    }

    /// Adds every count of `other` into `self`.
    pub fn extend(&mut self, other: &ChangeBatch)
        requires
            old(self).wf(),
            other.wf(),
            forall|t: Product|
                i64::MIN <= #[trigger] old(self).count(t) + other.count(t) <= i64::MAX,
        ensures
            final(self).wf(),
            forall|t: Product| #[trigger]
                final(self).count(t) == old(self).count(t) + other.count(t),
    {
        let ghost s = other.updates@;
        let ghost o = *self;
        let mut k: usize = 0;
        while k < other.updates.len()
            invariant
                other.updates@ == s,
                consolidated(s),
                0 <= k <= s.len(),
                self.wf(),
                forall|t: Product|
                    i64::MIN <= #[trigger] o.count(t) + sum_of(s, t) <= i64::MAX,
                forall|t: Product| #[trigger]
                    self.count(t) == o.count(t) + sum_of(s.take(k as int), t),
            decreases s.len() - k,
        {
            let (t, d) = other.updates[k];
            proof {
                lemma_sum_at(s, k as int);
                lemma_sum_absent(s.take(k as int), t);
            }
            self.update(t, d);
            proof {
                assert(s.take(k + 1).drop_last() =~= s.take(k as int));
            }
            k = k + 1;
        }
        proof {
            assert(s.take(k as int) =~= s);
        }
    }

    /// Adds every count of `self` into `other` and leaves `self` empty.
    pub fn drain_into(&mut self, other: &mut ChangeBatch)
        requires
            old(self).wf(),
            old(other).wf(),
            forall|t: Product|
                i64::MIN <= #[trigger] old(other).count(t) + old(self).count(t) <= i64::MAX,
        ensures
            final(self).wf(),
            final(self).is_zero(),
            final(other).wf(),
            forall|t: Product| #[trigger]
                final(other).count(t) == old(other).count(t) + old(self).count(t),
    {
        other.extend(self);
        self.clear();
    }
}

/// Puts `x` in place of the `i`th element of `v` and returns the element it replaced.
pub fn replace_at<T>(v: &mut Vec<T>, i: usize, x: T) -> (r: T)
    requires
        i < old(v)@.len(),
    ensures
        r == old(v)@[i as int],
        final(v)@ == old(v)@.update(i as int, x),
{
    let r = v.remove(i);
    v.insert(i, x);
    proof {
        assert(v@ =~= old(v)@.update(i as int, x));
    }
    r
}

/// Every batch of `v` is consolidated.
pub open spec fn all_wf(v: Seq<ChangeBatch>) -> bool {
    forall|i: int| 0 <= i < v.len() ==> (#[trigger] v[i]).wf()
}

/// Moves each batch of `src` into the batch of `dst` at the same place.
pub fn drain_each(src: &mut Vec<ChangeBatch>, dst: &mut Vec<ChangeBatch>)
    requires
        old(src)@.len() == old(dst)@.len(),
        all_wf(old(src)@),
        all_wf(old(dst)@),
        forall|i: int, t: Product| 0 <= i < old(src)@.len() ==> i64::MIN <= #[trigger] old(dst)@[i].count(t)
            + old(src)@[i].count(t) <= i64::MAX,
    ensures
        final(src)@.len() == old(src)@.len(),
        final(dst)@.len() == old(dst)@.len(),
        all_wf(final(src)@),
        all_wf(final(dst)@),
        forall|i: int| 0 <= i < final(src)@.len() ==> (#[trigger] final(src)@[i]).is_zero(),
        forall|i: int, t: Product| 0 <= i < old(src)@.len() ==> #[trigger] final(dst)@[i].count(t)
            == old(dst)@[i].count(t) + old(src)@[i].count(t),
{
    let mut k: usize = 0;
    while k < src.len()
        invariant
            0 <= k <= src@.len(),
            old(src)@.len() == old(dst)@.len(),
            src@.len() == old(src)@.len(),
            dst@.len() == old(dst)@.len(),
            all_wf(src@),
            all_wf(dst@),
            forall|i: int, t: Product| 0 <= i < old(src)@.len() ==> i64::MIN <= #[trigger] old(dst)@[i].count(t)
                + old(src)@[i].count(t) <= i64::MAX,
            forall|i: int| 0 <= i < k ==> (#[trigger] src@[i]).is_zero(),
            forall|i: int| k <= i < src@.len() ==> #[trigger] src@[i] == old(src)@[i],
            forall|i: int| k <= i < dst@.len() ==> #[trigger] dst@[i] == old(dst)@[i],
            forall|i: int, t: Product| 0 <= i < k ==> #[trigger] dst@[i].count(t)
                == old(dst)@[i].count(t) + old(src)@[i].count(t),
        decreases src@.len() - k,
    {
        let mut a = replace_at(src, k, ChangeBatch::new());
        let mut b = replace_at(dst, k, ChangeBatch::new());
        proof {
            assert(a == old(src)@[k as int]);
            assert(b == old(dst)@[k as int]);
            assert forall|t: Product| i64::MIN <= #[trigger] b.count(t) + a.count(t) <= i64::MAX by {
                assert(i64::MIN <= old(dst)@[k as int].count(t) + old(src)@[k as int].count(t) <= i64::MAX);
            }
        }
        a.drain_into(&mut b);
        replace_at(src, k, a);
        replace_at(dst, k, b);
        proof {
            assert forall|i: int, t: Product| 0 <= i < k + 1 implies #[trigger] dst@[i].count(t)
                == old(dst)@[i].count(t) + old(src)@[i].count(t) by {
            }
        }
        k = k + 1;
    }
}

} // verus!
