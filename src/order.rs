//! Partially ordered timestamps and the summaries that advance them.
use vstd::prelude::*;

verus! {

/// A timestamp made of two counters, ordered pointwise: an outer epoch and an
/// inner iteration. Two timestamps may be incomparable.
#[derive(Clone, Copy, PartialEq, Eq, Structural, Debug, Hash)]
pub struct Product {
    pub outer: u64,
    pub inner: u64,
}

/// The partial order on timestamps (and on summaries, which share the type).
pub open spec fn le(a: Product, b: Product) -> bool {
    a.outer <= b.outer && a.inner <= b.inner
}

/// Applies summary `s` to timestamp `t`: both counters advance, and the
/// result is absent where a counter would leave the range of `u64`.
pub open spec fn apply_spec(s: Product, t: Product) -> Option<Product> {
    if t.outer + s.outer <= u64::MAX && t.inner + s.inner <= u64::MAX {
        Some(Product { outer: (t.outer + s.outer) as u64, inner: (t.inner + s.inner) as u64 })
    } else {
        None
    }
}

impl Product {
    /// The least timestamp.
    pub open spec fn spec_minimum() -> Product {
        Product { outer: 0, inner: 0 }
    }

    /// Builds a timestamp from its two counters.
    pub fn new(outer: u64, inner: u64) -> (r: Product)
        ensures
            r.outer == outer,
            r.inner == inner,
    {
        Product { outer, inner }
    }

    /// The least timestamp: every timestamp is above it.
    pub fn minimum() -> (r: Product)
        ensures
            r == (Product { outer: 0, inner: 0 }),
            forall|t: Product| le(r, t),
    {
        Product { outer: 0, inner: 0 }
    }

    /// Whether `self` is less than or equal to `other` in the partial order.
    pub fn less_equal(&self, other: &Product) -> (r: bool)
        ensures
            r == le(*self, *other),
    {
        self.outer <= other.outer && self.inner <= other.inner
    }

    /// Applies `self`, read as a summary, to the timestamp `t`.
    pub fn results_in(&self, t: &Product) -> (r: Option<Product>)
        ensures
            r == apply_spec(*self, *t),
    {
        match (t.outer.checked_add(self.outer), t.inner.checked_add(self.inner)) {
            (Some(o), Some(i)) => Some(Product { outer: o, inner: i }),
            _ => None,
        }
    }

    /// The summary that first applies `self` and then `other`.
    pub fn followed_by(&self, other: &Product) -> (r: Option<Product>)
        ensures
            r == apply_spec(*other, *self),
    {
        other.results_in(self)
    }
}

/// The order is reflexive, antisymmetric and transitive.
pub proof fn lemma_le_partial_order(a: Product, b: Product, c: Product)
    ensures
        le(a, a),
        le(a, b) && le(b, a) ==> a == b,
        le(a, b) && le(b, c) ==> le(a, c),
{
}

/// Applying a summary is monotone in the timestamp.
pub proof fn lemma_apply_monotone(s: Product, t1: Product, t2: Product)
    requires
        le(t1, t2),
        apply_spec(s, t2).is_some(),
    ensures
        apply_spec(s, t1).is_some(),
        le(apply_spec(s, t1).unwrap(), apply_spec(s, t2).unwrap()),
{
}

/// Applying a summary never moves a timestamp backwards.
pub proof fn lemma_apply_advances(s: Product, t: Product)
    requires
        apply_spec(s, t).is_some(),
    ensures
        le(t, apply_spec(s, t).unwrap()),
{
}

} // verus!
