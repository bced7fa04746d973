//! Antichains: sets of mutually incomparable timestamps.
use vstd::prelude::*;
use crate::order::{Product, le};

verus! {

/// Elements that are pairwise incomparable (and so also distinct).
pub open spec fn incomparable(s: Seq<Product>) -> bool {
    forall|i: int, j: int| 0 <= i < s.len() && 0 <= j < s.len() && i != j ==> !le(s[i], s[j])
}

/// Whether some element of `s` is less than or equal to `t`.
pub open spec fn dominated(s: Seq<Product>, t: Product) -> bool {
    exists|i: int| 0 <= i < s.len() && le(s[i], t)
}

/// A set of mutually incomparable timestamps. The empty antichain says
/// that no further timestamp is possible.
pub struct Antichain {
    elements: Vec<Product>,
}

impl View for Antichain {
    type V = Seq<Product>;

    closed spec fn view(&self) -> Seq<Product> {
        self.elements@
    }
}

impl Antichain {
    pub closed spec fn wf(&self) -> bool {
        incomparable(self.elements@)
    }

    /// An empty antichain.
    pub fn new() -> (r: Antichain)
        ensures
            r.wf(),
            r@.len() == 0,
    {
        Antichain { elements: Vec::new() }
    }

    /// The antichain holding `t` alone.
    pub fn from_elem(t: Product) -> (r: Antichain)
        ensures
            r.wf(),
            r@ == seq![t],
    {
        let mut elements: Vec<Product> = Vec::new();
        elements.push(t);
        Antichain { elements }
    }

    /// Whether some element is less than or equal to `t`.
    pub fn less_equal(&self, t: &Product) -> (r: bool)
        ensures
            r == dominated(self@, *t),
    {
        let mut i: usize = 0;
        while i < self.elements.len()
            invariant
                0 <= i <= self.elements@.len(),
                forall|j: int| 0 <= j < i ==> !le(self.elements@[j], *t),
            decreases self.elements@.len() - i,
        {
            if self.elements[i].less_equal(t) {
                return true;
            }
            i = i + 1;
        }
        false
    }

    /// Whether the antichain is empty.
    pub fn is_empty(&self) -> (r: bool)
        ensures
            r == (self@.len() == 0),
    {
        self.elements.len() == 0
    }

    /// The elements, in the order they were inserted.
    pub fn elements(&self) -> (r: &Vec<Product>)
        ensures
            r@ == self@,
    {
        &self.elements
    }

    /// Inserts `t` unless an element already lies at or below it; elements
    /// at or above `t` are removed. Returns whether `t` was inserted.
    pub fn insert(&mut self, t: Product) -> (r: bool)
        requires
            old(self).wf(),
        ensures
            final(self).wf(),
            r == !dominated(old(self)@, t),
            r ==> forall|x: Product| #[trigger] final(self)@.contains(x) <==> (x == t || (
                old(self)@.contains(x) && !le(t, x))),
            !r ==> final(self)@ == old(self)@,
    {
        if self.less_equal(&t) {
            return false;
        }
        let ghost s = self.elements@;
        let mut kept: Vec<Product> = Vec::new();
        let mut i: usize = 0;
        while i < self.elements.len()
            invariant
                self.elements@ == s,
                incomparable(s),
                !dominated(s, t),
                0 <= i <= s.len(),
                incomparable(kept@),
                forall|a: int| 0 <= a < kept@.len() ==> !le(t, #[trigger] kept@[a]) && exists|j: int|
                    0 <= j < i && kept@[a] == s[j],
                forall|x: Product| #[trigger] kept@.contains(x) <==> (exists|j: int|
                    0 <= j < i && s[j] == x && !le(t, x)),
            decreases s.len() - i,
        {
            let e = self.elements[i];
            if !t.less_equal(&e) {
                proof {
                    assert forall|a: int| 0 <= a < kept@.len() implies !le(kept@[a], e) && !le(
                        e,
                        kept@[a],
                    ) by {
                        let j = choose|j: int| 0 <= j < i && kept@[a] == s[j];
                        assert(j != i);
                    }
                }
                let ghost k0 = kept@;
                kept.push(e);
                proof {
                    assert(kept@ == k0.push(e));
                    assert forall|x: Product| #[trigger] kept@.contains(x) <==> (exists|j: int|
                        0 <= j < i + 1 && s[j] == x && !le(t, x)) by {
                        if kept@.contains(x) {
                            let a = choose|a: int| 0 <= a < kept@.len() && kept@[a] == x;
                            if a < kept@.len() - 1 {
                                assert(k0[a] == x);
                                assert(k0.contains(x));
                            }
                        }
                        if exists|j: int| 0 <= j < i + 1 && s[j] == x && !le(t, x) {
                            let j = choose|j: int| 0 <= j < i + 1 && s[j] == x && !le(t, x);
                            if j < i {
                                assert(k0.contains(x));
                                let a = choose|a: int| 0 <= a < k0.len() && k0[a] == x;
                                assert(kept@[a] == x);
                            } else {
                                assert(kept@[kept@.len() - 1] == x);
                            }
                        }
                    }
                    assert forall|a: int| 0 <= a < kept@.len() implies !le(t, #[trigger] kept@[a])
                        && exists|j: int| 0 <= j < i + 1 && kept@[a] == s[j] by {
                        if a < kept@.len() - 1 {
                            assert(kept@[a] == k0[a]);
                            let j = choose|j: int| 0 <= j < i && k0[a] == s[j];
                        } else {
                            assert(kept@[a] == s[i as int]);
                        }
                    }
                }
            }
            i = i + 1;
        }
        proof {
            assert forall|a: int| 0 <= a < kept@.len() implies !le(kept@[a], t) && !le(t, kept@[a]) by {
                let j = choose|j: int| 0 <= j < i && kept@[a] == s[j];
            }
        }
        let ghost k = kept@;
        kept.push(t);
        proof {
            assert forall|x: Product| #[trigger] kept@.contains(x) <==> (x == t || (
                s.contains(x) && !le(t, x))) by {
                if kept@.contains(x) && x != t {
                    let a = choose|a: int| 0 <= a < kept@.len() && kept@[a] == x;
                    assert(a != kept@.len() - 1);
                    assert(k.contains(x));
                }
                if s.contains(x) && !le(t, x) && x != t {
                    let j = choose|j: int| 0 <= j < s.len() && s[j] == x;
                    assert(k.contains(x));
                    let a = choose|a: int| 0 <= a < k.len() && k[a] == x;
                    assert(kept@[a] == x);
                }
                if x == t {
                    assert(kept@[kept@.len() - 1] == t);
                }
            }
        }
        self.elements = kept;
        true
    }

    /// A copy of the antichain.
    pub fn duplicate(&self) -> (r: Antichain)
        ensures
            r@ == self@,
            self.wf() ==> r.wf(),
    {
        let mut elements: Vec<Product> = Vec::new();
        let mut i: usize = 0;
        while i < self.elements.len()
            invariant
                0 <= i <= self.elements@.len(),
                elements@ == self.elements@.take(i as int),
            decreases self.elements@.len() - i,
        {
            elements.push(self.elements[i]);
            proof {
                assert(self.elements@.take(i + 1) =~= self.elements@.take(i as int).push(self.elements@[i as int]));
            }
            i = i + 1;
        }
        proof {
            assert(self.elements@.take(i as int) =~= self.elements@);
        }
        Antichain { elements }
    }
}

} // verus!
