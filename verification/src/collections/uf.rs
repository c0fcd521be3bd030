//! A union-find (disjoint-set) structure over hashable values.
//!
//! Values are interned into an arena on first use; each arena index carries
//! the index of its group's representative, kept canonical (a representative
//! points at itself), so connectivity checks are two lookups. Merging
//! relabels the smaller bookkeeping directly, which keeps every index exactly
//! one step from its representative.

use std::collections::HashMap;
use vstd::prelude::*;
use vstd::set_lib::lemma_int_range;
use vstd::std_specs::hash::obeys_key_model;
use core::hash::Hash;

verus! {

broadcast use vstd::std_specs::hash::group_hash_axioms;

pub struct UF<T: Eq + Hash + Copy> {
    /// Maps each known value to its arena index.
    id: HashMap<T, usize>,
    /// The interned values, by arena index.
    elems: Vec<T>,
    /// For each arena index, the index of its group's representative.
    root: Vec<usize>,
    /// The number of groups.
    n_groups: usize,
}

impl<T: Eq + Hash + Copy> UF<T> {
    /// The arena indices that represent a group.
    closed spec fn roots_set(self) -> Set<int> {
        Set::new(|i: int| 0 <= i < self.root@.len() && self.root@[i] == i)
    }

    /// The structure's invariant: arena and value index agree, every root
    /// link points at a canonical representative, and the group count
    /// matches the number of representatives.
    pub closed spec fn wf(self) -> bool {
        &&& self.root@.len() == self.elems@.len()
        &&& forall|i: int|
            0 <= i < self.elems@.len() ==> self.id@.contains_key(#[trigger] self.elems@[i])
                && self.id@[self.elems@[i]] == i
        &&& forall|v: T|
            #[trigger] self.id@.contains_key(v) ==> self.id@[v] < self.elems@.len()
                && self.elems@[self.id@[v] as int] == v
        &&& forall|i: int|
            0 <= i < self.root@.len() ==> (#[trigger] self.root@[i]) < self.root@.len()
                && self.root@[self.root@[i] as int] == self.root@[i]
        &&& self.roots_set().finite()
        &&& self.n_groups == self.roots_set().len()
    }

    /// Whether `v` has been seen by some union.
    pub closed spec fn spec_contains(self, v: T) -> bool {
        self.id@.contains_key(v)
    }

    /// The representative value of `v`'s group.
    pub closed spec fn spec_rep(self, v: T) -> T {
        self.elems@[self.root@[self.id@[v] as int] as int]
    }

    /// Whether `a` and `b` are known and belong to the same group.
    pub closed spec fn spec_same_set(self, a: T, b: T) -> bool {
        &&& self.spec_contains(a)
        &&& self.spec_contains(b)
        &&& self.root@[self.id@[a] as int] == self.root@[self.id@[b] as int]
    }

    /// The number of groups.
    pub closed spec fn spec_n_groups(self) -> nat {
        self.n_groups as nat
    }

    /// How group membership looks after `v1` and `v2` are interned as
    /// singletons (before any merge): `a` and `b` are together when they
    /// already were, or are the same value and known.
    pub open spec fn same_after_intern(o: Self, v1: T, v2: T, a: T, b: T) -> bool {
        ||| o.spec_same_set(a, b)
        ||| (a == b && (o.spec_contains(a) || a == v1 || a == v2))
    }

    /// Creates an empty structure with no values and no groups.
    pub fn new() -> (r: Self)
        ensures
            r.wf(),
            forall|v: T| !r.spec_contains(v),
            r.spec_n_groups() == 0,
    {
        let r = UF { id: HashMap::new(), elems: Vec::new(), root: Vec::new(), n_groups: 0 };
        proof {
            assert(r.roots_set() =~= Set::<int>::empty());
        }
        r
    }

    /// Interns a fresh value as a singleton group.
    fn insert_elem(&mut self, v: &T)
        requires
            old(self).wf(),
            obeys_key_model::<T>(),
            !old(self).spec_contains(*v),
        ensures
            final(self).wf(),
            forall|x: T| final(self).spec_contains(x) == (old(self).spec_contains(x) || x == *v),
            forall|a: T, b: T| #[trigger] final(self).spec_same_set(a, b) == (old(
                self,
            ).spec_same_set(a, b) || (a == *v && b == *v)),
            forall|x: T|
                old(self).spec_contains(x) ==> #[trigger] final(self).spec_rep(x) == old(
                    self,
                ).spec_rep(x),
            final(self).spec_rep(*v) == *v,
            final(self).spec_n_groups() == old(self).spec_n_groups() + 1,
    {
        let n = self.elems.len();
        proof {
            lemma_int_range(0, self.root@.len() as int);
            vstd::set_lib::lemma_len_subset(
                self.roots_set(),
                vstd::set_lib::set_int_range(0, self.root@.len() as int),
            );
        }
        self.elems.push(*v);
        self.root.push(n);
        self.id.insert(*v, n);
        let l = self.root.len();
        proof {
            assert(self.n_groups < l);
        }
        self.n_groups = self.n_groups + 1;
        proof {
            let s0 = *old(self);
            let s1 = *self;
            assert(s1.roots_set() =~= s0.roots_set().insert(n as int));
            assert(!s0.roots_set().contains(n as int));
            assert(s1.roots_set().len() == s0.roots_set().len() + 1);
            assert forall|a: T, b: T| #[trigger] s1.spec_same_set(a, b) == (s0.spec_same_set(a, b)
                || (a == *v && b == *v)) by {
                if s0.spec_contains(a) {
                    assert(s0.id@[a] < s0.elems@.len());
                }
                if s0.spec_contains(b) {
                    assert(s0.id@[b] < s0.elems@.len());
                }
            }
        }
    }

    /// Joins the groups of `v1` and `v2`, interning either value first if it
    /// is new. Returns `true` when two distinct groups were merged and
    /// `false` when the two values already sat in the same group.
    pub fn union(&mut self, v1: &T, v2: &T) -> (r: bool)
        requires
            old(self).wf(),
            obeys_key_model::<T>(),
        ensures
            final(self).wf(),
            forall|x: T|
                #[trigger] final(self).spec_contains(x) == (old(self).spec_contains(x) || x == *v1
                    || x == *v2),
            r == !Self::same_after_intern(*old(self), *v1, *v2, *v1, *v2),
            final(self).spec_same_set(*v1, *v2),
            forall|a: T, b: T| #[trigger] final(self).spec_same_set(a, b) <==> {
                ||| Self::same_after_intern(*old(self), *v1, *v2, a, b)
                ||| (Self::same_after_intern(*old(self), *v1, *v2, a, *v1)
                    && Self::same_after_intern(*old(self), *v1, *v2, *v2, b))
                ||| (Self::same_after_intern(*old(self), *v1, *v2, a, *v2)
                    && Self::same_after_intern(*old(self), *v1, *v2, *v1, b))
            },
            final(self).spec_n_groups() == old(self).spec_n_groups() + (if old(
                self,
            ).spec_contains(*v1) {
                0int
            } else {
                1int
            }) + (if old(self).spec_contains(*v2) || *v1 == *v2 {
                0int
            } else {
                1int
            }) - (if r {
                1int
            } else {
                0int
            }),
    {
        let ghost s0 = *old(self);
        if !self.id.contains_key(v1) {
            self.insert_elem(v1);
        }
        if !self.id.contains_key(v2) {
            self.insert_elem(v2);
        }
        let ghost sp = *self;
        proof {
            assert(sp.spec_contains(*v1));
            assert(sp.spec_contains(*v2));
            assert forall|a: T, b: T| #[trigger] sp.spec_same_set(a, b) == Self::same_after_intern(
                s0,
                *v1,
                *v2,
                a,
                b,
            ) by {
                if s0.spec_contains(a) {
                    assert(s0.id@[a] < s0.elems@.len());
                }
            }
        }
        let i1 = *self.id.get(v1).unwrap();
        proof {
            assert(i1 == sp.id@[*v1]);
            assert(i1 < sp.root@.len());
        }
        let r1 = self.root[i1];
        let i2 = *self.id.get(v2).unwrap();
        proof {
            assert(i2 == sp.id@[*v2]);
            assert(i2 < sp.root@.len());
        }
        let r2 = self.root[i2];
        proof {
            assert(r1 == sp.root@[sp.id@[*v1] as int]);
            assert(r2 == sp.root@[sp.id@[*v2] as int]);
            assert(sp.root@[i1 as int] < sp.root@.len());
            assert(sp.root@[i2 as int] < sp.root@.len());
        }
        if r1 == r2 {
            proof {
                assert(sp.spec_same_set(*v1, *v2));
                assert(Self::same_after_intern(s0, *v1, *v2, *v1, *v2));
                assert forall|a: T, b: T| #[trigger] sp.spec_same_set(a, b) <==> {
                    ||| Self::same_after_intern(s0, *v1, *v2, a, b)
                    ||| (Self::same_after_intern(s0, *v1, *v2, a, *v1) && Self::same_after_intern(
                        s0,
                        *v1,
                        *v2,
                        *v2,
                        b,
                    ))
                    ||| (Self::same_after_intern(s0, *v1, *v2, a, *v2) && Self::same_after_intern(
                        s0,
                        *v1,
                        *v2,
                        *v1,
                        b,
                    ))
                } by {
                    assert(sp.spec_same_set(a, *v1) == Self::same_after_intern(
                        s0, *v1, *v2, a, *v1));
                    assert(sp.spec_same_set(*v2, b) == Self::same_after_intern(
                        s0, *v1, *v2, *v2, b));
                    assert(sp.spec_same_set(a, *v2) == Self::same_after_intern(
                        s0, *v1, *v2, a, *v2));
                    assert(sp.spec_same_set(*v1, b) == Self::same_after_intern(
                        s0, *v1, *v2, *v1, b));
                    if sp.spec_same_set(a, *v1) && sp.spec_same_set(*v2, b) {
                        assert(sp.spec_same_set(a, b));
                    }
                    if sp.spec_same_set(a, *v2) && sp.spec_same_set(*v1, b) {
                        assert(sp.spec_same_set(a, b));
                    }
                }
            }
            return false;
        }
        // relabel the first group's indices onto the second representative
        let mut i: usize = 0;
        while i < self.root.len()
            invariant
                self.root@.len() == sp.root@.len(),
                i <= self.root@.len(),
                r1 < self.root@.len(),
                r2 < self.root@.len(),
                forall|j: int|
                    0 <= j < i ==> (#[trigger] self.root@[j]) == (if sp.root@[j] == r1 {
                        r2 as usize
                    } else {
                        sp.root@[j]
                    }),
                forall|j: int| i <= j < self.root@.len() ==> (#[trigger] self.root@[j]) == sp.root@[
                    j],
                self.id == sp.id,
                self.elems == sp.elems,
                self.n_groups == sp.n_groups,
            decreases self.root@.len() - i,
        {
            if self.root[i] == r1 {
                self.root.set(i, r2);
            }
            i = i + 1;
        }
        proof {
            lemma_int_range(0, sp.root@.len() as int);
            vstd::set_lib::lemma_len_subset(
                sp.roots_set(),
                vstd::set_lib::set_int_range(0, sp.root@.len() as int),
            );
            assert(sp.root@[r1 as int] == r1 && sp.root@[r2 as int] == r2);
            assert(sp.roots_set().contains(r1 as int));
            assert(sp.roots_set().len() >= 1);
        }
        self.n_groups = self.n_groups - 1;
        proof {
            let s2 = *self;
            assert forall|j: int|
                0 <= j < s2.root@.len() implies (#[trigger] s2.root@[j]) < s2.root@.len()
                    && s2.root@[s2.root@[j] as int] == s2.root@[j] by {
                assert(sp.root@[j] < sp.root@.len());
                assert(sp.root@[sp.root@[j] as int] == sp.root@[j]);
            }
            assert(s2.roots_set() =~= sp.roots_set().remove(r1 as int));
            assert(s2.roots_set().len() == sp.roots_set().len() - 1);
            assert(s2.wf());
            assert forall|a: T, b: T| #[trigger] s2.spec_same_set(a, b) <==> {
                ||| Self::same_after_intern(s0, *v1, *v2, a, b)
                ||| (Self::same_after_intern(s0, *v1, *v2, a, *v1) && Self::same_after_intern(
                    s0,
                    *v1,
                    *v2,
                    *v2,
                    b,
                ))
                ||| (Self::same_after_intern(s0, *v1, *v2, a, *v2) && Self::same_after_intern(
                    s0,
                    *v1,
                    *v2,
                    *v1,
                    b,
                ))
            } by {
                assert(sp.spec_same_set(a, b) == Self::same_after_intern(s0, *v1, *v2, a, b));
                assert(sp.spec_same_set(a, *v1) == Self::same_after_intern(s0, *v1, *v2, a, *v1));
                assert(sp.spec_same_set(*v2, b) == Self::same_after_intern(s0, *v1, *v2, *v2, b));
                assert(sp.spec_same_set(a, *v2) == Self::same_after_intern(s0, *v1, *v2, a, *v2));
                assert(sp.spec_same_set(*v1, b) == Self::same_after_intern(s0, *v1, *v2, *v1, b));
                if s2.spec_contains(a) {
                    assert(sp.id@[a] < sp.elems@.len());
                    assert(sp.root@[sp.id@[a] as int] < sp.root@.len());
                    assert(sp.root@[sp.root@[sp.id@[a] as int] as int] == sp.root@[sp.id@[
                        a] as int]);
                }
                if s2.spec_contains(b) {
                    assert(sp.id@[b] < sp.elems@.len());
                    assert(sp.root@[sp.id@[b] as int] < sp.root@.len());
                    assert(sp.root@[sp.root@[sp.id@[b] as int] as int] == sp.root@[sp.id@[
                        b] as int]);
                }
            }
            assert(s2.spec_same_set(*v1, *v2));
        }
        true
    }

    /// Returns the representative value of `v`'s group: two values answer
    /// the same representative exactly when they are connected. The
    /// structure itself is left unchanged.
    pub fn find_root(&mut self, v: &T) -> (r: &T)
        requires
            old(self).wf(),
            obeys_key_model::<T>(),
            old(self).spec_contains(*v),
        ensures
            *final(self) == *old(self),
            *r == old(self).spec_rep(*v),
            final(self).spec_same_set(*v, *r),
    {
        let i = *self.id.get(v).unwrap();
        let ri = self.root[i];
        proof {
            assert(self.root@[i as int] < self.root@.len());
            let rep = self.elems@[ri as int];
            assert(self.id@[rep] == ri);
            assert(self.root@[ri as int] == ri);
        }
        &self.elems[ri]
    }

    /// Returns whether `v1` and `v2` are connected; values never seen are in
    /// no group. The structure itself is left unchanged.
    pub fn is_connected(&mut self, v1: &T, v2: &T) -> (r: bool)
        requires
            old(self).wf(),
            obeys_key_model::<T>(),
        ensures
            *final(self) == *old(self),
            r == old(self).spec_same_set(*v1, *v2),
    {
        if !self.id.contains_key(v1) || !self.id.contains_key(v2) {
            return false;
        }
        let i1 = *self.id.get(v1).unwrap();
        let i2 = *self.id.get(v2).unwrap();
        proof {
            assert(self.root@[i1 as int] < self.root@.len());
        }
        let r1 = self.root[i1];
        let r2 = self.root[i2];
        r1 == r2
    }

    /// Returns the number of groups.
    pub fn n_groups(&self) -> (r: usize)
        requires
            self.wf(),
        ensures
            r == self.spec_n_groups(),
    {
        self.n_groups
    }
}

} // verus!
