//! Union-Find implementation with quick union operation.

use vstd::prelude::*;
use crate::links::{ParentMap, link_map, link_map_new, link_map_get, link_map_set, link_map_clone};
use crate::forest::{
    parent_inv, root_in, link_depth, lemma_root_is_root, lemma_halve_parent_inv,
    lemma_halve_same_root, lemma_grow_parent_inv, lemma_grow_same_root, lemma_link_parent_inv,
    lemma_link_same_root,
};
use crate::policy::{Union, UnionResult};
use vstd::pervasive::cloned;
use vstd::pervasive::unreached;

verus! {

/// Moves the value out of slot `i`, leaving the slot empty.
fn take_slot<V>(store: &mut Vec<Option<V>>, i: usize) -> (value: V)
    requires
        i < old(store).len(),
        old(store)@[i as int] is Some,
    ensures
        final(store)@ == old(store)@.update(i as int, None),
        old(store)@[i as int] == Some(value),
{
    let slot = &mut store[i];
    match slot.take() {
        Some(value) => value,
        None => unreached(),
    }
}

/// Borrows the value held in slot `i` mutably; only that slot can change
/// through the returned reference.
fn slot_value_mut<V>(store: &mut Vec<Option<V>>, i: usize) -> (value: &mut V)
    requires
        i < old(store).len(),
        old(store)@[i as int] is Some,
    ensures
        old(store)@[i as int] == Some(*value),
        final(store)@ == old(store)@.update(i as int, Some(*final(value))),
{
    let slot = &mut store[i];
    match slot {
        Some(value) => value,
        None => unreached(),
    }
}

/// Populates slot `i` with the given value.
fn put_slot<V>(store: &mut Vec<Option<V>>, i: usize, value: V)
    requires
        i < old(store).len(),
    ensures
        final(store)@ == old(store)@.update(i as int, Some(value)),
{
    let slot = &mut store[i];
    *slot = Some(value);
}

/// Union-Find structure using the quick-union strategy with path halving,
/// generic over the element payload `V`.
///
/// Elements are dense indices in `[0, size)`, assigned sequentially on
/// insertion and never reused. Each element has a parent link; a set's
/// canonical root is the element whose parent is itself, and only root
/// slots of the payload store hold a live value.
pub struct QuickUnionUf<V> {
    /// The parent link of each element, kept in the concurrency-safe map.
    pub link_parent: ParentMap,
    /// One optional payload slot per element; only root slots hold a value.
    pub payload: Vec<Option<V>>,
    /// The depth measure that witnesses that parent links form a forest.
    pub depth: Ghost<Map<usize, nat>>,
}

impl<V> QuickUnionUf<V> {
    /// The number of elements ever inserted.
    pub open spec fn spec_size(self) -> nat {
        self.payload@.len()
    }

    /// The parent link map.
    pub open spec fn parents(self) -> Map<usize, usize> {
        link_map(self.link_parent)
    }

    /// The parent link of element `i`.
    pub open spec fn parent_of(self, i: usize) -> usize {
        self.parents()[i]
    }

    /// The payload slot of element `i`.
    pub open spec fn slot(self, i: usize) -> Option<V> {
        self.payload@[i as int]
    }

    /// The canonical root of element `i`: the representative identity of
    /// the set containing `i`.
    pub open spec fn spec_root(self, i: usize) -> usize {
        root_in(self.parents(), self.depth@, i)
    }

    /// Well-formedness: the parent link map is total over `[0, size)` and
    /// free of cycles other than root self-loops, and a payload slot is
    /// populated if and only if its index is currently a root.
    pub open spec fn wf(self) -> bool {
        &&& parent_inv(self.parents(), self.depth@)
        &&& forall|i: usize| #[trigger] self.parents().dom().contains(i) <==> i < self.spec_size()
        &&& forall|i: usize|
            #![trigger self.slot(i)]
            #![trigger self.parent_of(i)]
            i < self.spec_size() ==> (self.slot(i) is Some <==> self.parent_of(i) == i)
    }

    /// The number of elements ever inserted into the structure.
    pub fn size(&self) -> (n: usize)
        ensures
            n == self.spec_size(),
    {
        self.payload.len()
    }

    /// Inserts a new element holding `data` as a fresh singleton set whose
    /// root is itself, and returns its index. A freshly inserted element
    /// resolves to itself, and every pre-existing set keeps its canonical
    /// root and its payload untouched.
    pub fn insert(&mut self, data: V) -> (key: usize)
        requires
            old(self).wf(),
        ensures
            final(self).wf(),
            key == old(self).spec_size(),
            final(self).spec_size() == old(self).spec_size() + 1,
            final(self).spec_root(key) == key,
            final(self).slot(key) == Some(data),
            forall|i: usize| i < old(self).spec_size()
                ==> final(self).spec_root(i) == old(self).spec_root(i),
            forall|i: usize| i < old(self).spec_size()
                ==> final(self).slot(i) == old(self).slot(i),
    {
        let ghost m0 = self.parents();
        let ghost d0 = self.depth@;
        let ghost n0 = self.spec_size();
        let key = self.payload.len();
        proof {
            assert forall|i: usize| i < n0
                implies root_in(m0, d0, i) == old(self).spec_root(i) by {
                assert(self.spec_root(i) == root_in(m0, d0, i));
            };
        }
        link_map_set(&mut self.link_parent, key, key);
        self.payload.push(Some(data));
        proof {
            lemma_grow_parent_inv(m0, d0, key);
            assert forall|i: usize| i < n0
                implies self.spec_root(i) == old(self).spec_root(i) by {
                lemma_grow_same_root(m0, d0, key, i);
            };
            assert(self.spec_root(key) == key);
            assert forall|i: usize| #[trigger] self.parents().dom().contains(i) <==> i
                < self.spec_size() by {
                assert(m0.dom().contains(i) <==> i < n0);
            };
            assert forall|i: usize|
                #![trigger self.slot(i)]
                #![trigger self.parent_of(i)]
                i < self.spec_size() implies (self.slot(i) is Some <==> self.parent_of(i)
                == i) by {
                if i < n0 {
                    assert(old(self).slot(i) is Some <==> old(self).parent_of(i) == i);
                    assert(self.slot(i) == old(self).slot(i));
                    assert(self.parent_of(i) == old(self).parent_of(i));
                }
            };
        }
        key
    }

    /// Resolves `key` to its set's canonical root, halving the path it
    /// walks as a side effect. The returned root is its own parent, and
    /// repeated calls with no intervening `union` keep returning the same
    /// root: compression never changes which root any element resolves to,
    /// and it never touches a payload slot.
    pub fn find(&mut self, key: usize) -> (root: usize)
        requires
            old(self).wf(),
            key < old(self).spec_size(),
        ensures
            final(self).wf(),
            root == old(self).spec_root(key),
            final(self).spec_size() == old(self).spec_size(),
            final(self).payload@ == old(self).payload@,
            final(self).depth@ == old(self).depth@,
            root < old(self).spec_size(),
            final(self).parent_of(root) == root,
            forall|i: usize| i < old(self).spec_size()
                ==> final(self).spec_root(i) == old(self).spec_root(i),
    {
        let ghost n0 = old(self).spec_size();
        let mut k = key;
        let mut p = link_map_get(&self.link_parent, k);
        while p != k
            invariant
                self.wf(),
                k < n0,
                self.spec_size() == n0,
                self.payload@ == old(self).payload@,
                self.depth@ == old(self).depth@,
                self.parents().dom().contains(k),
                p == self.parent_of(k),
                self.spec_root(k) == old(self).spec_root(key),
                forall|i: usize| i < n0 ==> self.spec_root(i) == old(self).spec_root(i),
            decreases self.depth@[k],
        {
            proof {
                assert(self.parents().dom().contains(p));
            }
            let pp = link_map_get(&self.link_parent, p);
            let ghost m0 = self.parents();
            let ghost d0 = self.depth@;
            let ghost pay0 = self.payload@;
            proof {
                assert(m0.dom().contains(k));
                assert(m0.dom().contains(p));
                assert(m0.dom().contains(pp));
                assert(d0[p] < d0[k]);
                if pp != p {
                    assert(d0[pp] < d0[p]);
                }
                assert(root_in(m0, d0, k) == root_in(m0, d0, p));
                assert(root_in(m0, d0, p) == root_in(m0, d0, pp));
                assert forall|i: usize| i < n0
                    implies root_in(m0, d0, i) == old(self).spec_root(i) by {
                    assert(self.spec_root(i) == root_in(m0, d0, i));
                };
                assert forall|i: usize| i < n0
                    implies (pay0[i as int] is Some <==> m0[i] == i) by {
                    assert(self.slot(i) is Some <==> self.parent_of(i) == i);
                };
            }
            link_map_set(&mut self.link_parent, k, pp);
            proof {
                lemma_halve_parent_inv(m0, d0, k, pp);
                assert forall|i: usize| i < n0
                    implies self.spec_root(i) == old(self).spec_root(i) by {
                    lemma_halve_same_root(m0, d0, k, pp, i);
                };
                assert forall|i: usize| #[trigger] self.parents().dom().contains(i) <==> i
                    < self.spec_size() by {
                    assert(m0.dom().contains(i) <==> i < n0);
                };
                assert forall|i: usize|
                    #![trigger self.slot(i)]
                    #![trigger self.parent_of(i)]
                    i < self.spec_size() implies (self.slot(i) is Some <==> self.parent_of(
                    i) == i) by {
                    assert(pay0[i as int] is Some <==> m0[i] == i);
                    if i == k {
                        assert(self.parent_of(i) == pp);
                    } else {
                        assert(self.parent_of(i) == m0[i]);
                    }
                };
                assert(self.spec_root(p) == old(self).spec_root(key));
            }
            k = p;
            p = pp;
        }
        k
    }

    /// Returns a reference to the payload of the set containing `key`,
    /// read at the set's canonical root; resolving the root compresses the
    /// path as `find` does, but no payload slot and no canonical root
    /// changes.
    pub fn get(&mut self, key: usize) -> (value: &V)
        requires
            old(self).wf(),
            key < old(self).spec_size(),
        ensures
            final(self).wf(),
            final(self).spec_size() == old(self).spec_size(),
            final(self).payload@ == old(self).payload@,
            forall|i: usize| i < old(self).spec_size()
                ==> final(self).spec_root(i) == old(self).spec_root(i),
            old(self).slot(old(self).spec_root(key)) == Some(*value),
    {
        let root_key = self.find(key);
        let slot = &self.payload[root_key];
        match slot {
            Some(value) => value,
            None => unreached(),
        }
    }

    /// Returns a mutable reference to the payload of the set containing
    /// `key`, read at the set's canonical root; the caller may edit that
    /// root payload in place, and only that slot can change through the
    /// returned reference.
    pub fn get_mut(&mut self, key: usize) -> (value: &mut V)
        requires
            old(self).wf(),
            key < old(self).spec_size(),
        ensures
            final(self).wf(),
            final(self).spec_size() == old(self).spec_size(),
            old(self).slot(old(self).spec_root(key)) == Some(*value),
            final(self).slot(old(self).spec_root(key)) == Some(*final(value)),
            forall|i: usize| i < old(self).spec_size() && i != old(self).spec_root(key)
                ==> final(self).slot(i) == old(self).slot(i),
            forall|i: usize| i < old(self).spec_size()
                ==> final(self).spec_root(i) == old(self).spec_root(i),
    {
        let ghost n0 = old(self).spec_size();
        let root_key = self.find(key);
        let ghost m_mid = self.parents();
        let ghost d_mid = self.depth@;
        let ghost pay_mid = self.payload@;
        proof {
            assert forall|i: usize| i < n0
                implies (pay_mid[i as int] is Some <==> m_mid[i] == i) by {
                assert(self.slot(i) is Some <==> self.parent_of(i) == i);
            };
            assert forall|i: usize| i < n0
                implies root_in(m_mid, d_mid, i) == old(self).spec_root(i) by {
                assert(self.spec_root(i) == root_in(m_mid, d_mid, i));
            };
            assert forall|i: usize| #[trigger] m_mid.dom().contains(i) <==> i < n0 by {
                assert(self.parents().dom().contains(i) <==> i < self.spec_size());
            };
        }
        slot_value_mut(&mut self.payload, root_key)
    }

    /// Appends every value of `values` in order, each as a new singleton
    /// set, exactly as repeated `insert` would: indices continue from the
    /// current size, and all pre-existing sets keep their canonical roots
    /// and payloads untouched.
    pub fn extend(&mut self, values: Vec<V>)
        requires
            old(self).wf(),
        ensures
            final(self).wf(),
            final(self).spec_size() == old(self).spec_size() + values@.len(),
            forall|i: usize| i < old(self).spec_size()
                ==> final(self).spec_root(i) == old(self).spec_root(i),
            forall|i: usize| i < old(self).spec_size()
                ==> final(self).slot(i) == old(self).slot(i),
            forall|i: usize| old(self).spec_size() <= i < final(self).spec_size()
                ==> final(self).spec_root(i) == i,
            forall|i: usize| old(self).spec_size() <= i < final(self).spec_size()
                ==> final(self).slot(i) == Some(values@[i - old(self).spec_size()]),
    {
        let ghost n0 = old(self).spec_size();
        let ghost all = values@;
        let mut rest = values;
        while rest.len() > 0
            invariant
                self.wf(),
                rest@.len() <= all.len(),
                self.spec_size() == n0 + all.len() - rest@.len(),
                rest@ == all.subrange(all.len() - rest@.len(), all.len() as int),
                forall|i: usize| i < n0 ==> self.spec_root(i) == old(self).spec_root(i),
                forall|i: usize| i < n0 ==> self.slot(i) == old(self).slot(i),
                forall|i: usize| n0 <= i < self.spec_size() ==> self.spec_root(i) == i,
                forall|i: usize| n0 <= i < self.spec_size() ==> self.slot(i) == Some(
                    all[i - n0],
                ),
            decreases rest@.len(),
        {
            let ghost done = all.len() - rest@.len();
            let value = rest.remove(0);
            proof {
                assert(value == all[done]);
                assert(rest@ == all.subrange(done + 1, all.len() as int));
            }
            self.insert(value);
        }
    }

    /// Builds a structure from an ordered sequence of values, equivalent
    /// to inserting each value in order: value `j` becomes the payload of
    /// element `j`, and the `n` values yield `n` disjoint singleton sets.
    pub fn construct_from(values: Vec<V>) -> (uf: Self)
        ensures
            uf.wf(),
            uf.spec_size() == values@.len(),
            forall|i: usize| i < uf.spec_size() ==> uf.spec_root(i) == i,
            forall|i: usize| i < uf.spec_size() ==> uf.slot(i) == Some(values@[i as int]),
    {
        let mut uf = QuickUnionUf {
            link_parent: link_map_new(),
            payload: Vec::new(),
            depth: Ghost(Map::empty()),
        };
        proof {
            assert(uf.wf());
        }
        uf.extend(values);
        uf
    }

    /// The state in the middle of a union: `r0` and `r1` are distinct
    /// resolved roots whose payloads have been taken out and handed to the
    /// merge policy; every other slot is untouched.
    pub open spec fn roots_taken(self, r0: usize, r1: usize) -> bool {
        &&& parent_inv(self.parents(), self.depth@)
        &&& (forall|i: usize| #[trigger] self.parents().dom().contains(i) <==> i
            < self.spec_size())
        &&& r0 < self.spec_size()
        &&& r1 < self.spec_size()
        &&& r0 != r1
        &&& self.parent_of(r0) == r0
        &&& self.parent_of(r1) == r1
        &&& self.slot(r0) is None
        &&& self.slot(r1) is None
        &&& (forall|i: usize|
            #![trigger self.slot(i)]
            #![trigger self.parent_of(i)]
            i < self.spec_size() && i != r0 && i != r1 ==> (self.slot(i) is Some
                <==> self.parent_of(i) == i))
    }

    /// Applies a merge outcome to the two roots of an in-progress union:
    /// stores the merged value into the surviving root's slot, leaves the
    /// absorbed root's slot empty, and rewrites the absorbed root's parent
    /// link to the surviving root. What comes out is pinned down exactly,
    /// for every outcome value the merge policy could have produced.
    pub fn relink(&mut self, r0: usize, r1: usize, outcome: UnionResult<V>)
        requires
            old(self).roots_taken(r0, r1),
        ensures
            final(self).wf(),
            final(self).spec_size() == old(self).spec_size(),
            ({
                let survivor = if outcome.is_left() { r0 } else { r1 };
                let absorbed = if outcome.is_left() { r1 } else { r0 };
                &&& final(self).parent_of(absorbed) == survivor
                &&& final(self).parent_of(survivor) == survivor
                &&& final(self).spec_root(survivor) == survivor
                &&& final(self).slot(survivor) == Some(outcome.merged_value())
                &&& final(self).slot(absorbed) is None
                &&& (forall|i: usize| i < old(self).spec_size() && i != survivor
                    ==> final(self).slot(i) == old(self).slot(i))
                &&& (forall|i: usize| i < old(self).spec_size()
                    ==> final(self).spec_root(i) == (if old(self).spec_root(i) == absorbed {
                        survivor
                    } else {
                        old(self).spec_root(i)
                    }))
            }),
    {
        let ghost m0 = self.parents();
        let ghost d0 = self.depth@;
        let ghost n0 = self.spec_size();
        let ghost pay0 = self.payload@;
        proof {
            assert forall|i: usize| i < n0 && i != r0 && i != r1
                implies (pay0[i as int] is Some <==> m0[i] == i) by {
                assert(self.slot(i) is Some <==> self.parent_of(i) == i);
            };
            assert forall|i: usize| i < n0
                implies root_in(m0, d0, i) == old(self).spec_root(i) by {
                assert(self.spec_root(i) == root_in(m0, d0, i));
            };
        }
        let (survivor, absorbed, merged) = match outcome {
            UnionResult::Left(value) => (r0, r1, value),
            UnionResult::Right(value) => (r1, r0, value),
        };
        proof {
            lemma_link_parent_inv(m0, d0, absorbed, survivor);
        }
        link_map_set(&mut self.link_parent, absorbed, survivor);
        self.depth = Ghost(link_depth(m0, d0, absorbed, survivor));
        put_slot(&mut self.payload, survivor, merged);
        proof {
            assert forall|i: usize| i < n0
                implies self.spec_root(i) == (if root_in(m0, d0, i) == absorbed {
                    survivor
                } else {
                    root_in(m0, d0, i)
                }) by {
                lemma_link_same_root(m0, d0, absorbed, survivor, i);
            };
            assert forall|i: usize| #[trigger] self.parents().dom().contains(i) <==> i
                < self.spec_size() by {
                assert(m0.dom().contains(i) <==> i < n0);
            };
            assert(root_in(m0, d0, survivor) == survivor);
            assert(root_in(m0, d0, absorbed) == absorbed);
            assert forall|i: usize|
                #![trigger self.slot(i)]
                #![trigger self.parent_of(i)]
                i < self.spec_size() implies (self.slot(i) is Some <==> self.parent_of(
                i) == i) by {
                if i != survivor && i != absorbed {
                    assert(pay0[i as int] is Some <==> m0[i] == i);
                    assert(self.slot(i) == pay0[i as int]);
                    assert(self.parent_of(i) == m0[i]);
                }
            };
        }
    }
}

impl<V: Clone> Clone for QuickUnionUf<V> {
    /// Duplicates the whole structure into an independent deep copy: the
    /// copy has the same parent links, hence the same size and canonical
    /// roots, and each of its payload slots is populated exactly where
    /// the original's is, holding a clone of the original value. Later
    /// operations on either structure leave the other untouched.
    fn clone(&self) -> (copy: Self)
        ensures
            copy.parents() == self.parents(),
            copy.depth@ == self.depth@,
            copy.spec_size() == self.spec_size(),
            forall|i: usize| i < self.spec_size() ==> (copy.slot(i) is Some <==> self.slot(
                i,
            ) is Some),
            forall|i: usize|
                #![trigger copy.slot(i)]
                i < self.spec_size() ==> (self.slot(i) matches Some(held) ==> (copy.slot(
                i) matches Some(kept) && cloned::<V>(held, kept))),
            self.wf() ==> copy.wf(),
    {
        let linked = link_map_clone(&self.link_parent);
        let mut slots: Vec<Option<V>> = Vec::new();
        let mut idx: usize = 0;
        while idx < self.payload.len()
            invariant
                idx <= self.payload.len(),
                slots@.len() == idx,
                forall|i: int| 0 <= i < idx ==> (slots@[i] is Some <==> self.payload@[i]
                    is Some),
                forall|i: int|
                    #![trigger slots@[i]]
                    0 <= i < idx ==> (self.payload@[i] matches Some(held) ==> (slots@[i]
                        matches Some(kept) && cloned::<V>(held, kept))),
            decreases self.payload.len() - idx,
        {
            let slot = &self.payload[idx];
            match slot {
                Some(value) => slots.push(Some(value.clone())),
                None => slots.push(None),
            }
            idx += 1;
        }
        let copy = QuickUnionUf { link_parent: linked, payload: slots, depth: Ghost(self.depth@) };
        proof {
            if self.wf() {
                assert forall|i: usize|
                    #![trigger copy.slot(i)]
                    #![trigger copy.parent_of(i)]
                    i < copy.spec_size() implies (copy.slot(i) is Some <==> copy.parent_of(
                    i) == i) by {
                    assert(self.slot(i) is Some <==> self.parent_of(i) == i);
                };
            }
        }
        copy
    }

    /// Overwrites this structure with a duplicate of `other`, field by
    /// field, exactly as `clone` would build one.
    fn clone_from(&mut self, other: &Self)
        ensures
            final(self).parents() == other.parents(),
            final(self).depth@ == other.depth@,
            final(self).spec_size() == other.spec_size(),
            forall|i: usize| i < other.spec_size() ==> (final(self).slot(i) is Some
                <==> other.slot(i) is Some),
            forall|i: usize|
                #![trigger final(self).slot(i)]
                i < other.spec_size() ==> (other.slot(i) matches Some(held) ==> (final(
                self).slot(i) matches Some(kept) && cloned::<V>(held, kept))),
            other.wf() ==> final(self).wf(),
    {
        *self = other.clone();
    }
}

/// Every set has exactly one root. An element is its own parent exactly
/// when it is a canonical root, exactly when its payload slot is
/// populated; the canonical root of any element is such a root of its own
/// set; and any self-parented member of `i`'s set is that set's one root.
pub proof fn lemma_one_root_per_set<V>(uf: QuickUnionUf<V>, i: usize, j: usize)
    requires
        uf.wf(),
        i < uf.spec_size(),
        j < uf.spec_size(),
    ensures
        uf.spec_root(i) < uf.spec_size(),
        uf.parent_of(uf.spec_root(i)) == uf.spec_root(i),
        uf.spec_root(uf.spec_root(i)) == uf.spec_root(i),
        uf.slot(i) is Some <==> uf.parent_of(i) == i,
        uf.parent_of(i) == i <==> uf.spec_root(i) == i,
        uf.spec_root(j) == uf.spec_root(i) && uf.parent_of(j) == j ==> j == uf.spec_root(i),
{
    lemma_root_is_root(uf.parents(), uf.depth@, i);
    lemma_root_is_root(uf.parents(), uf.depth@, j);
    if uf.parent_of(i) == i {
        assert(uf.spec_root(i) == i);
    }
    if uf.parent_of(j) == j {
        assert(uf.spec_root(j) == j);
    }
}

impl<V: Union> QuickUnionUf<V> {
    /// Merges the sets containing `key0` and `key1`. When both already
    /// resolve to the same root, returns `false` and changes no payload
    /// slot and no element's canonical root. Otherwise the merge policy of
    /// `V` folds the two root payloads, the side it selects survives as
    /// the root of the united set, the other root's slot is left
    /// permanently empty, and the call returns `true`.
    pub fn union(&mut self, key0: usize, key1: usize) -> (merged: bool)
        requires
            old(self).wf(),
            key0 < old(self).spec_size(),
            key1 < old(self).spec_size(),
        ensures
            final(self).wf(),
            final(self).spec_size() == old(self).spec_size(),
            merged == (old(self).spec_root(key0) != old(self).spec_root(key1)),
            final(self).spec_root(key0) == final(self).spec_root(key1),
            !merged ==> final(self).payload@ == old(self).payload@,
            !merged ==> (forall|i: usize| i < old(self).spec_size()
                ==> final(self).spec_root(i) == old(self).spec_root(i)),
            merged ==> ({
                let r0 = old(self).spec_root(key0);
                let r1 = old(self).spec_root(key1);
                let survivor = final(self).spec_root(key0);
                let absorbed = if survivor == r0 { r1 } else { r0 };
                &&& (survivor == r0 || survivor == r1)
                &&& final(self).parent_of(absorbed) == survivor
                &&& final(self).slot(survivor) is Some
                &&& final(self).slot(absorbed) is None
                &&& (forall|i: usize| i < old(self).spec_size() && i != survivor && i != absorbed
                    ==> final(self).slot(i) == old(self).slot(i))
                &&& (forall|i: usize| i < old(self).spec_size()
                    ==> final(self).spec_root(i) == (if old(self).spec_root(i) == r0
                        || old(self).spec_root(i) == r1 {
                        survivor
                    } else {
                        old(self).spec_root(i)
                    }))
            }),
    {
        let ghost n0 = old(self).spec_size();
        let k0 = self.find(key0);
        let k1 = self.find(key1);
        if k0 == k1 {
            return false;
        }
        proof {
            lemma_root_is_root(old(self).parents(), old(self).depth@, key0);
            lemma_root_is_root(old(self).parents(), old(self).depth@, key1);
            assert(old(self).spec_root(k0) == k0);
            assert(old(self).spec_root(k1) == k1);
            assert(self.spec_root(k0) == k0);
            assert(self.spec_root(k1) == k1);
            lemma_root_is_root(self.parents(), self.depth@, k0);
            lemma_root_is_root(self.parents(), self.depth@, k1);
            assert(self.parent_of(k0) == k0);
            assert(self.parent_of(k1) == k1);
            assert(self.slot(k0) is Some);
            assert(self.slot(k1) is Some);
        }
        let ghost mid = *self;
        let v0 = take_slot(&mut self.payload, k0);
        let v1 = take_slot(&mut self.payload, k1);
        proof {
            assert(self.parents() == mid.parents());
            assert(self.depth@ == mid.depth@);
            assert forall|i: usize|
                #![trigger self.slot(i)]
                #![trigger self.parent_of(i)]
                i < n0 && i != k0 && i != k1 implies (self.slot(i) is Some
                <==> self.parent_of(i) == i) by {
                assert(mid.slot(i) is Some <==> mid.parent_of(i) == i);
                assert(self.slot(i) == mid.slot(i));
            };
            assert(self.roots_taken(k0, k1));
        }
        let outcome = Union::union(v0, v1);
        self.relink(k0, k1, outcome);
        proof {
            assert forall|i: usize| i < n0
                implies mid.spec_root(i) == old(self).spec_root(i) by {
            };
        }
        true
    }
}

} // verus!

