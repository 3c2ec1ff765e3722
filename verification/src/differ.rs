//! The working-set differ: one authoritative bit-set of currently loaded
//! array positions plus a reusable scratch set.  Each call rebuilds the
//! scratch set from the sphere query, reports what newly intersects and
//! what fell out of range, and swaps the scratch set into the
//! authoritative role.

use vstd::prelude::*;

use crate::geom::Sphere;
use crate::tree::{vec_contains_index, OcTree};

verus! {

/// A set of array positions, backed by a bit-set of the `bit_set` crate.
/// The verifier sees nothing inside; `bitset_elems` names what it holds,
/// and the wrappers below say how each operation changes that.
#[verifier::external_body]
pub struct IndexBits {
    bits: bit_set::BitSet,
}

/// What a bit-set holds, as a set of positions.
pub uninterp spec fn bitset_elems(s: &IndexBits) -> Set<nat>;

/// Relies on bit_set::BitSet::new: a new set is empty.
#[verifier::external_body]
fn bs_new() -> (r: IndexBits)
    ensures
        bitset_elems(&r) == Set::<nat>::empty(),
{
    IndexBits { bits: bit_set::BitSet::new() }
}

/// Relies on bit_set::BitSet::make_empty: removes all elements.
#[verifier::external_body]
fn bs_clear(s: &mut IndexBits)
    ensures
        bitset_elems(final(s)) == Set::<nat>::empty(),
{
    s.bits.make_empty()
}

/// Relies on bit_set::BitSet::contains: membership test.
#[verifier::external_body]
fn bs_contains(s: &IndexBits, v: usize) -> (r: bool)
    ensures
        r == bitset_elems(s).contains(v as nat),
{
    s.bits.contains(v)
}

/// Relies on bit_set::BitSet::insert: adds the value; the result says
/// whether it was absent.
#[verifier::external_body]
fn bs_insert(s: &mut IndexBits, v: usize) -> (r: bool)
    ensures
        bitset_elems(final(s)) == bitset_elems(old(s)).insert(v as nat),
        r == !bitset_elems(old(s)).contains(v as nat),
{
    s.bits.insert(v)
}

/// Relies on bit_set::BitSet::difference_with: removes the other set's
/// elements in place.
#[verifier::external_body]
fn bs_difference_with(s: &mut IndexBits, other: &IndexBits)
    ensures
        bitset_elems(final(s)) == bitset_elems(old(s)).difference(bitset_elems(other)),
{
    s.bits.difference_with(&other.bits)
}

/// Relies on bit_set::BitSet::iter: yields the elements in increasing
/// order.
#[verifier::external_body]
fn bs_iter_collect(s: &IndexBits) -> (r: Vec<usize>)
    ensures
        forall|t1: int, t2: int| 0 <= t1 < t2 < r@.len() ==> r@[t1] < r@[t2],
        forall|t: int| 0 <= t < r@.len() ==> bitset_elems(s).contains(#[trigger] r@[t] as nat),
        forall|v: nat| bitset_elems(s).contains(v) ==> vec_contains_index(r@, v as int),
{
    s.bits.iter().collect()
}

/// The array positions whose boxes the search from the root reports for
/// this sphere.
pub open spec fn hit_set(t: OcTree, s: Sphere) -> Set<nat> {
    Set::new(|v: nat| v < t.nodes().len() && t.hit_from(s, t.root(), v as int))
}

/// The set of positions a vector of indices holds.
pub open spec fn seq_index_set(v: Seq<usize>) -> Set<nat> {
    Set::new(|x: nat| vec_contains_index(v, x as int))
}

/// The working-set differ for one moving observer.  The `octree` is shared
/// read-only; the authoritative set always equals the most recent query's
/// result.
pub struct BufferedOctantLoader {
    pub octree: OcTree,
    loaded_octants: IndexBits,
    new_octants: IndexBits,
}

impl BufferedOctantLoader {
    /// The authoritative set of currently loaded array positions.
    pub closed spec fn loaded(self) -> Set<nat> {
        bitset_elems(&self.loaded_octants)
    }

    /// The shared spatial index.
    pub closed spec fn tree(self) -> OcTree {
        self.octree
    }

    pub open spec fn wf(self) -> bool {
        &&& self.tree().wf()
        &&& forall|v: nat| self.loaded().contains(v) ==> v < self.tree().nodes().len()
    }

    /// Read-only access to the shared spatial index.
    pub fn tree_ref(&self) -> (r: &OcTree)
        ensures
            *r == self.tree(),
    {
        &self.octree
    }

    pub fn new(octree: OcTree) -> (r: Self)
        requires
            octree.wf(),
        ensures
            r.wf(),
            r.tree() == octree,
            r.loaded() == Set::<nat>::empty(),
    {
        BufferedOctantLoader { octree, loaded_octants: bs_new(), new_octants: bs_new() }
    }

    /// One differ step.  The first vector holds the positions that now
    /// intersect the sphere but were not loaded; the second holds the
    /// positions that were loaded but no longer intersect.  Afterwards the
    /// authoritative set is exactly this query's result, so an unchanged
    /// sphere yields two empty vectors, and a sphere grown around the same
    /// center yields an empty second vector.
    pub fn load_octants(&mut self, sphere: &Sphere) -> (r: (Vec<usize>, Vec<usize>))
        requires
            old(self).wf(),
            sphere.wf(),
        ensures
            final(self).wf(),
            final(self).tree() == old(self).tree(),
            final(self).loaded() == hit_set(old(self).tree(), *sphere),
            r.0@.no_duplicates(),
            r.1@.no_duplicates(),
            seq_index_set(r.0@) == hit_set(old(self).tree(), *sphere).difference(
                old(self).loaded(),
            ),
            seq_index_set(r.1@) == old(self).loaded().difference(
                hit_set(old(self).tree(), *sphere),
            ),
            forall|t: int|
                0 <= t < r.0@.len() ==> (#[trigger] r.0@[t]) < old(self).tree().nodes().len(),
            forall|t: int|
                0 <= t < r.1@.len() ==> (#[trigger] r.1@[t]) < old(self).tree().nodes().len(),
    {
        let ghost t = self.tree();
        let ghost prior = self.loaded();
        let hits = self.octree.search_octants(sphere);
        bs_clear(&mut self.new_octants);
        let mut to_load: Vec<usize> = Vec::new();
        proof {
            assert(hits@.take(0) =~= Seq::<usize>::empty());
            assert(seq_index_set(hits@.take(0)) =~= Set::<nat>::empty());
            assert(seq_index_set(to_load@) =~= Set::<nat>::empty().difference(prior));
        }
        let mut i: usize = 0;
        while i < hits.len()
            invariant
                self.tree() == t,
                self.loaded() == prior,
                self.wf(),
                sphere.wf(),
                i <= hits@.len(),
                forall|tt: int|
                    0 <= tt < hits@.len() ==> (#[trigger] hits@[tt]) < t.nodes().len()
                        && t.hit_from(*sphere, t.root(), hits@[tt] as int),
                forall|j: int|
                    0 <= j < t.nodes().len() && #[trigger] t.hit_from(*sphere, t.root(), j)
                        ==> vec_contains_index(hits@, j),
                bitset_elems(&self.new_octants) == seq_index_set(hits@.take(i as int)),
                seq_index_set(to_load@) == seq_index_set(hits@.take(i as int)).difference(prior),
                to_load@.no_duplicates(),
                forall|tt: int|
                    0 <= tt < to_load@.len() ==> (#[trigger] to_load@[tt]) < t.nodes().len(),
            decreases hits@.len() - i,
        {
            let ghost pre = seq_index_set(hits@.take(i as int));
            let v = hits[i];
            let fresh = bs_insert(&mut self.new_octants, v);
            let ghost prev_load = to_load@;
            if fresh && !bs_contains(&self.loaded_octants, v) {
                to_load.push(v);
            }
            proof {
                assert(hits@.take(i as int + 1) =~= hits@.take(i as int).push(hits@[i as int]));
                assert(seq_index_set(hits@.take(i as int + 1)) =~= pre.insert(v as nat)) by {
                    assert forall|w: nat|
                        seq_index_set(hits@.take(i as int + 1)).contains(w) == pre.insert(
                            v as nat,
                        ).contains(w) by {
                        if vec_contains_index(hits@.take(i as int + 1), w as int) {
                            let tt: int = choose|tt: int|
                                0 <= tt < hits@.take(i as int + 1).len() && #[trigger] hits@.take(
                                    i as int + 1,
                                )[tt] == w as int;
                            if tt < i as int {
                                assert(hits@.take(i as int)[tt] == w as int);
                            }
                        }
                        if vec_contains_index(hits@.take(i as int), w as int) {
                            let tt: int = choose|tt: int|
                                0 <= tt < hits@.take(i as int).len() && #[trigger] hits@.take(
                                    i as int,
                                )[tt] == w as int;
                            assert(hits@.take(i as int + 1)[tt] == w as int);
                        }
                        if w == v as nat {
                            assert(hits@.take(i as int + 1)[i as int] == w as int);
                        }
                    }
                }
                assert(bitset_elems(&self.new_octants) == pre.insert(v as nat));
                assert(bitset_elems(&self.new_octants) == seq_index_set(
                    hits@.take(i as int + 1),
                ));
                if to_load@.len() > prev_load.len() {
                    assert(!vec_contains_index(prev_load, v as int)) by {
                        if vec_contains_index(prev_load, v as int) {
                            assert(seq_index_set(prev_load).contains(v as nat));
                            assert(pre.contains(v as nat));
                        }
                    }
                    assert(to_load@.no_duplicates()) by {
                        assert forall|a: int, b: int|
                            0 <= a < to_load@.len() && 0 <= b < to_load@.len() && a != b implies
                            to_load@[a] != to_load@[b] by {
                            if a < prev_load.len() && b < prev_load.len() {
                            } else if b == prev_load.len() as int {
                                if to_load@[a] == v {
                                    assert(prev_load[a] == v);
                                    assert(vec_contains_index(prev_load, v as int));
                                }
                            } else {
                                if to_load@[b] == v {
                                    assert(prev_load[b] == v);
                                    assert(vec_contains_index(prev_load, v as int));
                                }
                            }
                        }
                    }
                    assert(seq_index_set(to_load@) =~= seq_index_set(prev_load).insert(
                        v as nat,
                    )) by {
                        assert forall|w: nat|
                            seq_index_set(to_load@).contains(w) == seq_index_set(
                                prev_load,
                            ).insert(v as nat).contains(w) by {
                            if vec_contains_index(to_load@, w as int) {
                                let tt: int = choose|tt: int|
                                    0 <= tt < to_load@.len() && #[trigger] to_load@[tt]
                                        == w as int;
                                if tt < prev_load.len() {
                                    assert(prev_load[tt] == w as int);
                                }
                            }
                            if vec_contains_index(prev_load, w as int) {
                                let tt: int = choose|tt: int|
                                    0 <= tt < prev_load.len() && #[trigger] prev_load[tt]
                                        == w as int;
                                assert(to_load@[tt] == w as int);
                            }
                            if w == v as nat {
                                assert(to_load@[prev_load.len() as int] == v);
                            }
                        }
                    }
                    assert(seq_index_set(to_load@) =~= seq_index_set(
                        hits@.take(i as int + 1),
                    ).difference(prior));
                } else {
                    assert(seq_index_set(to_load@) =~= seq_index_set(
                        hits@.take(i as int + 1),
                    ).difference(prior)) by {
                        if fresh {
                            assert(!pre.contains(v as nat));
                            assert(prior.contains(v as nat));
                        } else {
                            assert(pre.contains(v as nat));
                        }
                    }
                }
            }
            i = i + 1;
        }
        proof {
            assert(hits@.take(hits@.len() as int) =~= hits@);
            assert(seq_index_set(hits@) =~= hit_set(t, *sphere)) by {
                assert forall|w: nat|
                    seq_index_set(hits@).contains(w) == hit_set(t, *sphere).contains(w) by {
                    if vec_contains_index(hits@, w as int) {
                        let tt: int = choose|tt: int|
                            0 <= tt < hits@.len() && #[trigger] hits@[tt] == w as int;
                    }
                    if hit_set(t, *sphere).contains(w) {
                        assert(t.hit_from(*sphere, t.root(), w as int));
                    }
                }
            }
        }
        bs_difference_with(&mut self.loaded_octants, &self.new_octants);
        let to_unload = bs_iter_collect(&self.loaded_octants);
        proof {
            assert(bitset_elems(&self.loaded_octants) =~= prior.difference(hit_set(t, *sphere)));
            assert(seq_index_set(to_unload@) =~= prior.difference(hit_set(t, *sphere))) by {
                assert forall|w: nat|
                    seq_index_set(to_unload@).contains(w) == prior.difference(
                        hit_set(t, *sphere),
                    ).contains(w) by {
                    if vec_contains_index(to_unload@, w as int) {
                        let tt: int = choose|tt: int|
                            0 <= tt < to_unload@.len() && #[trigger] to_unload@[tt] == w as int;
                        assert(bitset_elems(&self.loaded_octants).contains(
                            to_unload@[tt] as nat,
                        ));
                    }
                }
            }
            assert(to_unload@.no_duplicates()) by {
                assert forall|t1: int, t2: int|
                    0 <= t1 < to_unload@.len() && 0 <= t2 < to_unload@.len() && t1 != t2 implies
                    to_unload@[t1] != to_unload@[t2] by {
                    if t1 < t2 {
                        assert(to_unload@[t1] < to_unload@[t2]);
                    } else {
                        assert(to_unload@[t2] < to_unload@[t1]);
                    }
                }
            }
            assert forall|tt: int|
                0 <= tt < to_unload@.len() implies (#[trigger] to_unload@[tt])
                < t.nodes().len() by {
                assert(bitset_elems(&self.loaded_octants).contains(to_unload@[tt] as nat));
                assert(prior.contains(to_unload@[tt] as nat));
            }
        }
        core::mem::swap(&mut self.new_octants, &mut self.loaded_octants);
        proof {
            assert(self.loaded() =~= hit_set(t, *sphere));
        }
        (to_load, to_unload)
    }
}

/// Idempotence: after a call, the authoritative set equals the query's hit
/// set, so repeating the same sphere yields an empty load list and an
/// empty unload list.
pub proof fn lemma_diff_idempotent(t: OcTree, s: Sphere, loaded: Set<nat>)
    requires
        loaded == hit_set(t, s),
    ensures
        hit_set(t, s).difference(loaded) == Set::<nat>::empty(),
        loaded.difference(hit_set(t, s)) == Set::<nat>::empty(),
{
    assert(hit_set(t, s).difference(loaded) =~= Set::<nat>::empty());
    assert(loaded.difference(hit_set(t, s)) =~= Set::<nat>::empty());
}

/// Monotonic growth: querying with a larger radius around the same center
/// after a smaller one unloads nothing, and loads exactly the new sphere's
/// hits that the old sphere did not have.
pub proof fn lemma_diff_monotonic(t: OcTree, s1: Sphere, s2: Sphere, loaded: Set<nat>)
    requires
        t.wf(),
        s1.wf(),
        s2.wf(),
        s1.center == s2.center,
        s1.radius <= s2.radius,
        loaded == hit_set(t, s1),
    ensures
        loaded.difference(hit_set(t, s2)) == Set::<nat>::empty(),
        hit_set(t, s2).difference(loaded) == hit_set(t, s2).difference(hit_set(t, s1)),
{
    assert forall|v: nat| hit_set(t, s1).contains(v) implies hit_set(t, s2).contains(v) by {
        t.lemma_hit_radius_mono(s1, s2, t.root(), v as int);
    }
    assert(loaded.difference(hit_set(t, s2)) =~= Set::<nat>::empty());
    assert(hit_set(t, s2).difference(loaded) =~= hit_set(t, s2).difference(hit_set(t, s1)));
}

} // verus!
