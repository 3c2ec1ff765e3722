//! Bookkeeping of the concurrent load pipeline, kept sound under arbitrary
//! arrival order of worker results: which cells have a request in flight,
//! which are loaded, the running point count, and the discard rule for
//! results whose cell was evicted before they arrived.  The channels, the
//! worker threads and the file reads themselves live outside the library;
//! every decision they depend on is taken here.

use vstd::prelude::*;

use vstd::set::fold::is_fun_commutative;
use vstd::set::fold::lemma_fold_empty;
use vstd::set::fold::lemma_fold_insert;
use vstd::set_lib::lemma_len_subset;

use crate::differ::{hit_set, seq_index_set, BufferedOctantLoader};
use crate::geom::{coord_ok, lemma_square_bound, sq, Sphere, COORD_LIMIT};
use crate::particle::Particle;
use crate::tree::{vec_contains_index, OcTree};

verus! {

/// A map from octant array positions to render-entity handles, backed by a
/// vector-indexed map of the `vec_map` crate.  The verifier sees nothing
/// inside; `entity_map` names what it holds, and the wrappers below say
/// how each operation changes that.
#[verifier::external_body]
pub struct EntityMap {
    map: vec_map::VecMap<u64>,
}

/// What an entity map holds.
pub uninterp spec fn entity_map(m: &EntityMap) -> Map<nat, u64>;

/// The empty entity map.
pub open spec fn empty_entities() -> Map<nat, u64> {
    Map::empty()
}

/// Relies on vec_map::VecMap::new: a new map is empty.
#[verifier::external_body]
fn vm_new() -> (r: EntityMap)
    ensures
        entity_map(&r) == empty_entities(),
{
    EntityMap { map: vec_map::VecMap::new() }
}

/// Relies on vec_map::VecMap::contains_key: domain test.
#[verifier::external_body]
fn vm_contains_key(m: &EntityMap, key: usize) -> (r: bool)
    ensures
        r == entity_map(m).dom().contains(key as nat),
{
    m.map.contains_key(key)
}

/// Relies on vec_map::VecMap::insert: maps the key to the value and
/// returns what it replaced.
#[verifier::external_body]
fn vm_insert(m: &mut EntityMap, key: usize, value: u64) -> (r: Option<u64>)
    ensures
        entity_map(final(m)) == entity_map(old(m)).insert(key as nat, value),
        match r {
            Some(prev) => entity_map(old(m)).dom().contains(key as nat) && prev == entity_map(
                old(m),
            )[key as nat],
            None => !entity_map(old(m)).dom().contains(key as nat),
        },
{
    m.map.insert(key, value)
}

/// Relies on vec_map::VecMap::remove: unmaps the key and returns what it
/// held; absent keys leave the map unchanged.
#[verifier::external_body]
fn vm_remove(m: &mut EntityMap, key: usize) -> (r: Option<u64>)
    ensures
        match r {
            Some(prev) => entity_map(old(m)).dom().contains(key as nat) && prev == entity_map(
                old(m),
            )[key as nat] && entity_map(final(m)) == entity_map(old(m)).remove(key as nat),
            None => !entity_map(old(m)).dom().contains(key as nat) && entity_map(final(m))
                == entity_map(old(m)),
        },
{
    m.map.remove(key)
}

/// One message of the load pipeline: the cell's stable identifier, its
/// array position, and the decoded batch once a worker has produced it.
pub struct OctantData {
    pub octant_id: u64,
    pub octant_index: usize,
    pub particles_opt: Option<Vec<Particle>>,
}

/// The point count one cell contributes when loaded.
pub open spec fn star_of(t: OcTree, v: nat) -> int {
    t.nodes()[v as int].star_count as int
}

/// Sum of the point counts of a set of cells.
pub open spec fn star_sum(t: OcTree, s: Set<nat>) -> int {
    s.fold(0int, |acc: int, v: nat| acc + star_of(t, v))
}

/// The natural numbers below `n`.
pub open spec fn nat_range(n: nat) -> Set<nat> {
    Set::new(|v: nat| v < n)
}

pub proof fn lemma_nat_range(n: nat)
    ensures
        nat_range(n).finite(),
        nat_range(n).len() == n,
    decreases n,
{
    if n == 0 {
        assert(nat_range(0) =~= Set::<nat>::empty());
    } else {
        lemma_nat_range((n - 1) as nat);
        assert(nat_range(n) =~= nat_range((n - 1) as nat).insert((n - 1) as nat));
    }
}

/// An empty set contributes no points.
pub proof fn lemma_star_sum_empty(t: OcTree)
    ensures
        star_sum(t, Set::<nat>::empty()) == 0,
{
    lemma_fold_empty(0int, |acc: int, v: nat| acc + star_of(t, v));
}

/// Loading one more cell adds exactly its count.
pub proof fn lemma_star_sum_insert(t: OcTree, s: Set<nat>, v: nat)
    requires
        s.finite(),
        !s.contains(v),
    ensures
        star_sum(t, s.insert(v)) == star_sum(t, s) + star_of(t, v),
{
    let f = |acc: int, w: nat| acc + star_of(t, w);
    assert(is_fun_commutative(f));
    lemma_fold_insert(s, 0int, f, v);
}

/// Evicting one cell subtracts exactly its count.
pub proof fn lemma_star_sum_remove(t: OcTree, s: Set<nat>, v: nat)
    requires
        s.finite(),
        s.contains(v),
    ensures
        star_sum(t, s) == star_sum(t, s.remove(v)) + star_of(t, v),
{
    lemma_star_sum_insert(t, s.remove(v), v);
    assert(s.remove(v).insert(v) =~= s);
}

/// The total is bounded by the cell count times the largest single count.
pub proof fn lemma_star_sum_bound(t: OcTree, s: Set<nat>)
    requires
        s.finite(),
    ensures
        -(s.len() as int) * 0x8000_0000 <= star_sum(t, s) <= (s.len() as int) * 0x8000_0000,
    decreases s.len(),
{
    if s.is_empty() {
        assert(s =~= Set::<nat>::empty());
        lemma_star_sum_empty(t);
    } else {
        let v = s.choose();
        lemma_star_sum_remove(t, s, v);
        lemma_star_sum_bound(t, s.remove(v));
    }
}

/// Sort key for the load order: squared distance from the observer to the
/// box's midpoint, scaled by four to stay integral.
pub open spec fn dist_key(t: OcTree, center: [i64; 3], v: int) -> int {
    let b = t.nodes()[v].aabb;
    sq(2 * center[0] - (b.min[0] + b.max[0])) + sq(2 * center[1] - (b.min[1] + b.max[1])) + sq(
        2 * center[2] - (b.min[2] + b.max[2]),
    )
}

/// Compute the sort key of one cell.
fn dist_key_exec(t: &OcTree, center: [i64; 3], v: usize) -> (r: u128)
    requires
        t.wf(),
        coord_ok(center),
        v < t.nodes().len(),
    ensures
        r as int == dist_key(*t, center, v as int),
{
    proof {
        assert(t.node_wf(v as int));
    }
    let b = t.get(v).aabb;
    let d0: i128 = 2 * (center[0] as i128) - (b.min[0] as i128 + b.max[0] as i128);
    let d1: i128 = 2 * (center[1] as i128) - (b.min[1] as i128 + b.max[1] as i128);
    let d2: i128 = 2 * (center[2] as i128) - (b.min[2] as i128 + b.max[2] as i128);
    let u0: u128 = if d0 < 0 {
        (-d0) as u128
    } else {
        d0 as u128
    };
    let u1: u128 = if d1 < 0 {
        (-d1) as u128
    } else {
        d1 as u128
    };
    let u2: u128 = if d2 < 0 {
        (-d2) as u128
    } else {
        d2 as u128
    };
    proof {
        lemma_square_bound(u0 as int, 0x8000_0000_0000_0000);
        lemma_square_bound(u1 as int, 0x8000_0000_0000_0000);
        lemma_square_bound(u2 as int, 0x8000_0000_0000_0000);
        assert(u0 as int * u0 as int == sq(d0 as int)) by (nonlinear_arith)
            requires
                u0 as int == d0 as int || u0 as int == -(d0 as int),
        ;
        assert(u1 as int * u1 as int == sq(d1 as int)) by (nonlinear_arith)
            requires
                u1 as int == d1 as int || u1 as int == -(d1 as int),
        ;
        assert(u2 as int * u2 as int == sq(d2 as int)) by (nonlinear_arith)
            requires
                u2 as int == d2 as int || u2 as int == -(d2 as int),
        ;
    }
    u0 * u0 + u1 * u1 + u2 * u2
}

/// Swapping two positions leaves the multiset of elements unchanged.
proof fn lemma_swap_multiset(s: Seq<usize>, a: int, b: int)
    requires
        0 <= a < s.len(),
        0 <= b < s.len(),
    ensures
        s.update(a, s[b]).update(b, s[a]).to_multiset() == s.to_multiset(),
{
    broadcast use vstd::seq_lib::group_to_multiset_ensures;

    let s1 = s.update(a, s[b]);
    if a == b {
        assert(s1.update(b, s[a]) =~= s);
    } else {
        assert(s.to_multiset().contains(s[a]));
        assert(s1.to_multiset() =~= s.to_multiset().insert(s[b]).remove(s[a]));
        assert(s1[b] == s[b]);
        assert(s1.update(b, s[a]).to_multiset() =~= s1.to_multiset().insert(s[a]).remove(s[b]));
        assert(s1.update(b, s[a]).to_multiset() =~= s.to_multiset());
    }
}

/// Everything from `lo` on is ordered by the distance key.
pub open spec fn sorted_by_dist(t: OcTree, center: [i64; 3], s: Seq<usize>) -> bool {
    forall|a: int, b: int|
        0 <= a < b < s.len() ==> dist_key(t, center, #[trigger] s[a] as int) <= dist_key(
            t,
            center,
            #[trigger] s[b] as int,
        )
}

/// Reorder cells so that the ones closest to the observer come first; the
/// result holds exactly the same cells.
fn order_by_distance(t: &OcTree, items: &Vec<usize>, center: [i64; 3]) -> (r: Vec<usize>)
    requires
        t.wf(),
        coord_ok(center),
        forall|a: int| 0 <= a < items@.len() ==> (#[trigger] items@[a]) < t.nodes().len(),
    ensures
        r@.to_multiset() == items@.to_multiset(),
        r@.len() == items@.len(),
        sorted_by_dist(*t, center, r@),
        forall|a: int| 0 <= a < r@.len() ==> (#[trigger] r@[a]) < t.nodes().len(),
{
    broadcast use vstd::seq_lib::group_to_multiset_ensures;

    let mut v: Vec<usize> = Vec::new();
    let mut i: usize = 0;
    while i < items.len()
        invariant
            i <= items@.len(),
            v@ =~= items@.take(i as int),
        decreases items@.len() - i,
    {
        v.push(items[i]);
        proof {
            assert(v@ =~= items@.take(i as int + 1));
        }
        i = i + 1;
    }
    proof {
        assert(v@ =~= items@);
    }
    let n = v.len();
    let mut i: usize = 1;
    while i < n
        invariant
            t.wf(),
            coord_ok(center),
            1 <= i,
            i <= n || i == 1,
            n == v@.len(),
            v@.to_multiset() == items@.to_multiset(),
            forall|a: int| 0 <= a < v@.len() ==> (#[trigger] v@[a]) < t.nodes().len(),
            forall|a: int, b: int|
                0 <= a < b < i as int ==> dist_key(*t, center, #[trigger] v@[a] as int)
                    <= dist_key(*t, center, #[trigger] v@[b] as int),
        decreases n - i,
    {
        let mut j: usize = i;
        while j > 0
            invariant_except_break
                t.wf(),
                coord_ok(center),
                0 <= j <= i < n,
                n == v@.len(),
                v@.to_multiset() == items@.to_multiset(),
                forall|a: int| 0 <= a < v@.len() ==> (#[trigger] v@[a]) < t.nodes().len(),
                forall|a: int, b: int|
                    0 <= a < b <= i as int && b != j as int ==> dist_key(
                        *t,
                        center,
                        #[trigger] v@[a] as int,
                    ) <= dist_key(*t, center, #[trigger] v@[b] as int),
            ensures
                t.wf(),
                coord_ok(center),
                n == v@.len(),
                v@.to_multiset() == items@.to_multiset(),
                forall|a: int| 0 <= a < v@.len() ==> (#[trigger] v@[a]) < t.nodes().len(),
                forall|a: int, b: int|
                    0 <= a < b <= i as int ==> dist_key(*t, center, #[trigger] v@[a] as int)
                        <= dist_key(*t, center, #[trigger] v@[b] as int),
            decreases j,
        {
            let kp = dist_key_exec(t, center, v[j - 1]);
            let kc = dist_key_exec(t, center, v[j]);
            if kp <= kc {
                proof {
                    assert forall|a: int, b: int|
                        0 <= a < b <= i as int implies dist_key(
                        *t,
                        center,
                        v@[a] as int,
                    ) <= dist_key(*t, center, v@[b] as int) by {
                        if b == j as int && a < j as int - 1 {
                            assert(dist_key(*t, center, v@[a] as int) <= dist_key(
                                *t,
                                center,
                                v@[j as int - 1] as int,
                            ));
                        }
                    }
                }
                break ;
            }
            let ghost before = v@;
            let x = v[j - 1];
            let y = v[j];
            v.set(j - 1, y);
            v.set(j, x);
            proof {
                assert(v@ =~= before.update(j as int - 1, before[j as int]).update(
                    j as int,
                    before[j as int - 1],
                ));
                lemma_swap_multiset(before, j as int - 1, j as int);
            }
            j = j - 1;
        }
        i = i + 1;
    }
    proof {
        if n == 0 {
            assert(sorted_by_dist(*t, center, v@));
        }
    }
    v
}


/// What the orchestrator decides for one cell that fell out of range.
#[derive(Clone, Copy, Debug, PartialEq, Eq, Structural)]
pub enum UnloadAction {
    /// The cell was loaded: remove this render entity.
    Despawn(u64),
    /// The cell's result had not arrived yet: the request is merely
    /// forgotten, and the late result will be discarded on arrival.
    Cancelled,
}

/// Orchestrator-side state of the load pipeline: the differ, the cells
/// with a request in flight, the loaded cells, and the running point
/// count, which always equals the sum over the loaded cells.
pub struct ParticleLoader {
    pub buffered_octant_loader: BufferedOctantLoader,
    loading_octants: EntityMap,
    loaded_octants: EntityMap,
    star_total: i128,
}

impl ParticleLoader {
    /// Cells with a request in flight, keyed to their placeholder entity.
    pub closed spec fn loading(self) -> Map<nat, u64> {
        entity_map(&self.loading_octants)
    }

    /// Loaded cells, keyed to their render entity.
    pub closed spec fn loaded_cells(self) -> Map<nat, u64> {
        entity_map(&self.loaded_octants)
    }

    /// The running point count.
    pub closed spec fn stars(self) -> int {
        self.star_total as int
    }

    /// The differ, as contracts speak of it.
    pub closed spec fn bol(self) -> BufferedOctantLoader {
        self.buffered_octant_loader
    }

    /// The shared spatial index.
    pub open spec fn tree(self) -> OcTree {
        self.bol().tree()
    }

    pub open spec fn wf(self) -> bool {
        &&& self.bol().wf()
        &&& self.loading().dom().finite()
        &&& self.loaded_cells().dom().finite()
        &&& self.loading().dom().disjoint(self.loaded_cells().dom())
        &&& forall|v: nat|
            self.loading().dom().contains(v) ==> v < self.tree().nodes().len()
        &&& forall|v: nat|
            self.loaded_cells().dom().contains(v) ==> v < self.tree().nodes().len()
        &&& self.stars() == star_sum(self.tree(), self.loaded_cells().dom())
    }

    pub fn new(buffered_octant_loader: BufferedOctantLoader) -> (r: Self)
        requires
            buffered_octant_loader.wf(),
        ensures
            r.wf(),
            r.bol() == buffered_octant_loader,
            r.loading() == Map::<nat, u64>::empty(),
            r.loaded_cells() == Map::<nat, u64>::empty(),
            r.stars() == 0,
    {
        let r = ParticleLoader {
            buffered_octant_loader,
            loading_octants: vm_new(),
            loaded_octants: vm_new(),
            star_total: 0,
        };
        proof {
            lemma_star_sum_empty(r.tree());
        }
        r
    }

    /// A worker's result for `index` arrived.  If the cell still has a
    /// request in flight, it becomes loaded, its point count joins the
    /// total, and the entity to attach the batch to is returned; a cell
    /// that was evicted before its result arrived is discarded and the
    /// state does not change.
    pub fn handle_result(&mut self, index: usize) -> (r: Option<u64>)
        requires
            old(self).wf(),
        ensures
            final(self).wf(),
            final(self).bol() == old(self).bol(),
            match r {
                Some(entity) => {
                    &&& old(self).loading().dom().contains(index as nat)
                    &&& entity == old(self).loading()[index as nat]
                    &&& final(self).loading() == old(self).loading().remove(index as nat)
                    &&& final(self).loaded_cells() == old(self).loaded_cells().insert(
                        index as nat,
                        entity,
                    )
                    &&& final(self).stars() == old(self).stars() + star_of(
                        old(self).tree(),
                        index as nat,
                    )
                },
                None => {
                    &&& !old(self).loading().dom().contains(index as nat)
                    &&& final(self).loading() == old(self).loading()
                    &&& final(self).loaded_cells() == old(self).loaded_cells()
                    &&& final(self).stars() == old(self).stars()
                },
            },
    {
        match vm_remove(&mut self.loading_octants, index) {
            None => None,
            Some(entity) => {
                let star = self.buffered_octant_loader.tree_ref().get(index).star_count;
                proof {
                    lemma_star_sum_insert(
                        self.tree(),
                        self.loaded_cells().dom(),
                        index as nat,
                    );
                    lemma_star_sum_bound(self.tree(), self.loaded_cells().dom());
                    lemma_nat_range(self.tree().nodes().len() as nat);
                    lemma_len_subset(
                        self.loaded_cells().dom(),
                        nat_range(self.tree().nodes().len() as nat),
                    );
                }
                self.star_total = self.star_total + star as i128;
                vm_insert(&mut self.loaded_octants, index, entity);
                proof {
                    assert(self.loaded_cells().dom() =~= old(self).loaded_cells().dom().insert(
                        index as nat,
                    ));
                }
                Some(entity)
            },
        }
    }

    /// A newly visible cell begins loading: record its placeholder entity
    /// and mark the request as in flight.
    pub fn begin_load(&mut self, index: usize, entity: u64)
        requires
            old(self).wf(),
            index < old(self).tree().nodes().len(),
            !old(self).loading().dom().contains(index as nat),
            !old(self).loaded_cells().dom().contains(index as nat),
        ensures
            final(self).wf(),
            final(self).bol() == old(self).bol(),
            final(self).loading() == old(self).loading().insert(index as nat, entity),
            final(self).loaded_cells() == old(self).loaded_cells(),
            final(self).stars() == old(self).stars(),
    {
        vm_insert(&mut self.loading_octants, index, entity);
    }

    /// A tracked cell fell out of range.  A loaded cell hands back its
    /// entity for despawning and leaves the total; a cell still in flight
    /// is merely forgotten, so its late result will be discarded.
    pub fn unload(&mut self, index: usize) -> (r: UnloadAction)
        requires
            old(self).wf(),
            old(self).loading().dom().contains(index as nat) || old(
                self,
            ).loaded_cells().dom().contains(index as nat),
        ensures
            final(self).wf(),
            final(self).bol() == old(self).bol(),
            if old(self).loaded_cells().dom().contains(index as nat) {
                &&& r == UnloadAction::Despawn(old(self).loaded_cells()[index as nat])
                &&& final(self).loaded_cells() == old(self).loaded_cells().remove(index as nat)
                &&& final(self).loading() == old(self).loading()
                &&& final(self).stars() == old(self).stars() - star_of(
                    old(self).tree(),
                    index as nat,
                )
            } else {
                &&& r == UnloadAction::Cancelled
                &&& final(self).loading() == old(self).loading().remove(index as nat)
                &&& final(self).loaded_cells() == old(self).loaded_cells()
                &&& final(self).stars() == old(self).stars()
            },
    {
        match vm_remove(&mut self.loaded_octants, index) {
            Some(entity) => {
                let star = self.buffered_octant_loader.tree_ref().get(index).star_count;
                proof {
                    lemma_star_sum_remove(
                        self.tree(),
                        old(self).loaded_cells().dom(),
                        index as nat,
                    );
                    lemma_star_sum_bound(self.tree(), old(self).loaded_cells().dom());
                    lemma_nat_range(self.tree().nodes().len() as nat);
                    lemma_len_subset(
                        old(self).loaded_cells().dom(),
                        nat_range(self.tree().nodes().len() as nat),
                    );
                }
                self.star_total = self.star_total - star as i128;
                UnloadAction::Despawn(entity)
            },
            None => {
                vm_remove(&mut self.loading_octants, index);
                UnloadAction::Cancelled
            },
        }
    }


    /// Once per tick: run the differ for the current observer sphere and
    /// hand back the newly visible cells ordered by distance, nearest
    /// first, along with the cells that fell out of range.  The caller
    /// drains worker results through `handle_result` before this, then
    /// allocates a placeholder entity and calls `begin_load` for each cell
    /// of the first vector, and settles each cell of the second through
    /// `unload`.
    pub fn update_chunks(&mut self, pos: [i64; 3], radius: i64) -> (r: (Vec<usize>, Vec<usize>))
        requires
            old(self).wf(),
            coord_ok(pos),
            0 <= radius <= COORD_LIMIT,
        ensures
            final(self).wf(),
            final(self).tree() == old(self).tree(),
            final(self).loading() == old(self).loading(),
            final(self).loaded_cells() == old(self).loaded_cells(),
            final(self).stars() == old(self).stars(),
            final(self).bol().loaded() == hit_set(
                old(self).tree(),
                Sphere { center: pos, radius },
            ),
            sorted_by_dist(old(self).tree(), pos, r.0@),
            r.0@.no_duplicates(),
            r.1@.no_duplicates(),
            seq_index_set(r.0@) == hit_set(old(self).tree(), Sphere { center: pos, radius })
                .difference(old(self).bol().loaded()),
            seq_index_set(r.1@) == old(self).bol().loaded().difference(
                hit_set(old(self).tree(), Sphere { center: pos, radius }),
            ),
            forall|a: int|
                0 <= a < r.0@.len() ==> (#[trigger] r.0@[a]) < old(self).tree().nodes().len(),
            forall|a: int|
                0 <= a < r.1@.len() ==> (#[trigger] r.1@[a]) < old(self).tree().nodes().len(),
    {
        broadcast use vstd::seq_lib::group_to_multiset_ensures;

        let sphere = Sphere { center: pos, radius };
        let (to_load, to_unload) = self.buffered_octant_loader.load_octants(&sphere);
        let sorted = order_by_distance(self.buffered_octant_loader.tree_ref(), &to_load, pos);
        proof {
            assert forall|w: nat|
                seq_index_set(sorted@).contains(w) == seq_index_set(to_load@).contains(w) by {
                if vec_contains_index(sorted@, w as int) {
                    let tt: int = choose|tt: int|
                        0 <= tt < sorted@.len() && #[trigger] sorted@[tt] == w as int;
                    assert(sorted@.to_multiset().contains(sorted@[tt]));
                    assert(to_load@.to_multiset().contains(sorted@[tt]));
                    assert(to_load@.contains(sorted@[tt]));
                    let uu: int = choose|uu: int|
                        0 <= uu < to_load@.len() && #[trigger] to_load@[uu] == sorted@[tt];
                }
                if vec_contains_index(to_load@, w as int) {
                    let tt: int = choose|tt: int|
                        0 <= tt < to_load@.len() && #[trigger] to_load@[tt] == w as int;
                    assert(to_load@.to_multiset().contains(to_load@[tt]));
                    assert(sorted@.to_multiset().contains(to_load@[tt]));
                    assert(sorted@.contains(to_load@[tt]));
                    let uu: int = choose|uu: int|
                        0 <= uu < sorted@.len() && #[trigger] sorted@[uu] == to_load@[tt];
                }
            }
            assert(seq_index_set(sorted@) =~= seq_index_set(to_load@));
            to_load@.lemma_multiset_has_no_duplicates();
            sorted@.lemma_multiset_has_no_duplicates_conv();
        }
        (sorted, to_unload)
    }

    /// The running point count, as the callers read it.
    pub fn star_count(&self) -> (r: i128)
        ensures
            r == self.stars(),
    {
        self.star_total
    }

    /// Whether the pipeline is tracking `index` at all.
    pub fn is_tracked(&self, index: usize) -> (r: bool)
        ensures
            r == (self.loading().dom().contains(index as nat)
                || self.loaded_cells().dom().contains(index as nat)),
    {
        vm_contains_key(&self.loading_octants, index) || vm_contains_key(
            &self.loaded_octants,
            index,
        )
    }
}

} // verus!
