//! The spatial index: an immutable tree of axis-aligned octants, built once
//! from the decoded node list, with child references resolved from stored
//! identifiers to array positions, and a depth-first sphere search over it.

use vstd::prelude::*;

use std::collections::HashMap;

use crate::geom::{
    check_aabb_wf, intersects, lemma_intersect_box_mono, lemma_intersect_radius_mono,
    sphere_intersects_aabb, Aabb, Sphere,
};

use crate::codec::spec_file_header;
use crate::octant::{header_count, octant_records_view, spec_octant_records, OctantRecord};

verus! {

/// The stored child reference meaning "no child".
pub const NO_CHILD: i64 = -1;

/// A node of the spatial index.  `children` holds array positions after
/// construction (`-1` for an absent child); `depth` is the distance from
/// the root.
#[derive(Clone, Copy, Debug)]
pub struct Octant {
    pub octant_id: u64,
    pub aabb: Aabb,
    pub children: [i64; 8],
    pub depth: i32,
    pub cumulative_star_count: i32,
    pub star_count: i32,
    pub child_count: i32,
}

impl Octant {
    /// Decode a whole spatial-index file into the raw records that this
    /// node type is built from; same contract as the record decoder.
    pub fn iter_from_reader(b: &Vec<u8>) -> (r: Option<Vec<OctantRecord>>)
        ensures
            match r {
                Some(v) => spec_file_header(b@) matches Some((h, off)) && octant_records_view(v@)
                    == spec_octant_records(b@, off, header_count(h)),
                None => spec_file_header(b@) is None,
            },
    {
        OctantRecord::iter_from_reader(b)
    }
}

/// Why index construction was refused; all of these abort catalog startup.
#[derive(Clone, Copy, Debug, PartialEq, Eq, Structural)]
pub enum TreeError {
    /// More nodes than child references can address.
    TooManyNodes,
    /// A bounding box outside the fixed-point range, or inverted.
    InvalidBounds,
    /// A depth outside `0 .. node count`.
    BadDepth,
    /// A child identifier that no node carries.
    UnresolvedChild,
    /// No node has depth zero.
    NoRoot,
    /// More than one node claims depth zero.
    MultipleRoots,
    /// A resolved child whose depth is not its parent's plus one.
    DepthMismatch,
    /// A node with two parents, or a non-root node with none.
    NotATree,
}

/// The largest array position with the given identifier, `-1` when none
/// carries it; when identifiers collide the last node wins, as the
/// id-to-position map is built in one forward pass.
pub open spec fn last_with_id(s: Seq<Octant>, id: u64) -> int
    decreases s.len(),
{
    if s.len() == 0 {
        -1
    } else if s[s.len() - 1].octant_id == id {
        s.len() - 1
    } else {
        last_with_id(s.drop_last(), id)
    }
}

/// Where a stored child identifier resolves to: `-1` for the absent
/// sentinel, `-2` for an identifier no node carries.
pub open spec fn resolve_ref(s: Seq<Octant>, id: i64) -> int {
    if id == -1 {
        -1
    } else if id < 0 {
        -2
    } else {
        let j = last_with_id(s, id as u64);
        if j < 0 {
            -2
        } else {
            j
        }
    }
}

/// The array position the child reference in slot `k` of node `p` resolves
/// to.
pub open spec fn resolved_child(s: Seq<Octant>, p: int, k: int) -> int {
    resolve_ref(s, s[p].children[k])
}

/// `last_with_id` stays inside the array and finds a matching identifier.
pub proof fn lemma_last_with_id_range(s: Seq<Octant>, id: u64)
    ensures
        -1 <= last_with_id(s, id) < s.len(),
        last_with_id(s, id) >= 0 ==> s[last_with_id(s, id)].octant_id == id,
    decreases s.len(),
{
    if s.len() == 0 {
    } else if s[s.len() - 1].octant_id == id {
    } else {
        lemma_last_with_id_range(s.drop_last(), id);
        if last_with_id(s, id) >= 0 {
            assert(s.drop_last()[last_with_id(s, id)] == s[last_with_id(s, id)]);
        }
    }
}

/// Bounds and depth of one input node are acceptable.
pub open spec fn input_node_ok(s: Seq<Octant>, i: int) -> bool {
    &&& s[i].aabb.wf()
    &&& 0 <= s[i].depth < s.len()
}

/// Exactly one input node has depth zero.
pub open spec fn spec_one_root(s: Seq<Octant>) -> bool {
    &&& exists|i: int| 0 <= i < s.len() && #[trigger] s[i].depth == 0
    &&& forall|i: int, j: int|
        0 <= i < s.len() && 0 <= j < s.len() && #[trigger] s[i].depth == 0 && #[trigger] s[j].depth
            == 0 ==> i == j
}

/// The unique depth-zero position.
pub open spec fn spec_root_of(s: Seq<Octant>) -> int {
    choose|i: int| 0 <= i < s.len() && #[trigger] s[i].depth == 0
}

/// Every child reference resolves, to a node one level deeper.
pub open spec fn spec_children_ok(s: Seq<Octant>) -> bool {
    forall|p: int, k: int|
        0 <= p < s.len() && 0 <= k < 8 ==> #[trigger] resolved_child(s, p, k) >= -1 && (
        resolved_child(s, p, k) >= 0 ==> s[resolved_child(s, p, k)].depth == s[p].depth + 1)
}

/// No two child references resolve to the same node.
pub open spec fn spec_injective(s: Seq<Octant>) -> bool {
    forall|p1: int, k1: int, p2: int, k2: int|
        0 <= p1 < s.len() && 0 <= k1 < 8 && 0 <= p2 < s.len() && 0 <= k2 < 8 && #[trigger]
        resolved_child(s, p1, k1) == #[trigger] resolved_child(s, p2, k2) && resolved_child(
            s,
            p1,
            k1,
        ) >= 0 ==> p1 == p2 && k1 == k2
}

/// Node `j` is the root or somebody's child.
pub open spec fn node_parented(s: Seq<Octant>, j: int) -> bool {
    j == spec_root_of(s) || exists|p: int, k: int|
        0 <= p < s.len() && 0 <= k < 8 && #[trigger] resolved_child(s, p, k) == j
}

/// Every node but the root is somebody's child.
pub open spec fn spec_parented(s: Seq<Octant>) -> bool {
    forall|j: int| 0 <= j < s.len() ==> #[trigger] node_parented(s, j)
}

/// Everything construction demands of the input node list.
pub open spec fn spec_buildable(s: Seq<Octant>) -> bool {
    &&& s.len() <= 0x7fff_ffff_ffff_ffff
    &&& forall|i: int| 0 <= i < s.len() ==> #[trigger] input_node_ok(s, i)
    &&& spec_one_root(s)
    &&& spec_children_ok(s)
    &&& spec_injective(s)
    &&& spec_parented(s)
}

/// Construction keeps every field of a node except the rewritten child
/// references.
pub open spec fn node_preserved(a: Octant, b: Octant) -> bool {
    &&& b.octant_id == a.octant_id
    &&& b.aabb == a.aabb
    &&& b.depth == a.depth
    &&& b.cumulative_star_count == a.cumulative_star_count
    &&& b.star_count == a.star_count
    &&& b.child_count == a.child_count
}

/// Some child slot strictly before `(p, k)` in scan order resolves to `c`.
pub open spec fn has_edge_upto(s: Seq<Octant>, p: int, k: int, c: int) -> bool {
    exists|q: int, m: int|
        0 <= q && 0 <= m < 8 && (q < p || (q == p && m < k)) && #[trigger] resolved_child(s, q, m)
            == c
}

/// No two child slots strictly before `(p, k)` resolve to the same node.
pub open spec fn edges_unique_upto(s: Seq<Octant>, p: int, k: int) -> bool {
    forall|q1: int, m1: int, q2: int, m2: int|
        0 <= q1 && 0 <= m1 < 8 && (q1 < p || (q1 == p && m1 < k)) && 0 <= q2 && 0 <= m2 < 8 && (q2
            < p || (q2 == p && m2 < k)) && #[trigger] resolved_child(s, q1, m1) == #[trigger]
        resolved_child(s, q2, m2) && resolved_child(s, q1, m1) >= 0 ==> q1 == q2 && m1 == m2
}

/// Resolve one stored child identifier through the id-to-position map.
fn resolve_child(octants: &Vec<Octant>, map: &HashMap<u64, usize>, parent_depth: i32, id: i64) -> (r:
    Result<i64, TreeError>)
    requires
        octants@.len() <= 0x7fff_ffff_ffff_ffff,
        forall|x: u64| #![trigger map@.contains_key(x)]
            map@.contains_key(x) == (last_with_id(octants@, x) >= 0),
        forall|x: u64| #![trigger map@[x]]
            map@.contains_key(x) ==> map@[x] == last_with_id(octants@, x),
    ensures
        match r {
            Ok(c) => c == resolve_ref(octants@, id) && (c == -1 || (0 <= c < octants@.len()
                && octants@[c as int].depth == parent_depth + 1)),
            Err(e) => {
                &&& (e == TreeError::UnresolvedChild || e == TreeError::DepthMismatch)
                &&& e == TreeError::UnresolvedChild ==> resolve_ref(octants@, id) == -2
                &&& e == TreeError::DepthMismatch ==> resolve_ref(octants@, id) >= 0
                    && octants@[resolve_ref(octants@, id)].depth != parent_depth + 1
            },
        },
{
    if id == -1 {
        return Ok(-1);
    }
    if id < 0 {
        return Err(TreeError::UnresolvedChild);
    }
    let key: u64 = id as u64;
    match map.get(&key) {
        None => Err(TreeError::UnresolvedChild),
        Some(j_ref) => {
            let j: usize = *j_ref;
            proof {
                lemma_last_with_id_range(octants@, key);
            }
            if octants[j].depth as i64 == parent_depth as i64 + 1 {
                Ok(j as i64)
            } else {
                Err(TreeError::DepthMismatch)
            }
        },
    }
}

/// Rewrite the child references of node `p` from identifiers to array
/// positions.
#[verifier::rlimit(100)]
fn resolve_node(octants: &Vec<Octant>, map: &HashMap<u64, usize>, p: usize) -> (r: Result<
    Octant,
    TreeError,
>)
    requires
        octants@.len() <= 0x7fff_ffff_ffff_ffff,
        p < octants@.len(),
        forall|x: u64| #![trigger map@.contains_key(x)]
            map@.contains_key(x) == (last_with_id(octants@, x) >= 0),
        forall|x: u64| #![trigger map@[x]]
            map@.contains_key(x) ==> map@[x] == last_with_id(octants@, x),
    ensures
        match r {
            Ok(node) => {
                &&& node_preserved(octants@[p as int], node)
                &&& forall|k: int|
                    0 <= k < 8 ==> #[trigger] node.children[k] == resolved_child(
                        octants@,
                        p as int,
                        k,
                    )
                &&& forall|k: int|
                    0 <= k < 8 ==> #[trigger] resolved_child(octants@, p as int, k) >= -1 && (
                    resolved_child(octants@, p as int, k) >= 0 ==> resolved_child(
                        octants@,
                        p as int,
                        k,
                    ) < octants@.len() && octants@[resolved_child(octants@, p as int, k)].depth
                        == octants@[p as int].depth + 1)
            },
            Err(e) => {
                &&& !spec_children_ok(octants@)
                &&& e == TreeError::UnresolvedChild || e == TreeError::DepthMismatch
                &&& e == TreeError::UnresolvedChild ==> exists|k: int|
                    0 <= k < 8 && #[trigger] resolved_child(octants@, p as int, k) == -2
                &&& e == TreeError::DepthMismatch ==> exists|k: int|
                    0 <= k < 8 && #[trigger] resolved_child(octants@, p as int, k) >= 0
                        && octants@[resolved_child(octants@, p as int, k)].depth != octants@[
                        p as int
                    ].depth + 1
            },
        },
{
    let oct = &octants[p];
    let c0 = match resolve_child(octants, map, oct.depth, oct.children[0]) {
        Ok(c) => c,
        Err(e) => {
            proof {
                assert(resolved_child(octants@, p as int, 0) == resolve_ref(
                    octants@,
                    oct.children[0],
                ));
                assert(!spec_children_ok(octants@));
                if resolve_ref(octants@, oct.children[0]) == -2 {
                    assert(e == TreeError::UnresolvedChild);
                } else {
                    assert(e == TreeError::DepthMismatch);
                }
            }
            return Err(e);
        },
    };
    let c1 = match resolve_child(octants, map, oct.depth, oct.children[1]) {
        Ok(c) => c,
        Err(e) => {
            proof {
                assert(resolved_child(octants@, p as int, 1) == resolve_ref(
                    octants@,
                    oct.children[1],
                ));
                assert(!spec_children_ok(octants@));
                if resolve_ref(octants@, oct.children[1]) == -2 {
                    assert(e == TreeError::UnresolvedChild);
                } else {
                    assert(e == TreeError::DepthMismatch);
                }
            }
            return Err(e);
        },
    };
    let c2 = match resolve_child(octants, map, oct.depth, oct.children[2]) {
        Ok(c) => c,
        Err(e) => {
            proof {
                assert(resolved_child(octants@, p as int, 2) == resolve_ref(
                    octants@,
                    oct.children[2],
                ));
                assert(!spec_children_ok(octants@));
                if resolve_ref(octants@, oct.children[2]) == -2 {
                    assert(e == TreeError::UnresolvedChild);
                } else {
                    assert(e == TreeError::DepthMismatch);
                }
            }
            return Err(e);
        },
    };
    let c3 = match resolve_child(octants, map, oct.depth, oct.children[3]) {
        Ok(c) => c,
        Err(e) => {
            proof {
                assert(resolved_child(octants@, p as int, 3) == resolve_ref(
                    octants@,
                    oct.children[3],
                ));
                assert(!spec_children_ok(octants@));
                if resolve_ref(octants@, oct.children[3]) == -2 {
                    assert(e == TreeError::UnresolvedChild);
                } else {
                    assert(e == TreeError::DepthMismatch);
                }
            }
            return Err(e);
        },
    };
    let c4 = match resolve_child(octants, map, oct.depth, oct.children[4]) {
        Ok(c) => c,
        Err(e) => {
            proof {
                assert(resolved_child(octants@, p as int, 4) == resolve_ref(
                    octants@,
                    oct.children[4],
                ));
                assert(!spec_children_ok(octants@));
                if resolve_ref(octants@, oct.children[4]) == -2 {
                    assert(e == TreeError::UnresolvedChild);
                } else {
                    assert(e == TreeError::DepthMismatch);
                }
            }
            return Err(e);
        },
    };
    let c5 = match resolve_child(octants, map, oct.depth, oct.children[5]) {
        Ok(c) => c,
        Err(e) => {
            proof {
                assert(resolved_child(octants@, p as int, 5) == resolve_ref(
                    octants@,
                    oct.children[5],
                ));
                assert(!spec_children_ok(octants@));
                if resolve_ref(octants@, oct.children[5]) == -2 {
                    assert(e == TreeError::UnresolvedChild);
                } else {
                    assert(e == TreeError::DepthMismatch);
                }
            }
            return Err(e);
        },
    };
    let c6 = match resolve_child(octants, map, oct.depth, oct.children[6]) {
        Ok(c) => c,
        Err(e) => {
            proof {
                assert(resolved_child(octants@, p as int, 6) == resolve_ref(
                    octants@,
                    oct.children[6],
                ));
                assert(!spec_children_ok(octants@));
                if resolve_ref(octants@, oct.children[6]) == -2 {
                    assert(e == TreeError::UnresolvedChild);
                } else {
                    assert(e == TreeError::DepthMismatch);
                }
            }
            return Err(e);
        },
    };
    let c7 = match resolve_child(octants, map, oct.depth, oct.children[7]) {
        Ok(c) => c,
        Err(e) => {
            proof {
                assert(resolved_child(octants@, p as int, 7) == resolve_ref(
                    octants@,
                    oct.children[7],
                ));
                assert(!spec_children_ok(octants@));
                if resolve_ref(octants@, oct.children[7]) == -2 {
                    assert(e == TreeError::UnresolvedChild);
                } else {
                    assert(e == TreeError::DepthMismatch);
                }
            }
            return Err(e);
        },
    };
    let node = Octant {
        octant_id: oct.octant_id,
        aabb: oct.aabb,
        children: [c0, c1, c2, c3, c4, c5, c6, c7],
        depth: oct.depth,
        cumulative_star_count: oct.cumulative_star_count,
        star_count: oct.star_count,
        child_count: oct.child_count,
    };
    proof {
        assert forall|k: int| 0 <= k < 8 implies #[trigger] node.children[k] == resolved_child(
            octants@,
            p as int,
            k,
        ) by {
            if k == 0 {
            } else if k == 1 {
            } else if k == 2 {
            } else if k == 3 {
            } else if k == 4 {
            } else if k == 5 {
            } else if k == 6 {
            } else {
                assert(k == 7);
            }
        }
    }
    Ok(node)
}

/// The spatial index.  Owns the flat node array and the root's position;
/// immutable after construction.
#[derive(Clone)]
pub struct OcTree {
    octants: Vec<Octant>,
    root_index: usize,
}

impl OcTree {
    /// The node array.
    pub closed spec fn nodes(self) -> Seq<Octant> {
        self.octants@
    }

    /// The root's array position.
    pub closed spec fn root(self) -> int {
        self.root_index as int
    }

    /// The resolved child reference in slot `k` of node `p`.
    pub open spec fn child_at(self, p: int, k: int) -> i64 {
        self.nodes()[p].children[k]
    }

    /// Node `c` is the child in slot `k` of node `p`.
    pub open spec fn is_child(self, p: int, k: int, c: int) -> bool {
        &&& 0 <= p < self.nodes().len()
        &&& 0 <= k < 8
        &&& self.child_at(p, k) == c
        &&& c != -1
    }

    /// Each node's box is in range and its children point one level deeper.
    pub open spec fn node_wf(self, i: int) -> bool {
        let n = self.nodes();
        &&& n[i].aabb.wf()
        &&& 0 <= n[i].depth < n.len()
        &&& forall|k: int|
            0 <= k < 8 ==> (#[trigger] n[i].children[k]) == -1 || (0 <= n[i].children[k]
                < n.len() && n[n[i].children[k] as int].depth == n[i].depth + 1)
    }

    /// Structural well-formedness: what the search relies on.
    pub open spec fn wf(self) -> bool {
        &&& self.nodes().len() <= 0x7fff_ffff_ffff_ffff
        &&& self.nodes().len() <= usize::MAX
        &&& 0 <= self.root() < self.nodes().len()
        &&& self.nodes()[self.root()].depth == 0
        &&& forall|i: int| #![trigger self.nodes()[i]]
            0 <= i < self.nodes().len() ==> self.node_wf(i)
    }

    /// Only the root has depth zero.
    pub open spec fn unique_root(self) -> bool {
        forall|i: int|
            0 <= i < self.nodes().len() && (#[trigger] self.nodes()[i].depth) == 0 ==> i
                == self.root()
    }

    /// No node has two parents.
    pub open spec fn single_parent(self) -> bool {
        forall|p1: int, k1: int, p2: int, k2: int, c: int|
            #[trigger] self.is_child(p1, k1, c) && #[trigger] self.is_child(p2, k2, c) ==> p1 == p2
                && k1 == k2
    }

    /// Node `j` is the root or somebody's child.
    pub open spec fn node_is_parented(self, j: int) -> bool {
        j == self.root() || exists|p: int, k: int| self.is_child(p, k, j)
    }

    /// Every node but the root is somebody's child.
    pub open spec fn parented(self) -> bool {
        forall|j: int| 0 <= j < self.nodes().len() ==> #[trigger] self.node_is_parented(j)
    }

    /// Build the index from the order-independent decoded node list:
    /// check bounds and depths, find the unique root, build the
    /// id-to-position map in one pass, rewrite every child reference from
    /// identifier to array position, and refuse inputs whose edges do not
    /// form a tree over all nodes.  Succeeds exactly on `spec_buildable`
    /// inputs.
    #[verifier::rlimit(100)]
    pub fn new(octants: Vec<Octant>) -> (r: Result<OcTree, TreeError>)
        ensures
            r is Ok <==> spec_buildable(octants@),
            match r {
                Ok(t) => {
                    &&& t.wf()
                    &&& t.unique_root()
                    &&& t.single_parent()
                    &&& t.parented()
                    &&& t.nodes().len() == octants@.len()
                    &&& t.root() == spec_root_of(octants@)
                    &&& forall|i: int|
                        0 <= i < octants@.len() ==> node_preserved(
                            octants@[i],
                            #[trigger] t.nodes()[i],
                        )
                    &&& forall|p: int, k: int|
                        0 <= p < octants@.len() && 0 <= k < 8 ==> #[trigger] t.child_at(p, k)
                            == resolved_child(octants@, p, k)
                },
                Err(e) => {
                    &&& e == TreeError::TooManyNodes ==> octants@.len()
                        > 0x7fff_ffff_ffff_ffff
                    &&& e == TreeError::InvalidBounds ==> exists|i: int|
                        0 <= i < octants@.len() && !(#[trigger] octants@[i]).aabb.wf()
                    &&& e == TreeError::BadDepth ==> exists|i: int|
                        0 <= i < octants@.len() && !(0 <= (#[trigger] octants@[i]).depth
                            < octants@.len())
                    &&& e == TreeError::NoRoot ==> forall|i: int|
                        0 <= i < octants@.len() ==> (#[trigger] octants@[i]).depth != 0
                    &&& e == TreeError::MultipleRoots ==> exists|i: int, j: int|
                        0 <= i < octants@.len() && 0 <= j < octants@.len() && i != j
                            && (#[trigger] octants@[i]).depth == 0 && (#[trigger] octants@[j]).depth
                            == 0
                    &&& e == TreeError::UnresolvedChild ==> exists|q: int, k: int|
                        0 <= q < octants@.len() && 0 <= k < 8 && #[trigger] resolved_child(
                            octants@,
                            q,
                            k,
                        ) == -2
                    &&& e == TreeError::DepthMismatch ==> exists|q: int, k: int|
                        0 <= q < octants@.len() && 0 <= k < 8 && #[trigger] resolved_child(
                            octants@,
                            q,
                            k,
                        ) >= 0 && octants@[resolved_child(octants@, q, k)].depth != octants@[
                            q
                        ].depth + 1
                    &&& e == TreeError::NotATree ==> !(spec_injective(octants@) && spec_parented(
                        octants@,
                    ))
                },
            },
    {
        let n = octants.len();
        if n as u64 > 0x7fff_ffff_ffff_ffffu64 {
            return Err(TreeError::TooManyNodes);
        }
        let ghost s = octants@;
        // Bounds and depth of every node.
        let mut i: usize = 0;
        while i < n
            invariant
                n == s.len() <= 0x7fff_ffff_ffff_ffff,
                s == octants@,
                i <= n,
                forall|j: int| 0 <= j < i ==> #[trigger] input_node_ok(s, j),
            decreases n - i,
        {
            if !check_aabb_wf(&octants[i].aabb) {
                assert(!input_node_ok(s, i as int));
                return Err(TreeError::InvalidBounds);
            }
            if octants[i].depth < 0 || octants[i].depth as i64 >= n as i64 {
                assert(!input_node_ok(s, i as int));
                return Err(TreeError::BadDepth);
            }
            i = i + 1;
        }
        // The unique root.
        let mut root_opt: Option<usize> = None;
        let mut i: usize = 0;
        while i < n
            invariant
                n == s.len(),
                s == octants@,
                i <= n,
                match root_opt {
                    None => forall|j: int| 0 <= j < i ==> (#[trigger] s[j].depth) != 0,
                    Some(r) => r < i && s[r as int].depth == 0 && forall|j: int|
                        0 <= j < i && (#[trigger] s[j].depth) == 0 ==> j == r,
                },
            decreases n - i,
        {
            if octants[i].depth == 0 {
                if root_opt.is_some() {
                    return Err(TreeError::MultipleRoots);
                }
                root_opt = Some(i);
            }
            i = i + 1;
        }
        let root: usize = match root_opt {
            None => {
                return Err(TreeError::NoRoot);
            },
            Some(r) => r,
        };
        proof {
            assert(s[root as int].depth == 0);
            assert(spec_one_root(s));
            assert(spec_root_of(s) == root);
        }
        // The id-to-position map; on identifier collisions the last node
        // wins.
        let mut map: HashMap<u64, usize> = HashMap::new();
        let mut i: usize = 0;
        proof {
            assert(s.take(0) =~= Seq::<Octant>::empty());
        }
        while i < n
            invariant
                n == s.len(),
                s == octants@,
                i <= n,
                forall|x: u64| #![trigger map@.contains_key(x)]
                    map@.contains_key(x) == (last_with_id(s.take(i as int), x) >= 0),
                forall|x: u64| #![trigger map@[x]]
                    map@.contains_key(x) ==> map@[x] == last_with_id(s.take(i as int), x),
            decreases n - i,
        {
            map.insert(octants[i].octant_id, i);
            proof {
                assert(s.take(i + 1).drop_last() =~= s.take(i as int));
                assert(s.take(i + 1)[i as int] == s[i as int]);
                assert forall|x: u64|
                    map@.contains_key(x) == (last_with_id(s.take(i + 1), x) >= 0) && (
                    map@.contains_key(x) ==> map@[x] == last_with_id(s.take(i + 1), x)) by {
                    lemma_last_with_id_range(s.take(i as int), x);
                }
            }
            i = i + 1;
        }
        proof {
            assert(s.take(n as int) =~= s);
        }
        // Rewrite child references from identifiers to array positions.
        let mut resolved: Vec<Octant> = Vec::new();
        let mut p: usize = 0;
        while p < n
            invariant
                n == s.len() <= 0x7fff_ffff_ffff_ffff,
                s == octants@,
                p <= n,
                resolved@.len() == p,
                forall|x: u64| #![trigger map@.contains_key(x)]
                    map@.contains_key(x) == (last_with_id(s, x) >= 0),
                forall|x: u64| #![trigger map@[x]]
                    map@.contains_key(x) ==> map@[x] == last_with_id(s, x),
                forall|i: int| 0 <= i < s.len() ==> #[trigger] input_node_ok(s, i),
                forall|q: int| 0 <= q < p ==> node_preserved(s[q], #[trigger] resolved@[q]),
                forall|q: int, k: int|
                    0 <= q < p && 0 <= k < 8 ==> #[trigger] resolved@[q].children[k]
                        == resolved_child(s, q, k),
                forall|q: int, k: int|
                    0 <= q < p && 0 <= k < 8 ==> #[trigger] resolved_child(s, q, k) >= -1 && (
                    resolved_child(s, q, k) >= 0 ==> resolved_child(s, q, k) < n
                        && s[resolved_child(s, q, k)].depth == s[q].depth + 1),
            decreases n - p,
        {
            let node = match resolve_node(&octants, &map, p) {
                Ok(node) => node,
                Err(e) => {
                    return Err(e);
                },
            };
            resolved.push(node);
            p = p + 1;
        }
        proof {
            assert(spec_children_ok(s));
        }
        // Every node must have exactly one parent, except the root, which
        // must have none; depth monotonicity already rules a parented root
        // out.
        let mut has_parent: Vec<bool> = Vec::new();
        while has_parent.len() < n
            invariant
                has_parent@.len() <= n,
                forall|j: int| 0 <= j < has_parent@.len() ==> !(#[trigger] has_parent@[j]),
            decreases n - has_parent@.len(),
        {
            has_parent.push(false);
        }
        let mut p: usize = 0;
        while p < n
            invariant
                n == s.len(),
                s == octants@,
                p <= n,
                has_parent@.len() == n,
                forall|c: int|
                    0 <= c < n ==> ((#[trigger] has_parent@[c]) <==> has_edge_upto(
                        s,
                        p as int,
                        0,
                        c,
                    )),
                edges_unique_upto(s, p as int, 0),
                resolved@.len() == n,
                forall|q: int, k: int|
                    0 <= q < n && 0 <= k < 8 ==> #[trigger] resolved_child(s, q, k) >= -1 && (
                    resolved_child(s, q, k) >= 0 ==> resolved_child(s, q, k) < n),
                forall|q: int, k: int|
                    0 <= q < n && 0 <= k < 8 ==> #[trigger] resolved@[q].children[k]
                        == resolved_child(s, q, k),
            decreases n - p,
        {
            let mut k: usize = 0;
            while k < 8
                invariant
                    n == s.len(),
                    s == octants@,
                    p < n,
                    k <= 8,
                    has_parent@.len() == n,
                    forall|c: int|
                        0 <= c < n ==> ((#[trigger] has_parent@[c]) <==> has_edge_upto(
                            s,
                            p as int,
                            k as int,
                            c,
                        )),
                    edges_unique_upto(s, p as int, k as int),
                    resolved@.len() == n,
                    forall|q: int, kk: int|
                        0 <= q < n && 0 <= kk < 8 ==> #[trigger] resolved_child(s, q, kk) >= -1 && (
                        resolved_child(s, q, kk) >= 0 ==> resolved_child(s, q, kk) < n),
                    forall|q: int, kk: int|
                        0 <= q < n && 0 <= kk < 8 ==> #[trigger] resolved@[q].children[kk]
                            == resolved_child(s, q, kk),
                decreases 8 - k,
            {
                let c = resolved[p].children[k];
                if c != -1 {
                    let cu = c as usize;
                    if has_parent[cu] {
                        proof {
                            let (q, m): (int, int) = choose|q: int, m: int|
                                0 <= q && 0 <= m < 8 && (q < p as int || (q == p as int && m
                                    < k as int)) && #[trigger] resolved_child(s, q, m) == cu as int;
                            assert(resolved_child(s, q, m) == resolved_child(s, p as int, k as int));
                            assert(!spec_injective(s));
                        }
                        return Err(TreeError::NotATree);
                    }
                    has_parent.set(cu, true);
                }
                proof {
                    assert forall|cc: int| 0 <= cc < n implies ((#[trigger] has_parent@[cc])
                        <==> has_edge_upto(s, p as int, k as int + 1, cc)) by {
                        if resolved_child(s, p as int, k as int) == cc {
                            assert(has_edge_upto(s, p as int, k as int + 1, cc));
                        } else {
                            assert(has_edge_upto(s, p as int, k as int + 1, cc) == has_edge_upto(
                                s,
                                p as int,
                                k as int,
                                cc,
                            ));
                        }
                    }
                }
                k = k + 1;
            }
            proof {
                assert forall|cc: int| 0 <= cc < n implies ((#[trigger] has_parent@[cc])
                    <==> has_edge_upto(s, p as int + 1, 0, cc)) by {
                    assert(has_edge_upto(s, p as int, 8, cc) == has_edge_upto(
                        s,
                        p as int + 1,
                        0,
                        cc,
                    ));
                }
                assert(edges_unique_upto(s, p as int + 1, 0));
            }
            p = p + 1;
        }
        proof {
            assert(spec_injective(s)) by {
                assert forall|p1: int, k1: int, p2: int, k2: int|
                    0 <= p1 < s.len() && 0 <= k1 < 8 && 0 <= p2 < s.len() && 0 <= k2 < 8
                        && #[trigger] resolved_child(s, p1, k1) == #[trigger] resolved_child(
                        s,
                        p2,
                        k2,
                    ) && resolved_child(s, p1, k1) >= 0 implies p1 == p2 && k1 == k2 by {
                    assert(edges_unique_upto(s, n as int, 0));
                }
            }
        }
        let mut j: usize = 0;
        while j < n
            invariant
                n == s.len(),
                s == octants@,
                j <= n,
                root < n,
                spec_root_of(s) == root,
                has_parent@.len() == n,
                forall|c: int|
                    0 <= c < n ==> ((#[trigger] has_parent@[c]) <==> has_edge_upto(s, n as int, 0, c)),
                forall|c: int| 0 <= c < j && c != root ==> #[trigger] has_parent@[c],
            decreases n - j,
        {
            if j != root && !has_parent[j] {
                proof {
                    assert(!has_edge_upto(s, n as int, 0, j as int));
                    assert forall|q: int, m: int|
                        0 <= q < s.len() && 0 <= m < 8 implies #[trigger] resolved_child(s, q, m)
                        != j as int by {
                        if resolved_child(s, q, m) == j as int {
                            assert(has_edge_upto(s, n as int, 0, j as int));
                        }
                    }
                    assert(0 <= j < s.len() && j != spec_root_of(s));
                    assert(!node_parented(s, j as int));
                    assert(!spec_parented(s));
                }
                return Err(TreeError::NotATree);
            }
            j = j + 1;
        }
        proof {
            assert(spec_parented(s)) by {
                assert forall|jj: int| 0 <= jj < s.len() implies #[trigger] node_parented(
                    s,
                    jj,
                ) by {
                    if jj != spec_root_of(s) {
                        assert(has_parent@[jj]);
                        assert(has_edge_upto(s, n as int, 0, jj));
                        let (q, m): (int, int) = choose|q: int, m: int|
                            0 <= q && 0 <= m < 8 && (q < n as int || (q == n as int && m < 0))
                                && #[trigger] resolved_child(s, q, m) == jj;
                        assert(0 <= q < s.len() && 0 <= m < 8 && resolved_child(s, q, m) == jj);
                    }
                }
            }
            assert(spec_buildable(s));
        }
        let tree = OcTree { octants: resolved, root_index: root };
        proof {
            assert forall|i: int| 0 <= i < s.len() implies #[trigger] tree.node_wf(i) by {
                assert(input_node_ok(s, i));
                assert(node_preserved(s[i], tree.nodes()[i]));
                assert forall|k: int| 0 <= k < 8 implies (#[trigger] tree.nodes()[i].children[k])
                    == -1 || (0 <= tree.nodes()[i].children[k] < tree.nodes().len()
                    && tree.nodes()[tree.nodes()[i].children[k] as int].depth
                    == tree.nodes()[i].depth + 1) by {
                    assert(tree.nodes()[i].children[k] == resolved_child(s, i, k));
                    if resolved_child(s, i, k) >= 0 {
                        assert(node_preserved(
                            s[resolved_child(s, i, k)],
                            tree.nodes()[resolved_child(s, i, k)],
                        ));
                    }
                }
            }
            assert(tree.wf());
            assert(tree.unique_root());
            assert(tree.single_parent()) by {
                assert forall|p1: int, k1: int, p2: int, k2: int, c: int|
                    #[trigger] tree.is_child(p1, k1, c) && #[trigger] tree.is_child(
                        p2,
                        k2,
                        c,
                    ) implies p1 == p2 && k1 == k2 by {
                    assert(tree.child_at(p1, k1) == resolved_child(s, p1, k1));
                    assert(tree.child_at(p2, k2) == resolved_child(s, p2, k2));
                }
            }
            assert(tree.parented()) by {
                assert forall|jj: int|
                    0 <= jj < tree.nodes().len() implies #[trigger] tree.node_is_parented(jj) by {
                    assert(node_parented(s, jj));
                    if jj != tree.root() {
                        let (q, m): (int, int) = choose|q: int, m: int|
                            0 <= q < s.len() && 0 <= m < 8 && #[trigger] resolved_child(s, q, m)
                                == jj;
                        assert(tree.is_child(q, m, jj));
                    }
                }
            }
        }
        Ok(tree)
    }

    /// Number of nodes.
    pub fn node_count(&self) -> (r: usize)
        ensures
            r == self.nodes().len(),
    {
        self.octants.len()
    }

    /// The node at array position `i`.
    pub fn get(&self, i: usize) -> (r: &Octant)
        requires
            i < self.nodes().len(),
        ensures
            *r == self.nodes()[i as int],
    {
        &self.octants[i]
    }

    /// The root's array position.
    pub fn root_position(&self) -> (r: usize)
        ensures
            r == self.root(),
    {
        self.root_index
    }

    /// The root node.
    pub fn get_root(&self) -> (r: &Octant)
        requires
            self.wf(),
        ensures
            *r == self.nodes()[self.root()],
    {
        &self.octants[self.root_index]
    }
}

/// The sequence of indices holds `j`.
pub open spec fn vec_contains_index(v: Seq<usize>, j: int) -> bool {
    exists|t: int| 0 <= t < v.len() && #[trigger] v[t] == j
}

impl OcTree {
    /// The depth-first search from `i` reports node `j`: every node on the
    /// chain from `i` down to `j`, including both ends, intersects the
    /// sphere.
    pub open spec fn hit_from(self, s: Sphere, i: int, j: int) -> bool
        decreases self.nodes().len() - self.nodes()[i].depth
            when self.wf() && 0 <= i < self.nodes().len()
    {
        &&& sphere_intersects_aabb(s, self.nodes()[i].aabb)
        &&& (i == j || exists|k: int|
            0 <= k < 8 && (#[trigger] self.child_at(i, k)) != -1 && self.hit_from(
                s,
                self.child_at(i, k) as int,
                j,
            ))
    }

    /// Node `j` lies in the subtree under `i`.
    pub open spec fn reachable(self, i: int, j: int) -> bool
        decreases self.nodes().len() - self.nodes()[i].depth
            when self.wf() && 0 <= i < self.nodes().len()
    {
        i == j || exists|k: int|
            0 <= k < 8 && (#[trigger] self.child_at(i, k)) != -1 && self.reachable(
                self.child_at(i, k) as int,
                j,
            )
    }

    /// Every child box lies inside its parent's box.  The source data is
    /// assumed, not checked, to satisfy this; the completeness half of the
    /// search characterization depends on it.
    pub open spec fn hierarchically_containing(self) -> bool {
        forall|p: int, k: int|
            0 <= p < self.nodes().len() && 0 <= k < 8 && (#[trigger] self.child_at(p, k)) != -1
                ==> self.nodes()[self.child_at(p, k) as int].aabb.inside(self.nodes()[p].aabb)
    }

    /// Every reported node is in range, intersects the sphere, and lies in
    /// the searched subtree.
    pub proof fn lemma_hit_sound(self, s: Sphere, i: int, j: int)
        requires
            self.wf(),
            0 <= i < self.nodes().len(),
            self.hit_from(s, i, j),
        ensures
            0 <= j < self.nodes().len(),
            sphere_intersects_aabb(s, self.nodes()[j].aabb),
            self.reachable(i, j),
        decreases self.nodes().len() - self.nodes()[i].depth,
    {
        if i == j {
        } else {
            let k: int = choose|k: int|
                0 <= k < 8 && (#[trigger] self.child_at(i, k)) != -1 && self.hit_from(
                    s,
                    self.child_at(i, k) as int,
                    j,
                );
            self.lemma_hit_sound(s, self.child_at(i, k) as int, j);
        }
    }

    /// A reported chain extends through one more child edge whose endpoint
    /// intersects the sphere.
    pub proof fn lemma_hit_extend(self, s: Sphere, i: int, p: int, k: int, j: int)
        requires
            self.wf(),
            0 <= i < self.nodes().len(),
            self.hit_from(s, i, p),
            self.is_child(p, k, j),
            0 <= j < self.nodes().len(),
            sphere_intersects_aabb(s, self.nodes()[j].aabb),
        ensures
            self.hit_from(s, i, j),
        decreases self.nodes().len() - self.nodes()[i].depth,
    {
        if i == p {
            assert(self.hit_from(s, j, j));
            assert(self.child_at(p, k) != -1 && self.hit_from(s, self.child_at(p, k) as int, j));
        } else {
            let kk: int = choose|kk: int|
                0 <= kk < 8 && (#[trigger] self.child_at(i, kk)) != -1 && self.hit_from(
                    s,
                    self.child_at(i, kk) as int,
                    p,
                );
            self.lemma_hit_extend(s, self.child_at(i, kk) as int, p, k, j);
        }
    }

    /// Like `lemma_hit_extend`, for plain reachability.
    pub proof fn lemma_reachable_extend(self, i: int, p: int, k: int, j: int)
        requires
            self.wf(),
            0 <= i < self.nodes().len(),
            self.reachable(i, p),
            self.is_child(p, k, j),
        ensures
            self.reachable(i, j),
        decreases self.nodes().len() - self.nodes()[i].depth,
    {
        if i == p {
            assert(self.reachable(j as int, j));
            assert(self.child_at(p, k) != -1 && self.reachable(self.child_at(p, k) as int, j));
        } else {
            let kk: int = choose|kk: int|
                0 <= kk < 8 && (#[trigger] self.child_at(i, kk)) != -1 && self.reachable(
                    self.child_at(i, kk) as int,
                    p,
                );
            self.lemma_reachable_extend(self.child_at(i, kk) as int, p, k, j);
        }
    }

    /// In a tree where every node hangs off the unique root, every node is
    /// reachable from the root.
    pub proof fn lemma_reachable_from_root(self, j: int)
        requires
            self.wf(),
            self.unique_root(),
            self.parented(),
            0 <= j < self.nodes().len(),
        ensures
            self.reachable(self.root(), j),
        decreases self.nodes()[j].depth,
    {
        if j == self.root() {
        } else {
            assert(self.node_is_parented(j));
            let (p, k): (int, int) = choose|p: int, k: int| self.is_child(p, k, j);
            assert(self.nodes()[j].depth == self.nodes()[p].depth + 1);
            if self.nodes()[p].depth == 0 {
                assert(p == self.root());
            }
            self.lemma_reachable_from_root(p);
            self.lemma_reachable_extend(self.root(), p, k, j);
        }
    }

    /// Completeness: when boxes are hierarchically containing, every node
    /// whose box intersects the sphere is reported by a search from the
    /// root.
    pub proof fn lemma_hit_complete(self, s: Sphere, j: int)
        requires
            self.wf(),
            self.unique_root(),
            self.parented(),
            self.hierarchically_containing(),
            0 <= j < self.nodes().len(),
            sphere_intersects_aabb(s, self.nodes()[j].aabb),
        ensures
            self.hit_from(s, self.root(), j),
        decreases self.nodes()[j].depth,
    {
        if j == self.root() {
        } else {
            assert(self.node_is_parented(j));
            let (p, k): (int, int) = choose|p: int, k: int| self.is_child(p, k, j);
            assert(self.nodes()[j].depth == self.nodes()[p].depth + 1);
            if self.nodes()[p].depth == 0 {
                assert(p == self.root());
            }
            assert(self.nodes()[j].aabb.inside(self.nodes()[p].aabb));
            lemma_intersect_box_mono(s, self.nodes()[j].aabb, self.nodes()[p].aabb);
            self.lemma_hit_complete(s, p);
            self.lemma_hit_extend(s, self.root(), p, k, j);
        }
    }

    /// The search characterization: with hierarchically containing boxes,
    /// a node is reported if and only if its box intersects the sphere.
    pub proof fn lemma_search_iff_intersects(self, s: Sphere, j: int)
        requires
            self.wf(),
            self.unique_root(),
            self.parented(),
            self.hierarchically_containing(),
            0 <= j < self.nodes().len(),
        ensures
            self.hit_from(s, self.root(), j) <==> sphere_intersects_aabb(
                s,
                self.nodes()[j].aabb,
            ),
    {
        if self.hit_from(s, self.root(), j) {
            self.lemma_hit_sound(s, self.root(), j);
        }
        if sphere_intersects_aabb(s, self.nodes()[j].aabb) {
            self.lemma_hit_complete(s, j);
        }
    }

    /// A reported non-initial node is reported through one of its parents.
    pub proof fn lemma_hit_parent(self, s: Sphere, i: int, j: int)
        requires
            self.wf(),
            0 <= i < self.nodes().len(),
            self.hit_from(s, i, j),
            i != j,
        ensures
            exists|p: int, k: int| #[trigger] self.is_child(p, k, j) && self.hit_from(s, i, p),
        decreases self.nodes().len() - self.nodes()[i].depth,
    {
        let kk: int = choose|kk: int|
            0 <= kk < 8 && (#[trigger] self.child_at(i, kk)) != -1 && self.hit_from(
                s,
                self.child_at(i, kk) as int,
                j,
            );
        let c = self.child_at(i, kk) as int;
        if c == j {
            assert(self.is_child(i, kk, j) && self.hit_from(s, i, i));
        } else {
            self.lemma_hit_parent(s, c, j);
            let (p, k): (int, int) = choose|p: int, k: int|
                #[trigger] self.is_child(p, k, j) && self.hit_from(s, c, p);
            assert(self.hit_from(s, i, p)) by {
                assert(self.child_at(i, kk) != -1 && self.hit_from(
                    s,
                    self.child_at(i, kk) as int,
                    p,
                ));
            }
            assert(self.is_child(p, k, j) && self.hit_from(s, i, p));
        }
    }

    /// Like `lemma_hit_parent`, for plain reachability.
    pub proof fn lemma_reachable_parent(self, i: int, j: int)
        requires
            self.wf(),
            0 <= i < self.nodes().len(),
            self.reachable(i, j),
            i != j,
        ensures
            exists|p: int, k: int| #[trigger] self.is_child(p, k, j) && self.reachable(i, p),
        decreases self.nodes().len() - self.nodes()[i].depth,
    {
        let kk: int = choose|kk: int|
            0 <= kk < 8 && (#[trigger] self.child_at(i, kk)) != -1 && self.reachable(
                self.child_at(i, kk) as int,
                j,
            );
        let c = self.child_at(i, kk) as int;
        if c == j {
            assert(self.is_child(i, kk, j) && self.reachable(i, i));
        } else {
            self.lemma_reachable_parent(c, j);
            let (p, k): (int, int) = choose|p: int, k: int|
                #[trigger] self.is_child(p, k, j) && self.reachable(c, p);
            assert(self.reachable(i, p)) by {
                assert(self.child_at(i, kk) != -1 && self.reachable(
                    self.child_at(i, kk) as int,
                    p,
                ));
            }
            assert(self.is_child(p, k, j) && self.reachable(i, p));
        }
    }

    /// Pruning: when an ancestor's box misses the sphere, none of its
    /// descendants is reported by a search from the root.
    pub proof fn lemma_search_prunes(self, s: Sphere, p: int, d: int)
        requires
            self.wf(),
            self.single_parent(),
            0 <= p < self.nodes().len(),
            0 <= d < self.nodes().len(),
            self.reachable(p, d),
            !sphere_intersects_aabb(s, self.nodes()[p].aabb),
        ensures
            !self.hit_from(s, self.root(), d),
        decreases self.nodes()[d].depth,
    {
        if self.hit_from(s, self.root(), d) {
            self.lemma_hit_sound(s, self.root(), d);
            if d == p {
                assert(false);
            } else {
                self.lemma_reachable_parent(p, d);
                let (q1, m1): (int, int) = choose|q1: int, m1: int|
                    #[trigger] self.is_child(q1, m1, d) && self.reachable(p, q1);
                assert(self.nodes()[d].depth == self.nodes()[q1].depth + 1);
                assert(d != self.root());
                self.lemma_hit_parent(s, self.root(), d);
                let (q2, m2): (int, int) = choose|q2: int, m2: int|
                    #[trigger] self.is_child(q2, m2, d) && self.hit_from(s, self.root(), q2);
                assert(q1 == q2 && m1 == m2);
                self.lemma_search_prunes(s, p, q1);
                assert(false);
            }
        }
    }

    /// Widening the radius around the same center keeps every reported
    /// node reported.
    pub proof fn lemma_hit_radius_mono(self, s1: Sphere, s2: Sphere, i: int, j: int)
        requires
            self.wf(),
            s1.wf(),
            s2.wf(),
            s1.center == s2.center,
            s1.radius <= s2.radius,
            0 <= i < self.nodes().len(),
            self.hit_from(s1, i, j),
        ensures
            self.hit_from(s2, i, j),
        decreases self.nodes().len() - self.nodes()[i].depth,
    {
        lemma_intersect_radius_mono(s1, s2, self.nodes()[i].aabb);
        if i == j {
        } else {
            let k: int = choose|k: int|
                0 <= k < 8 && (#[trigger] self.child_at(i, k)) != -1 && self.hit_from(
                    s1,
                    self.child_at(i, k) as int,
                    j,
                );
            self.lemma_hit_radius_mono(s1, s2, self.child_at(i, k) as int, j);
            assert(self.child_at(i, k) != -1 && self.hit_from(s2, self.child_at(i, k) as int, j));
        }
    }

    /// Some slot before `bound` leads the search from `i` to `j`.
    pub open spec fn hit_via_slot(self, s: Sphere, i: int, j: int, bound: int) -> bool {
        exists|k: int|
            0 <= k < bound && (#[trigger] self.child_at(i, k)) != -1 && self.hit_from(
                s,
                self.child_at(i, k) as int,
                j,
            )
    }

    /// Visit the subtree under `i`, appending every reported index.
    fn search_rec(&self, sphere: &Sphere, i: usize, out: &mut Vec<usize>)
        requires
            self.wf(),
            sphere.wf(),
            i < self.nodes().len(),
        ensures
            final(out)@.len() >= old(out)@.len(),
            forall|t: int| 0 <= t < old(out)@.len() ==> final(out)@[t] == old(out)@[t],
            forall|t: int|
                old(out)@.len() <= t < final(out)@.len() ==> (#[trigger] final(out)@[t])
                    < self.nodes().len() && self.hit_from(*sphere, i as int, final(out)@[t] as int),
            forall|j: int|
                0 <= j < self.nodes().len() && #[trigger] self.hit_from(*sphere, i as int, j)
                    ==> vec_contains_index(final(out)@, j),
        decreases self.nodes().len() - self.nodes()[i as int].depth, 9int,
    {
        if !intersects(sphere, &self.octants[i].aabb) {
            return ;
        }
        out.push(i);
        assert(vec_contains_index(out@, i as int)) by {
            assert(out@[out@.len() - 1] == i);
        }
        let mut k: usize = 0;
        while k < 8
            invariant
                self.wf(),
                sphere.wf(),
                i < self.nodes().len(),
                k <= 8,
                sphere_intersects_aabb(*sphere, self.nodes()[i as int].aabb),
                out@.len() >= old(out)@.len(),
                forall|t: int| 0 <= t < old(out)@.len() ==> out@[t] == old(out)@[t],
                forall|t: int|
                    old(out)@.len() <= t < out@.len() ==> (#[trigger] out@[t])
                        < self.nodes().len() && self.hit_from(
                        *sphere,
                        i as int,
                        out@[t] as int,
                    ),
                forall|j: int|
                    0 <= j < self.nodes().len() && (j == i as int || self.hit_via_slot(
                        *sphere,
                        i as int,
                        j,
                        k as int,
                    )) ==> vec_contains_index(out@, j),
            decreases self.nodes().len() - self.nodes()[i as int].depth, 8 - k,
        {
            let c: i64 = self.octants[i].children[k];
            if c != -1 {
                proof {
                    assert(self.child_at(i as int, k as int) == c);
                    assert(self.node_wf(i as int));
                    assert(0 <= c < self.nodes().len());
                    assert(self.node_wf(c as int));
                    assert(self.nodes()[c as int].depth == self.nodes()[i as int].depth + 1);
                    assert(0 <= self.nodes()[c as int].depth < self.nodes().len());
                }
                let ghost prev = out@;
                self.search_rec(sphere, c as usize, out);
                proof {
                    assert forall|t: int|
                        old(out)@.len() <= t < out@.len() implies (#[trigger] out@[t])
                        < self.nodes().len() && self.hit_from(
                        *sphere,
                        i as int,
                        out@[t] as int,
                    ) by {
                        if t < prev.len() {
                        } else {
                            assert(self.hit_from(*sphere, c as int, out@[t] as int));
                            assert(self.child_at(i as int, k as int) != -1 && self.hit_from(
                                *sphere,
                                self.child_at(i as int, k as int) as int,
                                out@[t] as int,
                            ));
                        }
                    }
                    assert forall|j: int|
                        0 <= j < self.nodes().len() && (j == i as int || self.hit_via_slot(
                            *sphere,
                            i as int,
                            j,
                            k as int + 1,
                        )) implies vec_contains_index(out@, j) by {
                        if j == i as int || self.hit_via_slot(*sphere, i as int, j, k as int) {
                            assert(vec_contains_index(prev, j));
                            let t: int = choose|t: int|
                                0 <= t < prev.len() && #[trigger] prev[t] == j;
                            assert(out@[t] == j);
                        } else {
                            let kk: int = choose|kk: int|
                                0 <= kk < k as int + 1 && (#[trigger] self.child_at(
                                    i as int,
                                    kk,
                                )) != -1 && self.hit_from(
                                    *sphere,
                                    self.child_at(i as int, kk) as int,
                                    j,
                                );
                            assert(kk == k as int);
                            assert(self.hit_from(*sphere, c as int, j));
                        }
                    }
                }
            } else {
                proof {
                    assert forall|j: int|
                        0 <= j < self.nodes().len() && (j == i as int || self.hit_via_slot(
                            *sphere,
                            i as int,
                            j,
                            k as int + 1,
                        )) implies vec_contains_index(out@, j) by {
                        if !(j == i as int || self.hit_via_slot(*sphere, i as int, j, k as int)) {
                            let kk: int = choose|kk: int|
                                0 <= kk < k as int + 1 && (#[trigger] self.child_at(
                                    i as int,
                                    kk,
                                )) != -1 && self.hit_from(
                                    *sphere,
                                    self.child_at(i as int, kk) as int,
                                    j,
                                );
                            assert(false);
                        }
                    }
                }
            }
            k = k + 1;
        }
        proof {
            assert forall|j: int|
                0 <= j < self.nodes().len() && #[trigger] self.hit_from(
                    *sphere,
                    i as int,
                    j,
                ) implies vec_contains_index(out@, j) by {
                if j != i as int {
                    let kk: int = choose|kk: int|
                        0 <= kk < 8 && (#[trigger] self.child_at(i as int, kk)) != -1
                            && self.hit_from(*sphere, self.child_at(i as int, kk) as int, j);
                    assert(self.hit_via_slot(*sphere, i as int, j, 8));
                }
            }
        }
    }

    /// Depth-first sphere search: exactly the nodes reported by the
    /// pruning traversal from the root, in unspecified order.
    pub fn search_octants(&self, sphere: &Sphere) -> (r: Vec<usize>)
        requires
            self.wf(),
            sphere.wf(),
        ensures
            forall|t: int|
                0 <= t < r@.len() ==> (#[trigger] r@[t]) < self.nodes().len() && self.hit_from(
                    *sphere,
                    self.root(),
                    r@[t] as int,
                ),
            forall|j: int|
                0 <= j < self.nodes().len() && #[trigger] self.hit_from(*sphere, self.root(), j)
                    ==> vec_contains_index(r@, j),
    {
        let mut out: Vec<usize> = Vec::new();
        let root = self.root_index;
        self.search_rec(sphere, root, &mut out);
        out
    }
}

} // verus!
