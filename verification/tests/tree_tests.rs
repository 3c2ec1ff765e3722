use octree_stream::geom::{Aabb, Sphere};
use octree_stream::tree::{OcTree, Octant, TreeError};

fn node(id: u64, min: [i64; 3], max: [i64; 3], children: [i64; 8], depth: i32, stars: i32) -> Octant {
    Octant {
        octant_id: id,
        aabb: Aabb { min, max },
        children,
        depth,
        cumulative_star_count: stars,
        star_count: stars,
        child_count: children.iter().filter(|c| **c != -1).count() as i32,
    }
}

fn no_children() -> [i64; 8] {
    [-1; 8]
}

/// The two-level tree: root over [-10,10]^3 with one child over [0,10]^3.
fn two_level() -> OcTree {
    let root = node(100, [-10, -10, -10], [10, 10, 10], [200, -1, -1, -1, -1, -1, -1, -1], 0, 5);
    let child = node(200, [0, 0, 0], [10, 10, 10], no_children(), 1, 7);
    OcTree::new(vec![root, child]).unwrap()
}

#[test]
fn two_level_sphere_inside_child() {
    let tree = two_level();
    let sphere = Sphere { center: [5, 5, 5], radius: 1 };
    let mut hits = tree.search_octants(&sphere);
    hits.sort();
    assert_eq!(hits, vec![0, 1]);
}

#[test]
fn two_level_sphere_outside_child() {
    let tree = two_level();
    let sphere = Sphere { center: [-5, -5, -5], radius: 1 };
    let hits = tree.search_octants(&sphere);
    assert_eq!(hits, vec![0]);
}

#[test]
fn search_misses_everything_when_root_does_not_intersect() {
    let tree = two_level();
    let sphere = Sphere { center: [100, 100, 100], radius: 1 };
    let hits = tree.search_octants(&sphere);
    assert!(hits.is_empty());
}

#[test]
fn pruned_branch_never_appears() {
    // A deep branch on the far side: child and grandchild lie entirely
    // outside the query sphere, so neither may appear even though the
    // traversal reports the root.
    let root = node(1, [-10, -10, -10], [10, 10, 10], [2, -1, -1, -1, -1, -1, -1, -1], 0, 0);
    let mid = node(2, [5, 5, 5], [10, 10, 10], [3, -1, -1, -1, -1, -1, -1, -1], 1, 0);
    let leaf = node(3, [6, 6, 6], [7, 7, 7], no_children(), 2, 0);
    let tree = OcTree::new(vec![root, mid, leaf]).unwrap();
    let sphere = Sphere { center: [-8, -8, -8], radius: 1 };
    let hits = tree.search_octants(&sphere);
    assert_eq!(hits, vec![0]);
}

#[test]
fn search_order_is_depth_first_from_root() {
    let tree = two_level();
    let sphere = Sphere { center: [0, 0, 0], radius: 20 };
    let mut hits = tree.search_octants(&sphere);
    assert_eq!(hits.len(), 2);
    hits.sort();
    assert_eq!(hits, vec![0, 1]);
}

#[test]
fn construction_resolves_ids_to_positions() {
    let tree = two_level();
    assert_eq!(tree.node_count(), 2);
    assert_eq!(tree.root_position(), 0);
    assert_eq!(tree.get_root().octant_id, 100);
    // the stored child id 200 was rewritten to array position 1
    assert_eq!(tree.get(0).children[0], 1);
    assert_eq!(tree.get(1).octant_id, 200);
}

#[test]
fn construction_errors() {
    // no root
    let lone = node(1, [-1, -1, -1], [1, 1, 1], no_children(), 1, 0);
    assert!(matches!(OcTree::new(vec![lone]), Err(TreeError::BadDepth)));
    let a = node(1, [-1, -1, -1], [1, 1, 1], [2, -1, -1, -1, -1, -1, -1, -1], 0, 0);
    let b = node(2, [-1, -1, -1], [1, 1, 1], no_children(), 0, 0);
    // two depth-zero nodes
    assert!(matches!(OcTree::new(vec![a.clone(), b]), Err(TreeError::MultipleRoots)));
    // a child id nobody carries
    let c = node(3, [-1, -1, -1], [1, 1, 1], no_children(), 1, 0);
    assert!(matches!(OcTree::new(vec![a.clone(), c]), Err(TreeError::UnresolvedChild)));
    // a child whose depth is not the parent's plus one
    let d = node(2, [-1, -1, -1], [1, 1, 1], no_children(), 5, 0);
    let a5 = node(1, [-1, -1, -1], [5, 5, 5], [2, -1, -1, -1, -1, -1, -1, -1], 0, 0);
    let e = OcTree::new(vec![a5, d, node(9, [-1, -1, -1], [1, 1, 1], no_children(), 5, 0)]);
    assert!(e.is_err());
    // an inverted box
    let inv = node(1, [1, 1, 1], [-1, -1, -1], no_children(), 0, 0);
    assert!(matches!(OcTree::new(vec![inv]), Err(TreeError::InvalidBounds)));
    // an unparented second node
    let orphanage = vec![
        node(1, [-1, -1, -1], [1, 1, 1], no_children(), 0, 0),
        node(2, [-1, -1, -1], [1, 1, 1], no_children(), 1, 0),
    ];
    assert!(matches!(OcTree::new(orphanage), Err(TreeError::NotATree)));
    // one node claimed by two parents
    let shared = vec![
        node(1, [-9, -9, -9], [9, 9, 9], [2, 3, -1, -1, -1, -1, -1, -1], 0, 0),
        node(2, [-9, -9, -9], [0, 0, 0], [4, -1, -1, -1, -1, -1, -1, -1], 1, 0),
        node(3, [0, 0, 0], [9, 9, 9], [4, -1, -1, -1, -1, -1, -1, -1], 1, 0),
        node(4, [0, 0, 0], [1, 1, 1], no_children(), 2, 0),
    ];
    assert!(matches!(OcTree::new(shared), Err(TreeError::NotATree)));
}

#[test]
fn empty_catalog_has_no_root() {
    assert!(matches!(OcTree::new(Vec::new()), Err(TreeError::NoRoot)));
}

#[test]
fn identifier_collision_last_wins() {
    // both nodes carry id 7; the child reference resolves to the later one
    let root = node(1, [-10, -10, -10], [10, 10, 10], [7, -1, -1, -1, -1, -1, -1, -1], 0, 0);
    let first = node(7, [-10, -10, -10], [0, 0, 0], no_children(), 1, 0);
    let second = node(7, [0, 0, 0], [10, 10, 10], no_children(), 1, 0);
    // with both present, the first becomes unparented, which is refused
    let r = OcTree::new(vec![root.clone(), first, second]);
    assert!(matches!(r, Err(TreeError::NotATree)));
}
