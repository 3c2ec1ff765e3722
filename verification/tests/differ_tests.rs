use octree_stream::differ::BufferedOctantLoader;
use octree_stream::geom::{Aabb, Sphere};
use octree_stream::tree::{OcTree, Octant};

fn node(id: u64, min: [i64; 3], max: [i64; 3], children: [i64; 8], depth: i32) -> Octant {
    Octant {
        octant_id: id,
        aabb: Aabb { min, max },
        children,
        depth,
        cumulative_star_count: 0,
        star_count: 0,
        child_count: 0,
    }
}

/// A root with two children on opposite sides of the origin.
fn three_cell_tree() -> OcTree {
    let root = node(1, [-100, -100, -100], [100, 100, 100], [2, 3, -1, -1, -1, -1, -1, -1], 0);
    let near = node(2, [-10, -10, -10], [10, 10, 10], [-1; 8], 1);
    let far = node(3, [80, 80, 80], [100, 100, 100], [-1; 8], 1);
    OcTree::new(vec![root, near, far]).unwrap()
}

#[test]
fn first_call_loads_everything_in_range() {
    let mut differ = BufferedOctantLoader::new(three_cell_tree());
    let sphere = Sphere { center: [0, 0, 0], radius: 5 };
    let (mut to_load, to_unload) = differ.load_octants(&sphere);
    to_load.sort();
    assert_eq!(to_load, vec![0, 1]);
    assert!(to_unload.is_empty());
}

#[test]
fn repeating_the_same_sphere_is_idempotent() {
    let mut differ = BufferedOctantLoader::new(three_cell_tree());
    let sphere = Sphere { center: [0, 0, 0], radius: 5 };
    let _ = differ.load_octants(&sphere);
    let (to_load, to_unload) = differ.load_octants(&sphere);
    assert!(to_load.is_empty());
    assert!(to_unload.is_empty());
}

#[test]
fn growing_the_radius_only_loads() {
    let mut differ = BufferedOctantLoader::new(three_cell_tree());
    let small = Sphere { center: [0, 0, 0], radius: 5 };
    let (mut first, _) = differ.load_octants(&small);
    first.sort();
    assert_eq!(first, vec![0, 1]);
    let big = Sphere { center: [0, 0, 0], radius: 150 };
    let (to_load, to_unload) = differ.load_octants(&big);
    assert!(to_unload.is_empty());
    assert_eq!(to_load, vec![2]);
}

#[test]
fn shrinking_the_radius_only_unloads() {
    let mut differ = BufferedOctantLoader::new(three_cell_tree());
    let big = Sphere { center: [0, 0, 0], radius: 150 };
    let _ = differ.load_octants(&big);
    let small = Sphere { center: [0, 0, 0], radius: 5 };
    let (to_load, to_unload) = differ.load_octants(&small);
    assert!(to_load.is_empty());
    assert_eq!(to_unload, vec![2]);
}

#[test]
fn moving_the_sphere_swaps_cells() {
    let mut differ = BufferedOctantLoader::new(three_cell_tree());
    let near = Sphere { center: [0, 0, 0], radius: 5 };
    let _ = differ.load_octants(&near);
    let far = Sphere { center: [90, 90, 90], radius: 5 };
    let (to_load, to_unload) = differ.load_octants(&far);
    assert_eq!(to_load, vec![2]);
    assert_eq!(to_unload, vec![1]);
}
