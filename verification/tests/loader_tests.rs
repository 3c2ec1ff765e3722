use octree_stream::differ::BufferedOctantLoader;
use octree_stream::geom::{Aabb, Sphere};
use octree_stream::loader::{ParticleLoader, UnloadAction};
use octree_stream::tree::{OcTree, Octant};

fn node(id: u64, min: [i64; 3], max: [i64; 3], children: [i64; 8], depth: i32, stars: i32) -> Octant {
    Octant {
        octant_id: id,
        aabb: Aabb { min, max },
        children,
        depth,
        cumulative_star_count: stars,
        star_count: stars,
        child_count: 0,
    }
}

/// A root with two children on opposite sides of the origin.
fn loader() -> ParticleLoader {
    let root = node(1, [-100, -100, -100], [100, 100, 100], [2, 3, -1, -1, -1, -1, -1, -1], 0, 1);
    let near = node(2, [-10, -10, -10], [10, 10, 10], [-1; 8], 1, 20);
    let far = node(3, [80, 80, 80], [100, 100, 100], [-1; 8], 1, 300);
    let tree = OcTree::new(vec![root, near, far]).unwrap();
    ParticleLoader::new(BufferedOctantLoader::new(tree))
}

#[test]
fn load_and_complete_counts_stars() {
    let mut pl = loader();
    let (to_load, to_unload) = pl.update_chunks([0, 0, 0], 5);
    assert!(to_unload.is_empty());
    assert_eq!(to_load.len(), 2);
    for (n, index) in to_load.iter().enumerate() {
        pl.begin_load(*index, 1000 + n as u64);
    }
    assert_eq!(pl.star_count(), 0);
    // results arrive, in any order
    for index in to_load.iter().rev() {
        assert!(pl.handle_result(*index).is_some());
    }
    assert_eq!(pl.star_count(), 21);
}

#[test]
fn late_result_for_evicted_cell_is_discarded() {
    let mut pl = loader();
    let (to_load, _) = pl.update_chunks([0, 0, 0], 5);
    assert!(to_load.contains(&1));
    for (n, index) in to_load.iter().enumerate() {
        pl.begin_load(*index, 2000 + n as u64);
    }
    // the observer moves away before any result arrives
    let (_, to_unload) = pl.update_chunks([90, 90, 90], 5);
    assert!(to_unload.contains(&1));
    for index in to_unload {
        // nothing was loaded yet, so every eviction is a cancellation
        assert_eq!(pl.unload(index), UnloadAction::Cancelled);
    }
    // the stale result for the near cell now arrives and must be dropped
    assert_eq!(pl.handle_result(1), None);
    assert!(!pl.is_tracked(1));
    assert_eq!(pl.star_count(), 0);
}

#[test]
fn unloading_a_loaded_cell_returns_its_entity_and_count() {
    let mut pl = loader();
    let (to_load, _) = pl.update_chunks([0, 0, 0], 5);
    for index in to_load.iter() {
        pl.begin_load(*index, 7000 + *index as u64);
        let got = pl.handle_result(*index);
        assert_eq!(got, Some(7000 + *index as u64));
    }
    assert_eq!(pl.star_count(), 21);
    // moving far away keeps only the root in range: the near cell leaves
    let (_, to_unload) = pl.update_chunks([90, 90, 90], 1);
    assert_eq!(to_unload, vec![1]);
    for index in to_unload {
        let action = pl.unload(index);
        assert_eq!(action, UnloadAction::Despawn(7000 + index as u64));
    }
    assert_eq!(pl.star_count(), 1);
}

#[test]
fn update_orders_nearest_first() {
    let root = node(1, [-100, -100, -100], [100, 100, 100], [2, 3, 4, -1, -1, -1, -1, -1], 0, 0);
    let a = node(2, [40, 40, 40], [60, 60, 60], [-1; 8], 1, 0);
    let b = node(3, [-60, -60, -60], [-40, -40, -40], [-1; 8], 1, 0);
    let c = node(4, [-10, -10, -10], [10, 10, 10], [-1; 8], 1, 0);
    let tree = OcTree::new(vec![root, a, b, c]).unwrap();
    let mut pl = ParticleLoader::new(BufferedOctantLoader::new(tree));
    // observer near cell 2's corner: order must be by midpoint distance
    let (to_load, _) = pl.update_chunks([45, 45, 45], 200);
    assert_eq!(to_load.len(), 4);
    // midpoints: root (0,0,0) dist 77.9; a (50,50,50) dist 8.7;
    // b (-50,-50,-50) dist 164.5; c (0,0,0) dist 77.9
    assert_eq!(to_load[0], 1);
    assert_eq!(to_load[3], 2);
    assert!(to_load[1] == 0 || to_load[1] == 3);
    assert!(to_load[2] == 0 || to_load[2] == 3);
}

#[test]
fn double_result_only_counts_once() {
    let mut pl = loader();
    let (to_load, _) = pl.update_chunks([0, 0, 0], 5);
    for index in to_load.iter() {
        pl.begin_load(*index, 10 + *index as u64);
    }
    assert!(pl.handle_result(1).is_some());
    // a second result for the same cell is stale and must be dropped
    assert_eq!(pl.handle_result(1), None);
    assert_eq!(pl.star_count(), 20);
}
