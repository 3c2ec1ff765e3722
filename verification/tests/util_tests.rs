use octree_stream::catalog::{payload_file_name, select_named, select_with_suffix};
use octree_stream::geom::{intersects, Aabb, Sphere};
use octree_stream::util::{box_edges, count_dec_digits, gaiasky_to_cartesian, pretty_int, to_bvec3};

#[test]
fn pretty_int_groups_thousands() {
    assert_eq!(pretty_int(0), "0");
    assert_eq!(pretty_int(7), "7");
    assert_eq!(pretty_int(999), "999");
    assert_eq!(pretty_int(1000), "1,000");
    assert_eq!(pretty_int(1234), "1,234");
    assert_eq!(pretty_int(1000000), "1,000,000");
    assert_eq!(pretty_int(987654321), "987,654,321");
    assert_eq!(pretty_int(u64::MAX), "18,446,744,073,709,551,615");
}

#[test]
fn digit_count() {
    assert_eq!(count_dec_digits(0), 1);
    assert_eq!(count_dec_digits(9), 1);
    assert_eq!(count_dec_digits(10), 2);
    assert_eq!(count_dec_digits(999999), 6);
    assert_eq!(count_dec_digits(u64::MAX), 20);
}

#[test]
fn payload_names_are_zero_padded() {
    assert_eq!(payload_file_name(0), b"particles_000000.bin");
    assert_eq!(payload_file_name(123), b"particles_000123.bin");
    assert_eq!(payload_file_name(999999), b"particles_999999.bin");
    assert_eq!(payload_file_name(1234567), b"particles_1234567.bin");
}

#[test]
fn selection_by_name_and_suffix() {
    let names: Vec<Vec<u8>> = vec![
        b"readme.txt".to_vec(),
        b"catalog.json".to_vec(),
        b"metadata.bin".to_vec(),
        b"particles".to_vec(),
    ];
    assert_eq!(select_named(&names, &b"metadata.bin".to_vec()), Some(2));
    assert_eq!(select_named(&names, &b"particles".to_vec()), Some(3));
    assert_eq!(select_named(&names, &b"missing".to_vec()), None);
    assert_eq!(select_with_suffix(&names, &b".json".to_vec()), Some(1));
    assert_eq!(select_with_suffix(&names, &b".xml".to_vec()), None);
}

#[test]
fn axis_permutation() {
    assert_eq!(gaiasky_to_cartesian([1, 2, 3]), [3, 1, 2]);
    assert_eq!(gaiasky_to_cartesian([1.0f64, 2.0, 3.0]), [3.0, 1.0, 2.0]);
}

#[test]
fn bitmask_unpacking() {
    let b = to_bvec3(0b101);
    assert!(b.x && !b.y && b.z);
    let b = to_bvec3(0b010);
    assert!(!b.x && b.y && !b.z);
}

#[test]
fn box_has_twelve_edges() {
    let aabb = Aabb { min: [-1, -2, -3], max: [4, 5, 6] };
    let edges = box_edges(&aabb);
    assert_eq!(edges.len(), 12);
    // the first edge joins the all-max corner to the corner with minimal x
    assert_eq!(edges[0].0, [4, 5, 6]);
    assert_eq!(edges[0].1, [-1, 5, 6]);
    // every endpoint is a corner of the box
    for (a, b) in edges {
        for p in [a, b] {
            assert!(p[0] == -1 || p[0] == 4);
            assert!(p[1] == -2 || p[1] == 5);
            assert!(p[2] == -3 || p[2] == 6);
        }
    }
}

#[test]
fn sphere_box_intersection_boundary() {
    let b = Aabb { min: [0, 0, 0], max: [10, 10, 10] };
    // squared distance 25 from the face, radius 5: touching counts
    let touching = Sphere { center: [15, 5, 5], radius: 5 };
    assert!(intersects(&touching, &b));
    let separated = Sphere { center: [15, 5, 5], radius: 4 };
    assert!(!intersects(&separated, &b));
    let inside = Sphere { center: [5, 5, 5], radius: 1 };
    assert!(intersects(&inside, &b));
    // a corner approach: distance sqrt(3) from (11,11,11), radius 1 misses,
    // radius 2 reaches
    let corner_near = Sphere { center: [11, 11, 11], radius: 1 };
    assert!(!intersects(&corner_near, &b));
    let corner_touch = Sphere { center: [11, 11, 11], radius: 2 };
    assert!(intersects(&corner_touch, &b));
}
