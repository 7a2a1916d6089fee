use rustbeam::math::Interval;
use rustbeam::surfaces::slab_test;

#[test]
fn interval_new_orders_endpoints() {
    assert_eq!(Interval::new(3, 5).get_endpoints(), (3, 5));
    assert_eq!(Interval::new(5, 3).get_endpoints(), (3, 5));
    assert_eq!(Interval::new(7, 7).get_endpoints(), (7, 7));
}

#[test]
fn interval_intersection_overlap() {
    let a = Interval::new(0, 10);
    let b = Interval::new(5, 20);
    let c = a.intersection(b).unwrap();
    assert_eq!(c.get_endpoints(), (5, 10));
}

#[test]
fn interval_intersection_is_commutative_on_values() {
    let a = Interval::new(2, 8);
    let b = Interval::new(4, 12);
    let ab = a.intersection(b).unwrap().get_endpoints();
    let ba = b.intersection(a).unwrap().get_endpoints();
    assert_eq!(ab, ba);
    assert_eq!(ab, (4, 8));
}

#[test]
fn interval_intersection_disjoint_is_none() {
    let a = Interval::new(0, 4);
    let b = Interval::new(5, 9);
    assert!(a.intersection(b).is_none());
}

#[test]
fn interval_intersection_touching_is_a_point() {
    let a = Interval::new(0, 5);
    let b = Interval::new(5, 9);
    let c = a.intersection(b).unwrap();
    assert_eq!(c.get_endpoints(), (5, 5));
}

#[test]
fn slab_test_hits_when_slabs_share_a_point_past_zero() {
    let zero_key = 100;
    let slabs = vec![Interval::new(90, 200), Interval::new(120, 300), Interval::new(0, 250)];
    assert!(slab_test(&slabs, zero_key));
}

#[test]
fn slab_test_misses_when_slabs_are_disjoint() {
    let zero_key = 100;
    let slabs = vec![Interval::new(110, 150), Interval::new(200, 300)];
    assert!(!slab_test(&slabs, zero_key));
}

#[test]
fn slab_test_misses_when_box_is_behind_the_origin() {
    // The common interval is entirely below the key of zero.
    let zero_key = 100;
    let slabs = vec![Interval::new(10, 60), Interval::new(20, 90)];
    assert!(!slab_test(&slabs, zero_key));
}

#[test]
fn slab_test_hit_needs_only_one_endpoint_past_zero() {
    // The common interval straddles the key of zero: still a hit.
    let zero_key = 100;
    let slabs = vec![Interval::new(50, 150), Interval::new(80, 120)];
    assert!(slab_test(&slabs, zero_key));
}

#[test]
fn slab_test_with_no_slabs_hits() {
    let slabs: Vec<Interval> = Vec::new();
    assert!(slab_test(&slabs, 0));
}
