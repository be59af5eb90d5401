use rs_raytracer::nearest::{first_within, nearest};

#[test]
fn empty_scene_has_no_hit() {
    assert_eq!(nearest(&vec![]), None);
}

#[test]
fn all_missed_has_no_hit() {
    assert_eq!(nearest(&vec![None, None, None]), None);
}

#[test]
fn picks_least_key() {
    assert_eq!(nearest(&vec![Some(30), None, Some(10), Some(20)]), Some(2));
}

#[test]
fn ties_go_to_first_listed() {
    assert_eq!(nearest(&vec![None, Some(5), Some(9), Some(5)]), Some(1));
}

#[test]
fn reordering_keeps_nearest_key() {
    let a = vec![Some(8u64), None, Some(3), Some(12)];
    let b = vec![Some(12u64), Some(3), None, Some(8)];
    let ka = a[nearest(&a).unwrap()];
    let kb = b[nearest(&b).unwrap()];
    assert_eq!(ka, Some(3));
    assert_eq!(ka, kb);
}

#[test]
fn float_bit_keys_order_positive_parameters() {
    let ts = [4.5f64, 0.002, 1.0e300, 0.75];
    let keys: Vec<Option<u64>> = ts.iter().map(|t| Some(t.to_bits())).collect();
    assert_eq!(nearest(&keys), Some(1));
}

#[test]
fn first_within_skips_roots_outside_range() {
    assert_eq!(first_within(&vec![2, 7], 5, 100), Some(1));
    assert_eq!(first_within(&vec![6, 7], 5, 100), Some(0));
}

#[test]
fn first_within_bounds_are_strict() {
    assert_eq!(first_within(&vec![5, 100], 5, 100), None);
    assert_eq!(first_within(&vec![], 0, 100), None);
    assert_eq!(first_within(&vec![1, 2, 3], 3, 3), None);
}
