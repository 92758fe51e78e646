use pathtracer::scene::{admitted, distance_key, nearest};

fn key(t: f64) -> i64 {
    distance_key(t.to_bits()).unwrap()
}

/// The near root of the ray from `(0, 0, oz)` along `(0, 0, dz)` on the
/// sphere of radius `r` about the origin.
fn near_root_on_axis(oz: f64, dz: f64, r: f64) -> Option<f64> {
    let a = dz * dz;
    let half_b = oz * dz;
    let c = oz * oz - r * r;
    let delta = half_b * half_b - a * c;
    if delta > 0.0 {
        Some((-half_b - delta.sqrt()) / a)
    } else {
        None
    }
}

#[test]
fn empty_scene_is_missed() {
    assert_eq!(nearest(&vec![], 0, 100), None);
}

#[test]
fn scene_of_misses_is_missed() {
    assert_eq!(nearest(&vec![None, None, None], 0, 100), None);
}

#[test]
fn nearest_surface_wins_wherever_it_stands() {
    assert_eq!(nearest(&vec![Some(7), None, Some(3), Some(5)], 0, 100), Some(2));
    assert_eq!(nearest(&vec![Some(3), Some(7), Some(5)], 0, 100), Some(0));
    assert_eq!(nearest(&vec![Some(7), Some(5), Some(3)], 0, 100), Some(2));
}

#[test]
fn first_of_equal_distances_wins() {
    assert_eq!(nearest(&vec![Some(9), Some(4), Some(4), Some(4)], 0, 100), Some(1));
}

#[test]
fn meeting_outside_the_interval_is_no_hit() {
    assert_eq!(nearest(&vec![Some(-5)], 0, 100), None);
    assert_eq!(nearest(&vec![Some(150)], 0, 100), None);
    assert_eq!(nearest(&vec![Some(-5), Some(150)], 0, 100), None);
    assert_eq!(nearest(&vec![Some(-5), Some(150), Some(50)], 0, 100), Some(2));
}

#[test]
fn interval_ends_are_left_out() {
    assert_eq!(nearest(&vec![Some(0)], 0, 100), None);
    assert_eq!(nearest(&vec![Some(100)], 0, 100), None);
    assert_eq!(nearest(&vec![Some(1)], 0, 100), Some(0));
    assert_eq!(nearest(&vec![Some(99)], 0, 100), Some(0));
    assert_eq!(nearest(&vec![Some(5)], 5, 5), None);
    assert_eq!(nearest(&vec![Some(5)], 7, 3), None);
    assert_eq!(nearest(&vec![Some(i64::MIN)], i64::MIN, i64::MAX), None);
    assert_eq!(nearest(&vec![Some(i64::MAX)], i64::MIN, i64::MAX), None);
    assert_eq!(nearest(&vec![Some(0)], i64::MIN, i64::MAX), Some(0));
}

#[test]
fn one_surface_is_held_to_the_same_interval() {
    assert!(admitted(Some(5), 0, 10));
    assert!(!admitted(Some(0), 0, 10));
    assert!(!admitted(Some(10), 0, 10));
    assert!(!admitted(Some(-1), 0, 10));
    assert!(!admitted(Some(11), 0, 10));
    assert!(!admitted(None, 0, 10));
    assert!(!admitted(None, i64::MIN, i64::MAX));
    for report in [None, Some(-3), Some(0), Some(4), Some(10), Some(12)] {
        assert_eq!(admitted(report, 0, 10), nearest(&vec![report], 0, 10).is_some());
    }
}

#[test]
fn sphere_ahead_is_met_at_the_near_root() {
    let root = near_root_on_axis(5.0, -1.0, 1.0);
    assert_eq!(root, Some(4.0));
    let report = root.map(key);
    assert!(admitted(report, key(0.0001), key(f64::INFINITY)));
    assert_eq!(nearest(&vec![report], key(0.0001), key(f64::INFINITY)), Some(0));
}

#[test]
fn root_outside_the_interval_reports_no_hit() {
    let report = near_root_on_axis(5.0, -1.0, 1.0).map(key);
    // the near root 4 lies beyond the upper end
    assert!(!admitted(report, key(0.0001), key(3.0)));
    assert_eq!(nearest(&vec![report], key(0.0001), key(3.0)), None);
    // the near root lies before the lower end; the far root 6 is not tried
    assert!(!admitted(report, key(4.5), key(f64::INFINITY)));
    assert_eq!(nearest(&vec![report], key(4.5), key(f64::INFINITY)), None);
    // on an end of the interval is outside
    assert!(!admitted(report, key(4.0), key(f64::INFINITY)));
    assert!(!admitted(report, key(0.0001), key(4.0)));
    // a sphere behind the ray has a negative near root
    let behind = near_root_on_axis(5.0, 1.0, 1.0).map(key);
    assert_eq!(near_root_on_axis(5.0, 1.0, 1.0), Some(-6.0));
    assert_eq!(nearest(&vec![behind], key(0.0001), key(f64::INFINITY)), None);
    // a ray that starts inside has its near root behind it
    let inside = near_root_on_axis(0.0, -1.0, 1.0).map(key);
    assert_eq!(nearest(&vec![inside], key(0.0001), key(f64::INFINITY)), None);
}

#[test]
fn nearer_of_two_spheres_hides_the_other() {
    let lo = key(0.0001);
    let hi = key(f64::INFINITY);
    let reports = vec![Some(key(-3.0)), Some(key(4.0)), None, Some(key(2.5))];
    assert_eq!(nearest(&reports, lo, hi), Some(3));
}

#[test]
fn order_of_the_surfaces_does_not_change_the_distance() {
    let a = vec![Some(8), None, Some(2), Some(6)];
    let b = vec![Some(6), Some(2), Some(8), None];
    let ia = nearest(&a, 0, 100).unwrap();
    let ib = nearest(&b, 0, 100).unwrap();
    assert_eq!(a[ia], b[ib]);
    assert_eq!(a[ia], Some(2));
    let c = vec![None, Some(200), Some(-1)];
    let d = vec![Some(-1), None, Some(200)];
    assert_eq!(nearest(&c, 0, 100), None);
    assert_eq!(nearest(&d, 0, 100), None);
}

#[test]
fn keys_order_as_the_numbers_do() {
    let samples = [
        f64::NEG_INFINITY,
        f64::MIN,
        -1.0e300,
        -2.5,
        -1.0,
        -1.0e-300,
        -f64::MIN_POSITIVE,
        -5e-324,
        -0.0,
        0.0,
        5e-324,
        f64::MIN_POSITIVE,
        1.0e-300,
        0.0001,
        0.5,
        1.0,
        2.5,
        1.0e300,
        f64::MAX,
        f64::INFINITY,
    ];
    for x in samples {
        for y in samples {
            assert_eq!(key(x) < key(y), x < y);
            assert_eq!(key(x) == key(y), x == y);
        }
    }
}

#[test]
fn key_is_the_magnitude_with_the_sign() {
    assert_eq!(distance_key(0), Some(0));
    assert_eq!(distance_key(0x8000_0000_0000_0000), Some(0));
    assert_eq!(distance_key(5), Some(5));
    assert_eq!(distance_key(0x8000_0000_0000_0005), Some(-5));
    assert_eq!(distance_key(1.0f64.to_bits()), Some(0x3ff0_0000_0000_0000));
    assert_eq!(distance_key((-1.0f64).to_bits()), Some(-0x3ff0_0000_0000_0000));
    assert_eq!(distance_key(0x7ff0_0000_0000_0000), Some(0x7ff0_0000_0000_0000));
    assert_eq!(distance_key(0xfff0_0000_0000_0000), Some(-0x7ff0_0000_0000_0000));
}

#[test]
fn what_is_no_number_has_no_key() {
    assert_eq!(distance_key(f64::NAN.to_bits()), None);
    assert_eq!(distance_key((-f64::NAN).to_bits()), None);
    assert_eq!(distance_key(0x7ff0_0000_0000_0001), None);
    assert_eq!(distance_key(0xfff0_0000_0000_0001), None);
    assert_eq!(distance_key(0x7fff_ffff_ffff_ffff), None);
    assert_eq!(distance_key(0xffff_ffff_ffff_ffff), None);
    assert_eq!(distance_key((0.0f64 / 0.0f64).to_bits()), None);
}
