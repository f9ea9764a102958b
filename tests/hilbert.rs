use std::collections::HashSet;

use binary_visualizer::curve::HilbertCurve;
use binary_visualizer::pos::Pos2;

#[test]
fn inverse_hilbert() {
    let n = 512;

    let curve = HilbertCurve::new(n);

    let total = n * n;
    for i in 0..total {
        let point = curve.value_to_point(i);

        assert_eq!(curve.point_to_value(point), i);
    }
}

#[test]
fn round_trip_for_several_orders() {
    let mut n: usize = 1;
    while n <= 256 {
        let curve = HilbertCurve::new(n);
        for v in 0..n * n {
            assert_eq!(curve.point_to_value(curve.value_to_point(v)), v);
        }
        n *= 2;
    }
}

#[test]
fn points_are_distinct_and_in_range() {
    for &n in &[1usize, 2, 4, 8, 16, 32] {
        let curve = HilbertCurve::new(n);
        let mut seen = HashSet::new();
        for v in 0..n * n {
            let p = curve.value_to_point(v);
            assert!(p.x < n && p.y < n);
            assert!(seen.insert((p.x, p.y)));
        }
        assert_eq!(seen.len(), n * n);
    }
}

#[test]
fn degenerate_curve() {
    let curve = HilbertCurve::new(1);
    assert_eq!(curve.order(), 0);
    assert_eq!(curve.side(), 1);
    let p = curve.value_to_point(0);
    assert_eq!((p.x, p.y), (0, 0));
    assert_eq!(curve.point_to_value(Pos2 { x: 0, y: 0 }), 0);
}

#[test]
fn order_of_power_of_two_sizes() {
    assert_eq!(HilbertCurve::new(2).order(), 1);
    assert_eq!(HilbertCurve::new(256).order(), 8);
    assert_eq!(HilbertCurve::new(512).side(), 512);
}

#[test]
fn curve_of_order_one() {
    let curve = HilbertCurve::new(2);
    let expected = [(0, 0), (0, 1), (1, 1), (1, 0)];
    for (v, &(x, y)) in expected.iter().enumerate() {
        let p = curve.value_to_point(v);
        assert_eq!((p.x, p.y), (x, y));
        assert_eq!(curve.point_to_value(Pos2 { x, y }), v);
    }
}

#[test]
fn curve_of_order_two() {
    let curve = HilbertCurve::new(4);
    let expected = [
        (0, 0), (1, 0), (1, 1), (0, 1),
        (0, 2), (0, 3), (1, 3), (1, 2),
        (2, 2), (2, 3), (3, 3), (3, 2),
        (3, 1), (2, 1), (2, 0), (3, 0),
    ];
    for (v, &(x, y)) in expected.iter().enumerate() {
        let p = curve.value_to_point(v);
        assert_eq!((p.x, p.y), (x, y));
        assert_eq!(curve.point_to_value(Pos2 { x, y }), v);
    }
}

#[test]
fn neighbours_along_the_curve_are_adjacent() {
    let curve = HilbertCurve::new(64);
    for v in 1..64 * 64 {
        let a = curve.value_to_point(v - 1);
        let b = curve.value_to_point(v);
        let dist = a.x.abs_diff(b.x) + a.y.abs_diff(b.y);
        assert_eq!(dist, 1);
    }
}

#[test]
fn try_new_accepts_powers_of_two() {
    for &n in &[1usize, 2, 4, 1024] {
        let curve = HilbertCurve::try_new(n).unwrap();
        assert_eq!(curve.side(), n);
    }
    assert_eq!(HilbertCurve::try_new(8).unwrap().order(), 3);
}

#[test]
fn try_new_rejects_other_sizes() {
    for &n in &[0usize, 3, 5, 6, 12, 255, 257, 1000] {
        assert!(HilbertCurve::try_new(n).is_none());
    }
    assert!(HilbertCurve::try_new(1usize << (usize::BITS - 1)).is_none());
}
