use pcgbg::dist::{distance, distance_from, DistanceEntry, DistanceType, Vec2D};
use pcgbg::fixed::Fixed;

fn fx(n: i64) -> Fixed {
    Fixed::from_int(n)
}

fn vec2(x: i64, y: i64) -> Vec2D {
    Vec2D::new(fx(x), fx(y))
}

fn approx_eq(a: Fixed, b: Fixed) -> bool {
    (a.raw - b.raw).abs() < 1
}

#[test]
fn dist_test_dist_entry() {
    assert!(approx_eq(
        DistanceEntry::new(DistanceType::Manhattan, vec2(7, 8), vec2(1, 0), false, false)
            .distance(vec2(3, 3)),
        fx(5)
    ));
    assert!(approx_eq(
        DistanceEntry::new(DistanceType::Manhattan, vec2(7, 8), vec2(1, 0), true, false)
            .distance(vec2(6, 7)),
        fx(3)
    ));
    assert!(approx_eq(
        DistanceEntry::new(DistanceType::Manhattan, vec2(4, 2), vec2(3, 0), true, true,)
            .distance(vec2(0, 1)),
        fx(1)
    ));
}

#[test]
fn each_metric_on_three_and_four() {
    let v = vec2(3, -4);
    assert_eq!(distance(DistanceType::Manhattan, v), fx(7));
    assert_eq!(distance(DistanceType::Euclidean, v), fx(25));
    assert_eq!(distance(DistanceType::Euclidean2, v), fx(5));
    assert_eq!(distance(DistanceType::Chebyshev, v), fx(4));
    assert_eq!(distance(DistanceType::MinXY, v), fx(3));
}

#[test]
fn metrics_on_fractions() {
    let v = Vec2D::new(Fixed { raw: 500_000 }, Fixed { raw: -1_500_000 });
    assert_eq!(distance(DistanceType::Manhattan, v).raw, 2_000_000);
    assert_eq!(distance(DistanceType::Euclidean, v).raw, 2_500_000);
    assert_eq!(distance(DistanceType::Euclidean2, v).raw, 1_581_138);
    assert_eq!(distance(DistanceType::Chebyshev, v).raw, 1_500_000);
    assert_eq!(distance(DistanceType::MinXY, v).raw, 500_000);
}

#[test]
fn euclidean_rounds_down() {
    let v = Vec2D::new(Fixed { raw: 1 }, Fixed { raw: 999 });
    assert_eq!(distance(DistanceType::Euclidean, v).raw, 0);
    let w = Vec2D::new(Fixed { raw: 1_000 }, Fixed { raw: 0 });
    assert_eq!(distance(DistanceType::Euclidean, w).raw, 1);
    let unit = vec2(1, 1);
    assert_eq!(distance(DistanceType::Euclidean2, unit).raw, 1_414_213);
}

#[test]
fn metrics_saturate() {
    let far = Vec2D::new(Fixed { raw: i64::MIN }, Fixed { raw: i64::MAX });
    assert_eq!(distance(DistanceType::Manhattan, far).raw, i64::MAX);
    assert_eq!(distance(DistanceType::Euclidean, far).raw, i64::MAX);
    assert_eq!(distance(DistanceType::Euclidean2, far).raw, i64::MAX);
    assert_eq!(distance(DistanceType::Chebyshev, far).raw, i64::MAX);
    assert_eq!(distance(DistanceType::MinXY, far).raw, i64::MAX);
    let mixed = Vec2D::new(Fixed { raw: i64::MIN }, Fixed { raw: 5 });
    assert_eq!(distance(DistanceType::MinXY, mixed).raw, 5);
    assert_eq!(distance(DistanceType::Chebyshev, mixed).raw, i64::MAX);
}

#[test]
fn distance_at_the_center_is_zero() {
    let kinds = [
        DistanceType::Manhattan,
        DistanceType::Euclidean,
        DistanceType::Euclidean2,
        DistanceType::Chebyshev,
        DistanceType::MinXY,
    ];
    for kind in kinds {
        assert_eq!(distance_from(kind, vec2(7, 8), vec2(2, 3), true, vec2(2, 3)), fx(0));
        assert_eq!(distance_from(kind, vec2(7, 8), vec2(2, 3), false, vec2(2, 3)), fx(0));
    }
}

#[test]
fn wrapping_takes_the_shorter_way_on_each_axis() {
    let size = vec2(10, 10);
    let center = vec2(1, 9);
    let p = vec2(9, 1);
    assert_eq!(distance_from(DistanceType::Manhattan, size, center, false, p), fx(16));
    assert_eq!(distance_from(DistanceType::Manhattan, size, center, true, p), fx(4));
    assert_eq!(distance_from(DistanceType::Euclidean, size, center, true, p), fx(8));
    assert_eq!(distance_from(DistanceType::Chebyshev, size, center, true, p), fx(2));
    let q = vec2(9, 8);
    assert_eq!(distance_from(DistanceType::Chebyshev, size, center, true, q), fx(2));
    assert_eq!(distance_from(DistanceType::MinXY, size, center, true, q), fx(1));
}

#[test]
fn max_distance_without_wrap_is_the_far_corner() {
    let entry = DistanceEntry::new(DistanceType::Manhattan, vec2(7, 8), vec2(1, 0), false, true);
    assert_eq!(entry.max_distance(), fx(14));
    assert_eq!(entry.distance(vec2(1, 0)), fx(14));
    assert_eq!(entry.distance(vec2(7, 8)), fx(0));
    assert_eq!(entry.distance(vec2(3, 3)), fx(9));
}

#[test]
fn max_distance_with_wrap_is_half_the_extent() {
    let entry = DistanceEntry::new(DistanceType::Chebyshev, vec2(7, 8), vec2(1, 0), true, false);
    assert_eq!(entry.max_distance(), fx(4));
    let squared = DistanceEntry::new(DistanceType::Euclidean, vec2(6, 8), vec2(1, 0), true, true);
    assert_eq!(squared.max_distance(), fx(25));
    assert_eq!(squared.distance(vec2(4, 4)), fx(0));
}

#[test]
fn scaled_distance_is_a_fraction_of_the_greatest() {
    let entry = DistanceEntry::new(DistanceType::Manhattan, vec2(7, 8), vec2(1, 0), false, false);
    assert_eq!(entry.scaled_distance(vec2(3, 3)).raw, 357_142);
    assert_eq!(entry.scaled_distance(vec2(7, 8)), fx(1));
    assert_eq!(entry.scaled_distance(vec2(1, 0)), fx(0));
    let reversed = DistanceEntry::new(DistanceType::Manhattan, vec2(7, 8), vec2(1, 0), false, true);
    assert_eq!(reversed.scaled_distance(vec2(3, 3)).raw, 642_857);
    assert_eq!(reversed.scaled_distance(vec2(1, 0)), fx(1));
}

#[test]
fn wrapping_is_never_farther() {
    let kinds = [
        DistanceType::Manhattan,
        DistanceType::Euclidean,
        DistanceType::Euclidean2,
        DistanceType::Chebyshev,
        DistanceType::MinXY,
    ];
    let size = vec2(7, 8);
    let center = Vec2D::new(Fixed::from_ratio(5, 2), Fixed::from_ratio(31, 4));
    for kind in kinds {
        for x in -3..12 {
            for y in -3..12 {
                let wrapped = distance_from(kind, size, center, true, vec2(x, y));
                let direct = distance_from(kind, size, center, false, vec2(x, y));
                assert!(wrapped.raw <= direct.raw);
            }
        }
    }
}

#[test]
fn inside_the_domain_a_field_lies_between_zero_and_its_greatest_distance() {
    let kinds = [
        DistanceType::Manhattan,
        DistanceType::Euclidean,
        DistanceType::Euclidean2,
        DistanceType::Chebyshev,
        DistanceType::MinXY,
    ];
    let size = vec2(7, 8);
    let center = Vec2D::new(Fixed::from_ratio(5, 2), Fixed::from_ratio(31, 4));
    for kind in kinds {
        for wrap in [false, true] {
            for reverse in [false, true] {
                let entry = DistanceEntry::new(kind, size, center, wrap, reverse);
                let most = entry.max_distance().raw;
                let mut least_seen = i64::MAX;
                let mut most_seen = i64::MIN;
                for x in 0..=7 {
                    for y in 0..=8 {
                        let v = entry.distance(vec2(x, y)).raw;
                        assert!(0 <= v && v <= most);
                        least_seen = least_seen.min(v);
                        most_seen = most_seen.max(v);
                    }
                }
                assert!(least_seen < most_seen);
            }
        }
    }
}
