use pcgbg::fixed::Fixed;
use pcgbg::pcgbg_buf::ValuePlane;
use pcgbg::pcgbg_complex::{
    is_nearer, Complex, ComplexEntry, ComplexEntryDistribution, ANGLE_HIGH, COEFFICIENT_HIGH,
    COEFFICIENT_LOW, RADIUS_HIGH, RADIUS_LOW,
};
use rand::rngs::SmallRng;
use rand::SeedableRng;

fn fx(n: i64) -> Fixed {
    Fixed::from_int(n)
}

fn half(n: i64) -> Fixed {
    Fixed::from_ratio(n, 2)
}

fn cx(re: i64, im: i64) -> Complex {
    Complex::new(fx(re), fx(im))
}

fn close(a: Fixed, b: f64) -> bool {
    (a.raw as f64 / 1e6 - b).abs() < 1e-6
}

fn corners() -> ComplexEntry {
    ComplexEntry::new(
        fx(10),
        fx(20),
        vec![fx(1), fx(2), fx(3)],
        2,
        vec![cx(1, 1), cx(-1, 1), cx(1, -1), cx(-1, -1)],
    )
}

#[test]
fn test_complex() {
    let c = corners();
    assert_eq!(c.complex_value_for_input(fx(0), fx(0)), cx(-1, -2));
    assert_eq!(c.complex_value_for_input(fx(5), fx(10)), cx(0, 0));
    assert_eq!(c.complex_value_for_input(fx(10), fx(20)), cx(1, 2));
    assert_eq!(ComplexEntry::dist(cx(0, 0), cx(1, 0)), fx(1));
    assert_eq!(ComplexEntry::dist(cx(0, 0), cx(0, 1)), fx(1));
    assert!(close(ComplexEntry::dist(cx(0, 0), cx(1, 1)), 2.0_f64.sqrt()));
    assert!(close(ComplexEntry::dist(cx(-2, -1), cx(-1, 0)), 2.0_f64.sqrt()));
    assert_eq!(c.multiply(cx(0, 0)), cx(6, 0));
    assert_eq!(c.multiply(cx(1, 1)), cx(-158, 160));
    assert_eq!(c.closest_point(cx(1, 1)), 0);
    assert_eq!(c.closest_point(cx(2, 1)), 0);
    assert_eq!(c.closest_point(cx(-1, 1)), 1);
    assert_eq!(c.closest_point(Complex::new(half(-3), half(3))), 1);
    assert_eq!(c.closest_point(Complex::new(half(3), half(-3))), 2);
    assert_eq!(c.closest_point(Complex::new(fx(-3), half(-1))), 3);
}

#[test]
fn the_middle_of_the_domain_is_the_origin() {
    let c = corners();
    assert_eq!(c.complex_value_for_input(fx(5), fx(10)), cx(0, 0));
    assert_eq!(c.complex_value_for_input(fx(0), fx(0)), cx(-1, -2));
    assert_eq!(c.complex_value_for_input(fx(10), fx(20)), cx(1, 2));
    assert_eq!(c.complex_value_for_input(fx(0), fx(20)), cx(-1, 2));
    assert_eq!(
        c.complex_value_for_input(fx(1), fx(1)),
        Complex::new(Fixed { raw: -800_000 }, Fixed { raw: -1_800_000 })
    );
    let wide = ComplexEntry::new(fx(30), fx(10), vec![fx(1)], 0, vec![cx(0, 0), cx(1, 0)]);
    assert_eq!(wide.complex_value_for_input(fx(0), fx(0)), cx(-3, -1));
    assert_eq!(wide.complex_value_for_input(fx(30), fx(10)), cx(3, 1));
    let odd = ComplexEntry::new(fx(3), fx(3), vec![fx(1)], 0, vec![cx(0, 0), cx(1, 0)]);
    assert_eq!(
        odd.complex_value_for_input(fx(0), fx(1)),
        Complex::new(fx(-1), Fixed { raw: -333_333 })
    );
    assert_eq!(
        odd.complex_value_for_input(fx(3), fx(2)),
        Complex::new(fx(1), Fixed { raw: 333_333 })
    );
}

#[test]
fn ties_go_to_the_first_point() {
    let c = corners();
    assert_eq!(c.closest_point(cx(2, 1)), 0);
    assert_eq!(c.closest_point(Complex::new(half(-3), half(3))), 1);
    assert_eq!(c.closest_point(cx(0, 0)), 0);
    assert_eq!(c.closest_point(cx(0, 5)), 0);
    assert_eq!(c.closest_point(cx(-5, 0)), 1);
    assert_eq!(c.closest_point(cx(0, -5)), 2);
    let twice = ComplexEntry::new(
        fx(1),
        fx(1),
        vec![fx(1)],
        0,
        vec![cx(3, 3), cx(2, 2), cx(2, 2), cx(-2, -2)],
    );
    assert_eq!(twice.closest_point(cx(2, 2)), 1);
    assert_eq!(twice.closest_point(cx(0, 0)), 1);
    assert_eq!(twice.closest_point(cx(9, 9)), 0);
}

#[test]
fn nearness_is_exact_where_distances_round_alike() {
    let z = cx(0, 0);
    let p = Complex::new(Fixed { raw: 1_000_000 }, Fixed { raw: 1 });
    let q = Complex::new(Fixed { raw: 1_000_000 }, Fixed { raw: 2 });
    assert_eq!(ComplexEntry::dist(z, p), ComplexEntry::dist(z, q));
    assert!(is_nearer(z, p, q));
    assert!(!is_nearer(z, q, p));
    assert!(!is_nearer(z, p, p));
    let entry = ComplexEntry::new(fx(1), fx(1), vec![fx(1)], 0, vec![q, p]);
    assert_eq!(entry.closest_point(z), 1);
}

#[test]
fn nearness_at_the_ends_of_the_range() {
    let low = Complex::new(Fixed { raw: i64::MIN }, Fixed { raw: i64::MIN });
    let high = Complex::new(Fixed { raw: i64::MAX }, Fixed { raw: i64::MAX });
    let mid = cx(0, 0);
    assert!(is_nearer(low, mid, high));
    assert!(!is_nearer(low, high, mid));
    assert!(is_nearer(high, mid, low));
    assert!(!is_nearer(high, low, low));
    assert!(is_nearer(mid, high, low));
    assert_eq!(ComplexEntry::dist(low, high).raw, i64::MAX);
    let entry = ComplexEntry::new(fx(1), fx(1), vec![fx(1)], 0, vec![low, high, mid]);
    assert_eq!(entry.closest_point(high), 1);
    assert_eq!(entry.closest_point(low), 0);
    assert_eq!(entry.closest_point(cx(1, 1)), 2);
}

#[test]
fn complex_arithmetic() {
    let a = cx(1, 2);
    let b = cx(3, -1);
    assert_eq!(a.plus(b), cx(4, 1));
    assert_eq!(a.times(b), cx(5, 5));
    assert_eq!(a.times(a), cx(-3, 4));
    assert_eq!(a.scaled(half(1)), Complex::new(half(1), fx(1)));
    let i = cx(0, 1);
    assert_eq!(i.times(i), cx(-1, 0));
    let third = Complex::new(Fixed { raw: 333_333 }, Fixed { raw: -333_333 });
    assert_eq!(third.times(third), Complex::new(Fixed { raw: 0 }, Fixed { raw: -222_221 }));
}

#[test]
fn complex_product_saturates() {
    let low = Complex::new(Fixed { raw: i64::MIN }, Fixed { raw: i64::MIN });
    let high = Complex::new(Fixed { raw: i64::MAX }, Fixed { raw: i64::MAX });
    assert_eq!(low.times(low), Complex::new(Fixed { raw: 0 }, Fixed { raw: i64::MAX }));
    assert_eq!(high.times(low), Complex::new(Fixed { raw: 0 }, Fixed { raw: i64::MIN }));
    let real = Complex::new(Fixed { raw: i64::MIN }, Fixed { raw: 0 });
    assert_eq!(real.times(real), Complex::new(Fixed { raw: i64::MAX }, Fixed { raw: 0 }));
    assert_eq!(high.plus(high), high);
    assert_eq!(low.plus(low), low);
}

#[test]
fn multiply_applies_the_polynomial_each_round() {
    let points = vec![cx(0, 0), cx(1, 0)];
    let none = ComplexEntry::new(fx(1), fx(1), vec![fx(1), fx(2), fx(3)], 0, points.clone());
    assert_eq!(none.multiply(cx(4, -7)), cx(4, -7));
    let once = ComplexEntry::new(fx(1), fx(1), vec![fx(1), fx(2), fx(3)], 1, points.clone());
    assert_eq!(once.multiply(cx(0, 0)), cx(1, 0));
    assert_eq!(once.multiply(cx(1, 1)), cx(3, 8));
    let constant = ComplexEntry::new(fx(1), fx(1), vec![half(5)], 3, points.clone());
    assert_eq!(constant.multiply(cx(4, -7)), Complex::new(half(5), fx(0)));
    let square = ComplexEntry::new(fx(1), fx(1), vec![fx(0), fx(0), fx(1)], 3, points.clone());
    assert_eq!(square.multiply(cx(0, 1)), cx(1, 0));
    assert_eq!(square.multiply(cx(2, 0)), cx(256, 0));
    let cube = ComplexEntry::new(fx(1), fx(1), vec![fx(0), fx(0), fx(0), half(1)], 1, points);
    assert_eq!(cube.multiply(cx(1, 1)), cx(-1, 1));
}

#[test]
fn multiply_saturates_far_out() {
    let points = vec![cx(0, 0), cx(1, 0)];
    let square = ComplexEntry::new(fx(1), fx(1), vec![fx(0), fx(0), fx(1)], 8, points);
    assert_eq!(
        square.multiply(cx(10, 0)),
        Complex::new(Fixed { raw: i64::MAX }, Fixed { raw: 0 })
    );
}

#[test]
fn val_is_the_class_as_a_fraction() {
    let c = ComplexEntry::new(
        fx(4),
        fx(4),
        vec![fx(0), fx(1)],
        3,
        vec![cx(1, 1), cx(-1, 1), cx(1, -1), cx(-1, -1)],
    );
    assert_eq!(c.val(fx(4), fx(4)), fx(0));
    assert_eq!(c.val(fx(0), fx(4)).raw, 333_333);
    assert_eq!(c.val(fx(4), fx(0)).raw, 666_666);
    assert_eq!(c.val(fx(0), fx(0)), fx(1));
    assert_eq!(c.val(fx(2), fx(2)), fx(0));
    let two = ComplexEntry::new(fx(4), fx(4), vec![fx(0), fx(1)], 3, vec![cx(1, 0), cx(-1, 0)]);
    assert_eq!(two.val(fx(0), fx(1)), fx(1));
    assert_eq!(two.val(fx(3), fx(1)), fx(0));
}

#[test]
fn sampled_classifier_lies_in_its_ranges() {
    let distribution = ComplexEntryDistribution { width: 10, height: 20 };
    let mut rng = SmallRng::seed_from_u64(3);
    let mut coefficients = Vec::new();
    let mut radii = Vec::new();
    let mut angles = Vec::new();
    for _ in 0..50 {
        let draw = distribution.sample(&mut rng);
        assert_eq!(draw.width, fx(10));
        assert_eq!(draw.height, fx(20));
        assert_eq!(draw.iterations, 4);
        assert_eq!(draw.coefficients.len(), 3);
        assert_eq!(draw.points.len(), 5);
        for c in &draw.coefficients {
            assert!(COEFFICIENT_LOW <= c.raw && c.raw < COEFFICIENT_HIGH);
            assert!(100_000 <= c.raw && c.raw < 3_000_000);
            coefficients.push(c.raw);
        }
        for p in &draw.points {
            assert!(RADIUS_LOW <= p.radius.raw && p.radius.raw < RADIUS_HIGH);
            assert!(100_000 <= p.radius.raw && p.radius.raw < 1_500_000);
            assert!(0 <= p.angle.raw && p.angle.raw < ANGLE_HIGH);
            assert!((p.angle.raw as f64) / 1e6 < 2.0 * std::f64::consts::PI);
            radii.push(p.radius.raw);
            angles.push(p.angle.raw);
        }
    }
    assert!(coefficients.iter().any(|&c| c != COEFFICIENT_LOW));
    assert!(coefficients.iter().any(|&c| c > 1_500_000));
    assert!(radii.iter().any(|&r| r != RADIUS_LOW));
    assert!(angles.iter().any(|&a| a != 0));
    assert!(angles.iter().any(|&a| a > 3_141_592));
}

#[test]
fn the_greatest_angle_is_below_a_full_turn() {
    assert!(((ANGLE_HIGH - 1) as f64) / 1e6 < 2.0 * std::f64::consts::PI);
    assert!((ANGLE_HIGH as f64) / 1e6 >= 2.0 * std::f64::consts::PI);
}

#[test]
fn what_is_no_classifier_is_not_made() {
    let points = vec![cx(0, 0), cx(1, 0)];
    let coefficients = vec![fx(1)];
    assert!(ComplexEntry::try_new(fx(1), fx(1), coefficients.clone(), 0, points.clone()).is_some());
    assert!(ComplexEntry::try_new(fx(0), fx(1), coefficients.clone(), 0, points.clone()).is_none());
    assert!(ComplexEntry::try_new(fx(1), fx(0), coefficients.clone(), 0, points.clone()).is_none());
    assert!(ComplexEntry::try_new(fx(-1), fx(1), coefficients.clone(), 0, points.clone()).is_none());
    assert!(ComplexEntry::try_new(fx(1), fx(1), vec![], 0, points.clone()).is_none());
    assert!(ComplexEntry::try_new(fx(1), fx(1), coefficients.clone(), 0, vec![cx(0, 0)]).is_none());
    assert!(ComplexEntry::try_new(fx(1), fx(1), coefficients, 0, vec![]).is_none());
    let made = ComplexEntry::try_new(fx(10), fx(20), vec![fx(1), fx(2), fx(3)], 2, points).unwrap();
    assert_eq!(made.multiply(cx(1, 1)), cx(-158, 160));
}
