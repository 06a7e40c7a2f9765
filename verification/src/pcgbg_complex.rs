//! Fractal classifier planes: each grid cell is mapped to a complex number,
//! a polynomial is applied to it a fixed number of times, and the cell gets
//! the number of the attractor point nearest to where it ends up.

use crate::dist::{measure, metric, min, DistanceType};
use crate::fixed::{
    clamp, lemma_product_bounds, lemma_ratio_of_part, lemma_square_of_abs, magnitude, product_raw,
    ratio, ratio_raw, rescale, rescale_wide, sum_raw, Fixed, SCALE,
};
use crate::pcgbg_buf::ValuePlane;
use crate::rng::draw_range;
use rand::rngs::SmallRng;
use vstd::prelude::*;

verus! {

/// A complex number.
#[derive(Clone, Copy, Debug, PartialEq, Eq, Structural)]
pub struct Complex {
    pub re: Fixed,
    pub im: Fixed,
}

/// The sum of two complex numbers.
pub open spec fn complex_sum(a: Complex, b: Complex) -> Complex {
    Complex {
        re: Fixed { raw: sum_raw(a.re.raw as int, b.re.raw as int) as i64 },
        im: Fixed { raw: sum_raw(a.im.raw as int, b.im.raw as int) as i64 },
    }
}

/// The product of two complex numbers. Each component is rounded once.
pub open spec fn complex_product(a: Complex, b: Complex) -> Complex {
    Complex {
        re: Fixed { raw: rescale(a.re.raw * b.re.raw - a.im.raw * b.im.raw) as i64 },
        im: Fixed { raw: rescale(a.re.raw * b.im.raw + a.im.raw * b.re.raw) as i64 },
    }
}

/// The product of a real and a complex number.
pub open spec fn complex_scaled(c: Fixed, z: Complex) -> Complex {
    Complex {
        re: Fixed { raw: product_raw(c.raw as int, z.re.raw as int) as i64 },
        im: Fixed { raw: product_raw(c.raw as int, z.im.raw as int) as i64 },
    }
}

/// The power `z^n`, by repeated multiplication; `z^0` is one.
pub open spec fn complex_power(z: Complex, n: nat) -> Complex
    decreases n,
{
    if n == 0 {
        Complex { re: Fixed { raw: SCALE }, im: Fixed { raw: 0 } }
    } else {
        complex_product(complex_power(z, (n - 1) as nat), z)
    }
}

/// The first `n` terms of the polynomial with the given coefficients, at
/// `z`: the sum of `coefficients[i] * z^i` for `i < n`, summed in that order.
pub open spec fn polynomial(coefficients: Seq<Fixed>, z: Complex, n: nat) -> Complex
    decreases n,
{
    if n == 0 {
        Complex { re: Fixed { raw: 0 }, im: Fixed { raw: 0 } }
    } else {
        complex_sum(
            polynomial(coefficients, z, (n - 1) as nat),
            complex_scaled(coefficients[n - 1], complex_power(z, (n - 1) as nat)),
        )
    }
}

/// Where `z` is after the polynomial has been applied to it `rounds` times.
pub open spec fn orbit(coefficients: Seq<Fixed>, z: Complex, rounds: nat) -> Complex
    decreases rounds,
{
    if rounds == 0 {
        z
    } else {
        polynomial(coefficients, orbit(coefficients, z, (rounds - 1) as nat), coefficients.len())
    }
}

/// The square of the raw distance between two complex numbers.
pub open spec fn gap(a: Complex, b: Complex) -> int {
    (a.re.raw - b.re.raw) * (a.re.raw - b.re.raw) + (a.im.raw - b.im.raw) * (a.im.raw
        - b.im.raw)
}

/// `k` numbers the point nearest to `z`: no point is nearer, and none
/// before it is as near.
pub open spec fn is_nearest(points: Seq<Complex>, z: Complex, k: int) -> bool {
    &&& 0 <= k < points.len()
    &&& forall|j: int| 0 <= j < points.len() ==> gap(z, points[k]) <= #[trigger] gap(z, points[j])
    &&& forall|j: int| 0 <= j < k ==> gap(z, points[k]) < #[trigger] gap(z, points[j])
}

/// The number of the point nearest to `z`, the first of them where several
/// are equally near.
pub open spec fn nearest(points: Seq<Complex>, z: Complex) -> int {
    choose|k: int| is_nearest(points, z, k)
}

/// Only one point is nearest and first.
pub proof fn lemma_nearest_unique(points: Seq<Complex>, z: Complex, k: int)
    requires
        is_nearest(points, z, k),
    ensures
        nearest(points, z) == k,
{
    let n = nearest(points, z);
    assert(is_nearest(points, z, n));
    if n < k {
        assert(gap(z, points[k]) < gap(z, points[n]));
    } else if k < n {
        assert(gap(z, points[n]) < gap(z, points[k]));
    }
}

/// The complex number that stands for the point `(x, y)` of a domain of the
/// given extents: the middle of the domain is the origin, and the shorter
/// side spans -1 to 1.
pub open spec fn plane_point(width: Fixed, height: Fixed, x: Fixed, y: Fixed) -> Complex {
    let shorter = min(width.raw as int, height.raw as int);
    Complex {
        re: Fixed { raw: ratio_raw(2 * x.raw - width.raw, shorter) as i64 },
        im: Fixed { raw: ratio_raw(2 * y.raw - height.raw, shorter) as i64 },
    }
}

/// The middle of the domain is the origin, and the ends of the shorter side
/// are at -1 and at 1: the shorter side spans the unit range exactly.
pub proof fn lemma_shorter_side_spans_unit(width: Fixed, height: Fixed, x: Fixed, y: Fixed)
    requires
        width.raw > 0,
        height.raw > 0,
    ensures
        2 * x.raw == width.raw ==> plane_point(width, height, x, y).re.raw == 0,
        2 * y.raw == height.raw ==> plane_point(width, height, x, y).im.raw == 0,
        width.raw <= height.raw && x.raw == 0 ==> plane_point(width, height, x, y).re.raw == -SCALE,
        width.raw <= height.raw && x.raw == width.raw ==> plane_point(width, height, x, y).re.raw
            == SCALE,
        height.raw <= width.raw && y.raw == 0 ==> plane_point(width, height, x, y).im.raw == -SCALE,
        height.raw <= width.raw && y.raw == height.raw ==> plane_point(width, height, x, y).im.raw
            == SCALE,
{
    let shorter = min(width.raw as int, height.raw as int);
    assert(shorter * SCALE == SCALE * shorter) by (nonlinear_arith);
    lemma_ratio_of_part(shorter, shorter);
    lemma_ratio_of_part(0, shorter);
}

/// The sum of two products of raw counts, brought back to the scale of one.
fn rescale_sum(p: i128, q: i128) -> (r: i64)
    requires
        -0x4000_0000_0000_0000_0000_0000_0000_0000 <= p <= 0x4000_0000_0000_0000_0000_0000_0000_0000,
        -0x4000_0000_0000_0000_0000_0000_0000_0000 <= q <= 0x4000_0000_0000_0000_0000_0000_0000_0000,
    ensures
        r == rescale(p + q),
{
    match p.checked_add(q) {
        Some(s) => rescale_wide(s),
        None => {
            assert(p + q == 0x8000_0000_0000_0000_0000_0000_0000_0000);
            i64::MAX
        },
    }
}

impl Complex {
    /// The complex number with the given parts.
    pub fn new(re: Fixed, im: Fixed) -> (z: Complex)
        ensures
            z.re == re,
            z.im == im,
    {
        Complex { re, im }
    }

    /// The sum of two complex numbers.
    pub fn plus(self, rhs: Complex) -> (z: Complex)
        ensures
            z == complex_sum(self, rhs),
    {
        Complex { re: self.re.plus(rhs.re), im: self.im.plus(rhs.im) }
    }

    /// The product of two complex numbers.
    pub fn times(self, rhs: Complex) -> (z: Complex)
        ensures
            z == complex_product(self, rhs),
    {
        proof {
            lemma_product_bounds(self.re.raw, rhs.re.raw);
            lemma_product_bounds(self.im.raw, rhs.im.raw);
            lemma_product_bounds(self.re.raw, rhs.im.raw);
            lemma_product_bounds(self.im.raw, rhs.re.raw);
        }
        let rr: i128 = (self.re.raw as i128) * (rhs.re.raw as i128);
        let ii: i128 = (self.im.raw as i128) * (rhs.im.raw as i128);
        let ri: i128 = (self.re.raw as i128) * (rhs.im.raw as i128);
        let ir: i128 = (self.im.raw as i128) * (rhs.re.raw as i128);
        Complex { re: Fixed { raw: rescale_sum(rr, -ii) }, im: Fixed { raw: rescale_sum(ri, ir) } }
    }

    /// The product with the real number `c`.
    pub fn scaled(self, c: Fixed) -> (z: Complex)
        ensures
            z == complex_scaled(c, self),
    {
        Complex { re: c.times(self.re), im: c.times(self.im) }
    }
}

/// The square of the difference of two raw counts.
fn square_of_difference(x: i64, y: i64) -> (r: u128)
    ensures
        r == (x - y) * (x - y),
{
    let m: u128 = magnitude(x as i128 - y as i128);
    proof {
        lemma_square_of_abs(x - y);
        assert(m * m <= 0xffff_ffff_ffff_ffff * 0xffff_ffff_ffff_ffff) by (nonlinear_arith)
            requires
                0 <= m <= 0xffff_ffff_ffff_ffff,
        ;
    }
    m * m
}

/// Whether `a1 + b1` is less than `a2 + b2`. Neither sum is formed: it might
/// not fit.
fn sum_is_less(a1: u128, b1: u128, a2: u128, b2: u128) -> (less: bool)
    ensures
        less == (a1 + b1 < a2 + b2),
{
    if a1 >= a2 {
        b2 >= b1 && a1 - a2 < b2 - b1
    } else {
        b2 >= b1 || a2 - a1 > b1 - b2
    }
}

/// Whether `z` is nearer to `p` than to `q`.
pub fn is_nearer(z: Complex, p: Complex, q: Complex) -> (nearer: bool)
    ensures
        nearer == (gap(z, p) < gap(z, q)),
{
    sum_is_less(
        square_of_difference(z.re.raw, p.re.raw),
        square_of_difference(z.im.raw, p.im.raw),
        square_of_difference(z.re.raw, q.re.raw),
        square_of_difference(z.im.raw, q.im.raw),
    )
}

/// A fractal classifier over a domain of the given extents.
pub struct ComplexEntry {
    width: Fixed,
    height: Fixed,
    coefficients: Vec<Fixed>,
    iterations: usize,
    points: Vec<Complex>,
}

/// What a fractal classifier is made of.
pub ghost struct ComplexEntryView {
    pub width: Fixed,
    pub height: Fixed,
    pub coefficients: Seq<Fixed>,
    pub iterations: nat,
    pub points: Seq<Complex>,
}

impl ComplexEntryView {
    /// A classifier has a domain with two sides, a polynomial, and attractor
    /// points to tell apart.
    pub open spec fn wf(self) -> bool {
        &&& self.width.raw > 0
        &&& self.height.raw > 0
        &&& self.coefficients.len() >= 1
        &&& self.points.len() >= 2
    }

    /// The class of the point `(x, y)` of the domain: the number of the
    /// attractor point nearest to where the point ends up.
    pub open spec fn class(self, x: Fixed, y: Fixed) -> int {
        nearest(
            self.points,
            orbit(
                self.coefficients,
                plane_point(self.width, self.height, x, y),
                self.iterations,
            ),
        )
    }

    /// The value of the plane at `(x, y)`: the class, as a fraction of the
    /// greatest class.
    pub open spec fn value(self, x: Fixed, y: Fixed) -> Fixed {
        Fixed { raw: ratio_raw(self.class(x, y), self.points.len() - 1) as i64 }
    }
}

impl View for ComplexEntry {
    type V = ComplexEntryView;

    closed spec fn view(&self) -> ComplexEntryView {
        ComplexEntryView {
            width: self.width,
            height: self.height,
            coefficients: self.coefficients@,
            iterations: self.iterations as nat,
            points: self.points@,
        }
    }
}

impl ComplexEntry {
    #[verifier::type_invariant]
    spec fn inv(self) -> bool {
        self@.wf()
    }

    /// A classifier over a domain of the given extents, which are positive.
    /// There is at least one coefficient, and there are at least two points.
    pub fn new(
        width: Fixed,
        height: Fixed,
        coefficients: Vec<Fixed>,
        iterations: usize,
        points: Vec<Complex>,
    ) -> (entry: ComplexEntry)
        requires
            width.raw > 0,
            height.raw > 0,
            coefficients@.len() >= 1,
            points@.len() >= 2,
        ensures
            entry@ == (ComplexEntryView {
                width,
                height,
                coefficients: coefficients@,
                iterations: iterations as nat,
                points: points@,
            }),
    {
        ComplexEntry { width, height, coefficients, iterations, points }
    }

    /// The classifier of these parts, or nothing where they are not those
    /// of a classifier: a side of the domain is not positive, no coefficient
    /// is given, or fewer than two points are.
    pub fn try_new(
        width: Fixed,
        height: Fixed,
        coefficients: Vec<Fixed>,
        iterations: usize,
        points: Vec<Complex>,
    ) -> (made: Option<ComplexEntry>)
        ensures
            made is Some <==> (ComplexEntryView {
                width,
                height,
                coefficients: coefficients@,
                iterations: iterations as nat,
                points: points@,
            }).wf(),
            made is Some ==> made->Some_0@ == (ComplexEntryView {
                width,
                height,
                coefficients: coefficients@,
                iterations: iterations as nat,
                points: points@,
            }),
    {
        if width.raw > 0 && height.raw > 0 && coefficients.len() >= 1 && points.len() >= 2 {
            Some(ComplexEntry::new(width, height, coefficients, iterations, points))
        } else {
            None
        }
    }

    /// The complex number that stands for the point `(x, y)` of the domain.
    pub fn complex_value_for_input(&self, x: Fixed, y: Fixed) -> (z: Complex)
        ensures
            z == plane_point(self@.width, self@.height, x, y),
    {
        proof {
            use_type_invariant(self);
        }
        let shorter: i64 = if self.width.raw <= self.height.raw {
            self.width.raw
        } else {
            self.height.raw
        };
        Complex {
            re: Fixed { raw: ratio(2 * (x.raw as i128) - (self.width.raw as i128), shorter as i128) },
            im: Fixed {
                raw: ratio(2 * (y.raw as i128) - (self.height.raw as i128), shorter as i128),
            },
        }
    }

    /// Applies the polynomial to `val`, as many times as the classifier
    /// iterates.
    pub fn multiply(&self, val: Complex) -> (z: Complex)
        ensures
            z == orbit(self@.coefficients, val, self@.iterations),
    {
        let mut val = val;
        let ghost start = val;
        let mut round: usize = 0;
        while round < self.iterations
            invariant
                round <= self.iterations,
                val == orbit(self@.coefficients, start, round as nat),
            decreases self.iterations - round,
        {
            let mut next_val = Complex { re: Fixed { raw: 0 }, im: Fixed { raw: 0 } };
            let mut power = Complex { re: Fixed { raw: SCALE }, im: Fixed { raw: 0 } };
            let mut i: usize = 0;
            while i < self.coefficients.len()
                invariant
                    i <= self.coefficients.len(),
                    next_val == polynomial(self@.coefficients, val, i as nat),
                    power == complex_power(val, i as nat),
                decreases self.coefficients.len() - i,
            {
                next_val = next_val.plus(power.scaled(self.coefficients[i]));
                power = power.times(val);
                i += 1;
            }
            val = next_val;
            round += 1;
        }
        val
    }

    /// The distance between two complex numbers.
    pub fn dist(a: Complex, b: Complex) -> (d: Fixed)
        ensures
            d.raw == clamp(
                metric(DistanceType::Euclidean2, a.re.raw - b.re.raw, a.im.raw - b.im.raw),
            ),
    {
        let dre: i128 = a.re.raw as i128 - b.re.raw as i128;
        let dim: i128 = a.im.raw as i128 - b.im.raw as i128;
        proof {
            lemma_square_of_abs(dre as int);
            lemma_square_of_abs(dim as int);
        }
        Fixed { raw: measure(DistanceType::Euclidean2, magnitude(dre), magnitude(dim)) }
    }

    /// The number of the attractor point nearest to `val`, the first of them
    /// where several are equally near.
    pub fn closest_point(&self, val: Complex) -> (index: usize)
        ensures
            is_nearest(self@.points, val, index as int),
            index == nearest(self@.points, val),
    {
        proof {
            use_type_invariant(self);
        }
        let mut closest_index: usize = 0;
        let mut i: usize = 1;
        while i < self.points.len()
            invariant
                closest_index < i <= self.points.len(),
                forall|j: int|
                    0 <= j < i ==> gap(val, self.points@[closest_index as int]) <= #[trigger] gap(
                        val,
                        self.points@[j],
                    ),
                forall|j: int|
                    0 <= j < closest_index ==> gap(val, self.points@[closest_index as int])
                        < #[trigger] gap(val, self.points@[j]),
            decreases self.points.len() - i,
        {
            if is_nearer(val, self.points[i], self.points[closest_index]) {
                closest_index = i;
            }
            i += 1;
        }
        proof {
            lemma_nearest_unique(self@.points, val, closest_index as int);
        }
        closest_index
    }
}

impl ValuePlane for ComplexEntry {
    open spec fn value_at(&self, x: Fixed, y: Fixed) -> Fixed {
        self@.value(x, y)
    }

    fn val(&self, x: Fixed, y: Fixed) -> (v: Fixed)
        ensures
            0 <= v.raw <= SCALE,
    {
        proof {
            use_type_invariant(self);
        }
        let start = self.complex_value_for_input(x, y);
        let end = self.multiply(start);
        let class = self.closest_point(end);
        proof {
            lemma_ratio_of_part(class as int, self.points.len() - 1);
        }
        Fixed { raw: ratio(class as i128, (self.points.len() - 1) as i128) }
    }
}

/// A complex number by its distance from the origin and its angle, in
/// radians, from the positive real axis.
#[derive(Clone, Copy, Debug, PartialEq, Eq, Structural)]
pub struct Polar {
    pub radius: Fixed,
    pub angle: Fixed,
}

/// A random choice of fractal classifiers over a `width` × `height` grid.
pub struct ComplexEntryDistribution {
    pub width: usize,
    pub height: usize,
}

/// A drawn classifier, its attractor points still in polar form.
pub struct ComplexEntryDraw {
    pub width: Fixed,
    pub height: Fixed,
    pub coefficients: Vec<Fixed>,
    pub iterations: usize,
    pub points: Vec<Polar>,
}

/// How many coefficients a drawn classifier has.
pub const DRAWN_COEFFICIENTS: usize = 3;

/// How many attractor points a drawn classifier has.
pub const DRAWN_POINTS: usize = 5;

/// How many times a drawn classifier iterates.
pub const DRAWN_ITERATIONS: usize = 4;

/// Raw bounds of a drawn coefficient: from 0.1 up to, not including, 3.
pub const COEFFICIENT_LOW: i64 = 100_000;

pub const COEFFICIENT_HIGH: i64 = 3_000_000;

/// Raw bounds of a drawn radius: from 0.1 up to, not including, 1.5.
pub const RADIUS_LOW: i64 = 100_000;

pub const RADIUS_HIGH: i64 = 1_500_000;

/// Raw bound of a drawn angle: the least count that is not below a full
/// turn, so that every angle from 0 up to a full turn can be drawn.
pub const ANGLE_HIGH: i64 = 6_283_186;

impl ComplexEntryDistribution {
    /// Draws a classifier: three coefficients, then five attractor points,
    /// each by its radius and its angle. The domain of the classifier is the
    /// grid, and it iterates four times.
    pub fn sample(&self, rng: &mut SmallRng) -> (draw: ComplexEntryDraw)
        ensures
            draw.width.raw == clamp(self.width * SCALE),
            draw.height.raw == clamp(self.height * SCALE),
            draw.iterations == DRAWN_ITERATIONS,
            draw.coefficients@.len() == DRAWN_COEFFICIENTS,
            forall|i: int|
                0 <= i < draw.coefficients@.len() ==> COEFFICIENT_LOW
                    <= #[trigger] draw.coefficients@[i].raw < COEFFICIENT_HIGH,
            draw.points@.len() == DRAWN_POINTS,
            forall|i: int|
                0 <= i < draw.points@.len() ==> RADIUS_LOW <= #[trigger] draw.points@[i].radius.raw
                    < RADIUS_HIGH,
            forall|i: int|
                0 <= i < draw.points@.len() ==> 0 <= #[trigger] draw.points@[i].angle.raw
                    < ANGLE_HIGH,
    {
        let mut coefficients: Vec<Fixed> = Vec::new();
        while coefficients.len() < DRAWN_COEFFICIENTS
            invariant
                coefficients@.len() <= DRAWN_COEFFICIENTS,
                forall|i: int|
                    0 <= i < coefficients@.len() ==> COEFFICIENT_LOW
                        <= #[trigger] coefficients@[i].raw < COEFFICIENT_HIGH,
            decreases DRAWN_COEFFICIENTS - coefficients@.len(),
        {
            coefficients.push(Fixed { raw: draw_range(rng, COEFFICIENT_LOW, COEFFICIENT_HIGH) });
        }
        let mut points: Vec<Polar> = Vec::new();
        while points.len() < DRAWN_POINTS
            invariant
                points@.len() <= DRAWN_POINTS,
                forall|i: int|
                    0 <= i < points@.len() ==> RADIUS_LOW <= #[trigger] points@[i].radius.raw
                        < RADIUS_HIGH,
                forall|i: int|
                    0 <= i < points@.len() ==> 0 <= #[trigger] points@[i].angle.raw < ANGLE_HIGH,
            decreases DRAWN_POINTS - points@.len(),
        {
            let radius = Fixed { raw: draw_range(rng, RADIUS_LOW, RADIUS_HIGH) };
            let angle = Fixed { raw: draw_range(rng, 0, ANGLE_HIGH) };
            points.push(Polar { radius, angle });
        }
        ComplexEntryDraw {
            width: Fixed::from_usize(self.width),
            height: Fixed::from_usize(self.height),
            coefficients,
            iterations: DRAWN_ITERATIONS,
            points,
        }
    }
}

} // verus!
