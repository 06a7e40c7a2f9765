//! Distance metrics on the plane, and distance fields around a reference
//! point, on a bounded or a toroidal domain.
//!
//! A reversed field of this module measures how far a point is from the far
//! end of the domain: it gives the field's greatest distance less the
//! distance, which is never negative inside the domain.

use crate::fixed::{
    abs, clamp, floor_sqrt, isqrt, lemma_floor_sqrt_at_least, lemma_floor_sqrt_exists,
    lemma_square_monotonic, lemma_square_of_abs, magnitude, quot, quotient, ratio, ratio_raw,
    saturate, Fixed, SCALE,
};
use vstd::arithmetic::div_mod::lemma_div_is_ordered;
use vstd::prelude::*;

verus! {

/// How a pair of axis distances becomes one distance.
#[derive(Clone, Copy, Debug, PartialEq, Eq, Structural)]
pub enum DistanceType {
    /// The sum of the two.
    Manhattan,
    /// The sum of their squares. No root is taken.
    Euclidean,
    /// The root of the sum of their squares.
    Euclidean2,
    /// The greater of the two.
    Chebyshev,
    /// The lesser of the two.
    MinXY,
}

/// A point or a displacement in the plane.
#[derive(Clone, Copy, Debug, PartialEq, Eq, Structural)]
pub struct Vec2D {
    pub x: Fixed,
    pub y: Fixed,
}

impl Vec2D {
    /// The vector with the given components.
    pub fn new(x: Fixed, y: Fixed) -> (v: Vec2D)
        ensures
            v.x == x,
            v.y == y,
    {
        Vec2D { x, y }
    }
}

/// The lesser of two integers.
pub open spec fn min(a: int, b: int) -> int {
    if a <= b {
        a
    } else {
        b
    }
}

/// The greater of two integers.
pub open spec fn max(a: int, b: int) -> int {
    if a >= b {
        a
    } else {
        b
    }
}

/// The raw distance that `distance_type` assigns to the raw displacement
/// `(dx, dy)`, before it is narrowed to the representable range.
pub open spec fn metric(distance_type: DistanceType, dx: int, dy: int) -> int {
    match distance_type {
        DistanceType::Manhattan => abs(dx) + abs(dy),
        DistanceType::Euclidean => (dx * dx + dy * dy) / (SCALE as int),
        DistanceType::Euclidean2 => floor_sqrt(dx * dx + dy * dy),
        DistanceType::Chebyshev => max(abs(dx), abs(dy)),
        DistanceType::MinXY => min(abs(dx), abs(dy)),
    }
}

/// The distance that `distance_type` assigns to the axis distances `ax` and
/// `ay`, narrowed to the representable range.
pub(crate) fn measure(distance_type: DistanceType, ax: u128, ay: u128) -> (d: i64)
    requires
        ax <= 0x4_0000_0000_0000_0000,
        ay <= 0x4_0000_0000_0000_0000,
    ensures
        d == clamp(metric(distance_type, ax as int, ay as int)),
        d >= 0,
{
    let cap: u128 = 0x7fff_ffff_ffff_ffff;
    let a: u128 = if ax > cap {
        cap
    } else {
        ax
    };
    let b: u128 = if ay > cap {
        cap
    } else {
        ay
    };
    proof {
        lemma_square_monotonic(a as int, cap as int);
        lemma_square_monotonic(b as int, cap as int);
        lemma_square_monotonic(a as int, ax as int);
        lemma_square_monotonic(b as int, ay as int);
        assert(cap * cap == 0x3fff_ffff_ffff_ffff_0000_0000_0000_0001) by (nonlinear_arith)
            requires
                cap == 0x7fff_ffff_ffff_ffff,
        ;
    }
    match distance_type {
        DistanceType::Manhattan => saturate((a + b) as i128),
        DistanceType::Euclidean => {
            let q: u128 = (a * a + b * b) / 1_000_000;
            proof {
                let capped = (a * a + b * b) as int;
                let exact = ax * ax + ay * ay;
                if ax > cap || ay > cap {
                    lemma_div_is_ordered(cap * cap, capped, 1_000_000);
                    lemma_div_is_ordered(cap * cap, exact, 1_000_000);
                }
            }
            saturate(q as i128)
        },
        DistanceType::Euclidean2 => {
            let r: u64 = isqrt(a * a + b * b);
            proof {
                let exact = ax * ax + ay * ay;
                if ax > cap || ay > cap {
                    lemma_floor_sqrt_at_least((a * a + b * b) as int, cap as int);
                    lemma_floor_sqrt_at_least(exact, cap as int);
                } else {
                    lemma_floor_sqrt_exists(exact);
                }
            }
            saturate(r as i128)
        },
        DistanceType::Chebyshev => saturate(
            (if a >= b {
                a
            } else {
                b
            }) as i128,
        ),
        DistanceType::MinXY => saturate(
            (if a <= b {
                a
            } else {
                b
            }) as i128,
        ),
    }
}

/// The distance that `distance_type` assigns to the displacement `v`.
pub fn distance(distance_type: DistanceType, v: Vec2D) -> (d: Fixed)
    ensures
        d.raw == clamp(metric(distance_type, v.x.raw as int, v.y.raw as int)),
        d.raw >= 0,
{
    proof {
        lemma_square_of_abs(v.x.raw as int);
        lemma_square_of_abs(v.y.raw as int);
    }
    Fixed { raw: measure(distance_type, magnitude(v.x.raw as i128), magnitude(v.y.raw as i128)) }
}

/// The raw distance along one axis from the coordinate `p` to the
/// reference coordinate `c`. On a wrapping axis of length `size` the
/// reference point repeats every `size`, and the nearest of its images at
/// `c - size`, `c` and `c + size` counts.
pub open spec fn axis_distance(p: int, c: int, size: int, wrap: bool) -> int {
    if wrap {
        min(abs(p - c), min(abs(p - size - c), abs(p + size - c)))
    } else {
        abs(p - c)
    }
}

/// The raw distance of the point `v` from `center`, measured by
/// `distance_type` on a domain of extent `size` that wraps around or not.
pub open spec fn field_distance(
    distance_type: DistanceType,
    size: Vec2D,
    center: Vec2D,
    wrap: bool,
    v: Vec2D,
) -> int {
    clamp(
        metric(
            distance_type,
            axis_distance(v.x.raw as int, center.x.raw as int, size.x.raw as int, wrap),
            axis_distance(v.y.raw as int, center.y.raw as int, size.y.raw as int, wrap),
        ),
    )
}

/// The distance along one axis: see `axis_distance`.
fn axis_distance_of(p: i64, c: i64, size: i64, wrap: bool) -> (d: u128)
    ensures
        d == axis_distance(p as int, c as int, size as int, wrap),
        d <= 0x1_0000_0000_0000_0000,
{
    let direct = magnitude(p as i128 - c as i128);
    if wrap {
        let below = magnitude(p as i128 - size as i128 - c as i128);
        let above = magnitude(p as i128 + size as i128 - c as i128);
        let shifted = if below <= above {
            below
        } else {
            above
        };
        if direct <= shifted {
            direct
        } else {
            shifted
        }
    } else {
        direct
    }
}

/// The distance of the point `v` from `center`, measured by `distance_type`
/// on a domain of extent `size` that wraps around or not.
pub fn distance_from(
    distance_type: DistanceType,
    size: Vec2D,
    center: Vec2D,
    wrap: bool,
    v: Vec2D,
) -> (d: Fixed)
    ensures
        d.raw == field_distance(distance_type, size, center, wrap, v),
        d.raw >= 0,
{
    let ax = axis_distance_of(v.x.raw, center.x.raw, size.x.raw, wrap);
    let ay = axis_distance_of(v.y.raw, center.y.raw, size.y.raw, wrap);
    Fixed { raw: measure(distance_type, ax, ay) }
}

/// The raw distance of the farthest point of the domain from `center`: on a
/// wrapping domain half the extent away, else the far corner.
pub open spec fn reach(distance_type: DistanceType, size: Vec2D, center: Vec2D, wrap: bool) -> int {
    if wrap {
        clamp(metric(distance_type, quot(size.x.raw as int, 2), quot(size.y.raw as int, 2)))
    } else {
        clamp(
            metric(
                distance_type,
                max(center.x.raw as int, size.x.raw - center.x.raw),
                max(center.y.raw as int, size.y.raw - center.y.raw),
            ),
        )
    }
}

/// A metric does not shrink when an axis distance grows.
pub proof fn lemma_metric_monotonic(distance_type: DistanceType, ax: int, ay: int, bx: int, by: int)
    requires
        0 <= ax <= bx,
        0 <= ay <= by,
    ensures
        0 <= metric(distance_type, ax, ay) <= metric(distance_type, bx, by),
{
    lemma_square_monotonic(ax, bx);
    lemma_square_monotonic(ay, by);
    match distance_type {
        DistanceType::Euclidean => {
            lemma_div_is_ordered(0, ax * ax + ay * ay, SCALE as int);
            lemma_div_is_ordered(ax * ax + ay * ay, bx * bx + by * by, SCALE as int);
        },
        DistanceType::Euclidean2 => {
            lemma_floor_sqrt_exists(ax * ax + ay * ay);
            let r = floor_sqrt(ax * ax + ay * ay);
            lemma_floor_sqrt_at_least(bx * bx + by * by, r);
        },
        _ => {},
    }
}

/// Wrapping around never makes a point farther from the reference point.
pub proof fn lemma_wrap_is_no_farther(
    distance_type: DistanceType,
    size: Vec2D,
    center: Vec2D,
    v: Vec2D,
)
    ensures
        field_distance(distance_type, size, center, true, v) <= field_distance(
            distance_type,
            size,
            center,
            false,
            v,
        ),
{
    lemma_metric_monotonic(
        distance_type,
        axis_distance(v.x.raw as int, center.x.raw as int, size.x.raw as int, true),
        axis_distance(v.y.raw as int, center.y.raw as int, size.y.raw as int, true),
        axis_distance(v.x.raw as int, center.x.raw as int, size.x.raw as int, false),
        axis_distance(v.y.raw as int, center.y.raw as int, size.y.raw as int, false),
    );
}

/// Whether `v` lies in the domain of extent `size`, its edges included.
pub open spec fn in_domain(size: Vec2D, v: Vec2D) -> bool {
    0 <= v.x.raw <= size.x.raw && 0 <= v.y.raw <= size.y.raw
}

/// Inside the domain no point is farther from a reference point of the
/// domain than the domain's farthest point.
pub proof fn lemma_distance_within_reach(
    distance_type: DistanceType,
    size: Vec2D,
    center: Vec2D,
    wrap: bool,
    v: Vec2D,
)
    requires
        in_domain(size, center),
        in_domain(size, v),
    ensures
        0 <= field_distance(distance_type, size, center, wrap, v) <= reach(
            distance_type,
            size,
            center,
            wrap,
        ),
{
    let dx = axis_distance(v.x.raw as int, center.x.raw as int, size.x.raw as int, wrap);
    let dy = axis_distance(v.y.raw as int, center.y.raw as int, size.y.raw as int, wrap);
    if wrap {
        lemma_metric_monotonic(
            distance_type,
            dx,
            dy,
            quot(size.x.raw as int, 2),
            quot(size.y.raw as int, 2),
        );
    } else {
        lemma_metric_monotonic(
            distance_type,
            dx,
            dy,
            max(center.x.raw as int, size.x.raw - center.x.raw),
            max(center.y.raw as int, size.y.raw - center.y.raw),
        );
    }
}

/// A distance field: the distance of each point from a reference point.
pub struct DistanceEntry {
    distance_type: DistanceType,
    size: Vec2D,
    max_distance: Fixed,
    center: Vec2D,
    wrap: bool,
    reverse_distance: bool,
}

/// What a distance field is made of.
pub ghost struct DistanceEntryView {
    pub distance_type: DistanceType,
    pub size: Vec2D,
    pub center: Vec2D,
    pub wrap: bool,
    pub reverse_distance: bool,
}

impl DistanceEntryView {
    /// The raw greatest distance of the field.
    pub open spec fn max_distance(self) -> int {
        reach(self.distance_type, self.size, self.center, self.wrap)
    }

    /// The raw value of the field at `v`: the distance from the reference
    /// point, or, reversed, the greatest distance less that distance.
    pub open spec fn value(self, v: Vec2D) -> int {
        let dist = field_distance(self.distance_type, self.size, self.center, self.wrap, v);
        if self.reverse_distance {
            self.max_distance() - dist
        } else {
            dist
        }
    }
}

/// Inside its domain a field lies between zero and its greatest distance,
/// reversed or not.
pub proof fn lemma_value_in_range(entry: DistanceEntryView, v: Vec2D)
    requires
        in_domain(entry.size, entry.center),
        in_domain(entry.size, v),
    ensures
        0 <= entry.value(v) <= entry.max_distance(),
{
    lemma_distance_within_reach(entry.distance_type, entry.size, entry.center, entry.wrap, v);
}

impl View for DistanceEntry {
    type V = DistanceEntryView;

    closed spec fn view(&self) -> DistanceEntryView {
        DistanceEntryView {
            distance_type: self.distance_type,
            size: self.size,
            center: self.center,
            wrap: self.wrap,
            reverse_distance: self.reverse_distance,
        }
    }
}

/// The greater of two wide counts.
fn greater(a: i128, b: i128) -> (m: i128)
    ensures
        m == max(a as int, b as int),
{
    if a >= b {
        a
    } else {
        b
    }
}

impl DistanceEntry {
    /// The stored greatest distance is that of the field.
    #[verifier::type_invariant]
    spec fn inv(self) -> bool {
        &&& self.max_distance.raw >= 0
        &&& self.max_distance.raw == reach(self.distance_type, self.size, self.center, self.wrap)
    }

    /// A field around `center` on a domain of extent `size`.
    pub fn new(
        distance_type: DistanceType,
        size: Vec2D,
        center: Vec2D,
        wrap: bool,
        reverse_distance: bool,
    ) -> (entry: DistanceEntry)
        ensures
            entry@ == (DistanceEntryView { distance_type, size, center, wrap, reverse_distance }),
    {
        let far_x: i128 = if wrap {
            quotient(size.x.raw as i128, 2)
        } else {
            greater(center.x.raw as i128, size.x.raw as i128 - center.x.raw as i128)
        };
        let far_y: i128 = if wrap {
            quotient(size.y.raw as i128, 2)
        } else {
            greater(center.y.raw as i128, size.y.raw as i128 - center.y.raw as i128)
        };
        proof {
            lemma_square_of_abs(far_x as int);
            lemma_square_of_abs(far_y as int);
        }
        let max_distance = Fixed { raw: measure(distance_type, magnitude(far_x), magnitude(far_y)) };
        DistanceEntry { distance_type, size, max_distance, center, wrap, reverse_distance }
    }

    /// The greatest distance of the field.
    pub fn max_distance(&self) -> (d: Fixed)
        ensures
            d.raw == self@.max_distance(),
    {
        proof {
            use_type_invariant(self);
        }
        self.max_distance
    }

    /// The value of the field at `v`.
    pub fn distance(&self, v: Vec2D) -> (d: Fixed)
        ensures
            d.raw == self@.value(v),
    {
        proof {
            use_type_invariant(self);
        }
        let dist = distance_from(self.distance_type, self.size, self.center, self.wrap, v);
        if self.reverse_distance {
            Fixed { raw: self.max_distance.raw - dist.raw }
        } else {
            dist
        }
    }

    /// The value of the field at `v` as a fraction of the field's greatest
    /// distance, which must not be zero.
    pub fn scaled_distance(&self, v: Vec2D) -> (d: Fixed)
        requires
            self@.max_distance() > 0,
        ensures
            d.raw == ratio_raw(self@.value(v), self@.max_distance()),
    {
        proof {
            use_type_invariant(self);
        }
        let dist = self.distance(v);
        Fixed { raw: ratio(dist.raw as i128, self.max_distance.raw as i128) }
    }
}

} // verus!
