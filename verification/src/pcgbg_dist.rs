//! Distance fields as planes for the accumulation buffer, and their random
//! configuration.
//!
//! A reversed field of this module falls off from the reference point: it
//! gives the distance with its sign turned.

use crate::dist::{distance_from, field_distance};
pub use crate::dist::{DistanceType, Vec2D};
use crate::fixed::{clamp, Fixed, SCALE};
use crate::pcgbg_buf::ValuePlane;
use crate::rng::{draw_bool, draw_range};
use rand::rngs::SmallRng;
use vstd::prelude::*;

verus! {

/// A distance field: the distance of each point from a reference point.
pub struct DistanceEntry {
    distance_type: DistanceType,
    size: Vec2D,
    center: Vec2D,
    wrap: bool,
    reverse_distance: bool,
}

/// What a distance field is made of.
pub ghost struct DistanceEntryView {
    pub distance_type: DistanceType,
    pub size: Vec2D,
    pub center: Vec2D,
    pub wrap: bool,
    pub reverse_distance: bool,
}

impl DistanceEntryView {
    /// The raw value of the field at `v`: the distance from the reference
    /// point, negated where the field is reversed.
    pub open spec fn value(self, v: Vec2D) -> int {
        let dist = field_distance(self.distance_type, self.size, self.center, self.wrap, v);
        if self.reverse_distance {
            -dist
        } else {
            dist
        }
    }
}

impl View for DistanceEntry {
    type V = DistanceEntryView;

    closed spec fn view(&self) -> DistanceEntryView {
        DistanceEntryView {
            distance_type: self.distance_type,
            size: self.size,
            center: self.center,
            wrap: self.wrap,
            reverse_distance: self.reverse_distance,
        }
    }
}

impl DistanceEntry {
    /// A field around `center` on a domain of extent `size`.
    pub fn new(
        distance_type: DistanceType,
        size: Vec2D,
        center: Vec2D,
        wrap: bool,
        reverse_distance: bool,
    ) -> (entry: DistanceEntry)
        ensures
            entry@ == (DistanceEntryView { distance_type, size, center, wrap, reverse_distance }),
    {
        DistanceEntry { distance_type, size, center, wrap, reverse_distance }
    }

    /// The metric of the field.
    pub fn distance_type(&self) -> (distance_type: DistanceType)
        ensures
            distance_type == self@.distance_type,
    {
        self.distance_type
    }

    /// The extent of the field's domain.
    pub fn size(&self) -> (size: Vec2D)
        ensures
            size == self@.size,
    {
        self.size
    }

    /// The reference point of the field.
    pub fn center(&self) -> (center: Vec2D)
        ensures
            center == self@.center,
    {
        self.center
    }

    /// Whether the domain wraps around.
    pub fn wrap(&self) -> (wrap: bool)
        ensures
            wrap == self@.wrap,
    {
        self.wrap
    }

    /// Whether the field is reversed.
    pub fn reverse_distance(&self) -> (reverse_distance: bool)
        ensures
            reverse_distance == self@.reverse_distance,
    {
        self.reverse_distance
    }

    /// The value of the field at `v`.
    pub fn distance(&self, v: Vec2D) -> (d: Fixed)
        ensures
            d.raw == self@.value(v),
    {
        let dist = distance_from(self.distance_type, self.size, self.center, self.wrap, v);
        if self.reverse_distance {
            Fixed { raw: -dist.raw }
        } else {
            dist
        }
    }
}

impl ValuePlane for DistanceEntry {
    open spec fn value_at(&self, x: Fixed, y: Fixed) -> Fixed {
        Fixed { raw: self@.value(Vec2D { x, y }) as i64 }
    }

    fn val(&self, x: Fixed, y: Fixed) -> (v: Fixed) {
        self.distance(Vec2D::new(x, y))
    }
}

/// The metric with the given number, in the order of their declaration.
pub open spec fn distance_type_at(index: int) -> DistanceType {
    if index == 0 {
        DistanceType::Manhattan
    } else if index == 1 {
        DistanceType::Euclidean
    } else if index == 2 {
        DistanceType::Euclidean2
    } else if index == 3 {
        DistanceType::Chebyshev
    } else {
        DistanceType::MinXY
    }
}

/// The metric with the given number, which is one of the five from 0 to 4.
pub fn distance_type_from_index(index: i64) -> (distance_type: DistanceType)
    requires
        0 <= index < 5,
    ensures
        distance_type == distance_type_at(index as int),
{
    if index == 0 {
        DistanceType::Manhattan
    } else if index == 1 {
        DistanceType::Euclidean
    } else if index == 2 {
        DistanceType::Euclidean2
    } else if index == 3 {
        DistanceType::Chebyshev
    } else {
        DistanceType::MinXY
    }
}

/// A random choice of distance fields over a `width` × `height` grid.
pub struct DistanceEntryDistribution {
    pub width: usize,
    pub height: usize,
}

impl DistanceEntryDistribution {
    /// Draws a field: one of the five metrics, a reference point inside the
    /// grid, and whether the field wraps and whether it is reversed. The
    /// domain of the field is the grid.
    pub fn sample(&self, rng: &mut SmallRng) -> (entry: DistanceEntry)
        requires
            self.width > 0,
            self.height > 0,
        ensures
            entry@.size.x.raw == clamp(self.width * SCALE),
            entry@.size.y.raw == clamp(self.height * SCALE),
            0 <= entry@.center.x.raw < entry@.size.x.raw,
            0 <= entry@.center.y.raw < entry@.size.y.raw,
    {
        let distance_type = distance_type_from_index(draw_range(rng, 0, 5));
        let size = Vec2D::new(Fixed::from_usize(self.width), Fixed::from_usize(self.height));
        let center_x = draw_range(rng, 0, size.x.raw);
        let center_y = draw_range(rng, 0, size.y.raw);
        let wrap = draw_bool(rng);
        let reverse_distance = draw_bool(rng);
        DistanceEntry::new(
            distance_type,
            size,
            Vec2D::new(Fixed { raw: center_x }, Fixed { raw: center_y }),
            wrap,
            reverse_distance,
        )
    }
}

} // verus!
