//! The accumulation buffer: a grid of three channels into which scalar
//! fields are blended, and which is normalized channel by channel at the end.
//!
//! A field with no dynamic range over the grid has no scale and contributes
//! nothing when it is blended. A channel that is constant over the grid has
//! no scale either: normalizing it leaves no number in it, and the channel
//! holds none from then on.

use crate::extrema::{
    greatest, is_greatest, is_least, least, lemma_extrema_of_equal, lemma_greatest_exists,
    lemma_greatest_unique, lemma_least_below_greatest, lemma_least_exists, lemma_least_unique,
};
use crate::fixed::{
    clamp, lemma_product_of_share, lemma_ratio_by_one, lemma_ratio_of_part, product_raw, ratio,
    ratio_raw, sum_raw, Fixed, SCALE,
};
use crate::grid::{grid_cells, grid_get, grid_set, grid_zeros, Grid};
use vstd::prelude::*;

verus! {

/// The number of channels of a buffer.
pub const CHANNELS: usize = 3;

/// A scalar field: anything that gives a raw sample for a coordinate pair.
/// The samples need not lie in any range: whoever blends the field rescales
/// them.
pub trait ValuePlane {
    /// The sample at `(x, y)`, as a function: the same point always has the
    /// same sample. It serves contracts and is not meant to be called; a
    /// plane that is not verified gives it the body of `val`.
    spec fn value_at(&self, x: Fixed, y: Fixed) -> Fixed;

    /// Reads the sample at `(x, y)`.
    fn val(&self, x: Fixed, y: Fixed) -> (v: Fixed)
        ensures
            v == self.value_at(x, y),
    ;
}

/// Raw count of `val` rescaled so that `min` maps to zero and `max` to one:
/// the fraction `(val - min) / (max - min)`, for `min` other than `max`.
pub open spec fn normalized_raw(val: int, min: int, max: int) -> int
    recommends
        min != max,
{
    ratio_raw(val - min, max - min)
}

/// Rescales `val` so that `min` maps to zero and `max` to one. Where `min`
/// and `max` are equal the fraction has no denominator, and there is no
/// number to give.
pub fn normalized(val: Fixed, min: Fixed, max: Fixed) -> (r: Option<Fixed>)
    ensures
        r is Some <==> min.raw != max.raw,
        r is Some ==> r->Some_0.raw == normalized_raw(
            val.raw as int,
            min.raw as int,
            max.raw as int,
        ),
{
    if min.raw != max.raw {
        Some(
            Fixed {
                raw: ratio(val.raw as i128 - min.raw as i128, max.raw as i128 - min.raw as i128),
            },
        )
    } else {
        None
    }
}

/// The coordinate of grid index `i`.
pub open spec fn coord(i: int) -> Fixed {
    Fixed { raw: clamp(i * SCALE) as i64 }
}

/// The raw sample of `plane` at grid cell `(i, j)`.
pub open spec fn sample<P: ValuePlane>(plane: &P, i: int, j: int) -> int {
    plane.value_at(coord(i), coord(j)).raw as int
}

/// The raw samples of `plane`, as a function of the grid cell.
pub open spec fn samples<P: ValuePlane>(plane: &P) -> spec_fn(int, int) -> int {
    |i: int, j: int| sample(plane, i, j)
}

/// The least sample of `plane` over a non-empty `w` × `h` grid.
pub open spec fn plane_min<P: ValuePlane>(plane: &P, w: int, h: int) -> int {
    least(samples(plane), w, h)
}

/// The greatest sample of `plane` over a non-empty `w` × `h` grid.
pub open spec fn plane_max<P: ValuePlane>(plane: &P, w: int, h: int) -> int {
    greatest(samples(plane), w, h)
}

/// What a blend adds to a channel with weight `weight` at a cell where the
/// field's sample is `v`, for a field whose samples range over `[lo, hi]`:
/// the rescaled sample times the weight, and nothing where the field has no
/// range.
pub open spec fn contribution(v: int, lo: int, hi: int, weight: int) -> int {
    if lo < hi {
        product_raw(normalized_raw(v, lo, hi), weight)
    } else {
        0
    }
}

/// A share of a weight that is not negative lies between zero and the
/// weight, whatever the sample, as long as it lies in the range it is
/// rescaled by.
pub proof fn lemma_contribution_bounded(v: int, lo: int, hi: int, weight: int)
    requires
        lo <= v <= hi,
        0 <= weight <= i64::MAX,
    ensures
        0 <= contribution(v, lo, hi, weight) <= weight,
{
    if lo < hi {
        lemma_ratio_of_part(v - lo, hi - lo);
        lemma_product_of_share(normalized_raw(v, lo, hi), weight);
    }
}

/// Whatever the plane, what a blend adds to a cell of a channel whose weight
/// is not negative lies between zero and the weight.
pub proof fn lemma_blend_share_bounded<P: ValuePlane>(
    plane: &P,
    w: int,
    h: int,
    i: int,
    j: int,
    weight: int,
)
    requires
        0 <= i < w,
        0 <= j < h,
        0 <= weight <= i64::MAX,
    ensures
        0 <= contribution(sample(plane, i, j), plane_min(plane, w, h), plane_max(plane, w, h), weight)
            <= weight,
{
    lemma_least_exists(samples(plane), w, h);
    lemma_greatest_exists(samples(plane), w, h);
    assert(plane_min(plane, w, h) <= samples(plane)(i, j) <= plane_max(plane, w, h));
    lemma_contribution_bounded(
        sample(plane, i, j),
        plane_min(plane, w, h),
        plane_max(plane, w, h),
        weight,
    );
}

/// Layer `c` of a grid's cells, as a function of the cell.
pub open spec fn layer(cells: Map<(int, int, int), i64>, c: int) -> spec_fn(int, int) -> int {
    |i: int, j: int| cells[(i, j, c)] as int
}

/// Samples `plane` once at every cell of a `width` × `height` grid. Returns
/// the samples, in layer 0 of a grid of that shape.
fn sample_plane<P: ValuePlane>(plane: &P, width: usize, height: usize) -> (scratch: Grid)
    requires
        fits(width as int, height as int),
    ensures
        forall|a: int, b: int, c: int| #[trigger]
            grid_cells(scratch).contains_key((a, b, c)) <==> (0 <= a < width && 0 <= b < height
                && c == 0),
        forall|a: int, b: int|
            0 <= a < width && 0 <= b < height ==> #[trigger] grid_cells(scratch)[(a, b, 0)]
                == sample(plane, a, b),
{
    assert(side(width as int) * side(height as int) * 1 * 8 <= side(width as int) * side(
        height as int,
    ) * 24) by (nonlinear_arith)
        requires
            side(width as int) >= 1,
            side(height as int) >= 1,
    ;
    let mut scratch = grid_zeros(width, height, 1);
    let mut i: usize = 0;
    while i < width
        invariant
            i <= width,
            forall|a: int, b: int, c: int| #[trigger]
                grid_cells(scratch).contains_key((a, b, c)) <==> (0 <= a < width && 0 <= b
                    < height && c == 0),
            forall|a: int, b: int|
                0 <= a < i && 0 <= b < height ==> #[trigger] grid_cells(scratch)[(a, b, 0)]
                    == sample(plane, a, b),
        decreases width - i,
    {
        let mut j: usize = 0;
        while j < height
            invariant
                i < width,
                j <= height,
                forall|a: int, b: int, c: int| #[trigger]
                    grid_cells(scratch).contains_key((a, b, c)) <==> (0 <= a < width && 0 <= b
                        < height && c == 0),
                forall|a: int, b: int|
                    (0 <= a < i && 0 <= b < height) || (a == i && 0 <= b < j)
                        ==> #[trigger] grid_cells(scratch)[(a, b, 0)] == sample(plane, a, b),
            decreases height - j,
        {
            let v = plane.val(Fixed::from_usize(i), Fixed::from_usize(j));
            assert(grid_cells(scratch).contains_key((i as int, j as int, 0)));
            grid_set(&mut scratch, i, j, 0, v.raw);
            j += 1;
        }
        i += 1;
    }
    scratch
}

/// The least and the greatest count in layer `c` of the first `width`
/// columns and `height` rows of a grid.
fn layer_range(grid: &Grid, width: usize, height: usize, c: usize) -> (r: (i64, i64))
    requires
        forall|i: int, j: int|
            0 <= i < width && 0 <= j < height ==> #[trigger] grid_cells(*grid).contains_key(
                (i, j, c as int),
            ),
    ensures
        width > 0 && height > 0 ==> is_least(
            layer(grid_cells(*grid), c as int),
            width as int,
            height as int,
            r.0 as int,
        ),
        width > 0 && height > 0 ==> is_greatest(
            layer(grid_cells(*grid), c as int),
            width as int,
            height as int,
            r.1 as int,
        ),
{
    let mut lo: i64 = i64::MAX;
    let mut hi: i64 = i64::MIN;
    let ghost f = layer(grid_cells(*grid), c as int);
    let ghost mut lo_at: (int, int) = (0, 0);
    let ghost mut hi_at: (int, int) = (0, 0);
    let mut i: usize = 0;
    while i < width
        invariant
            i <= width,
            f == layer(grid_cells(*grid), c as int),
            forall|a: int, b: int|
                0 <= a < width && 0 <= b < height ==> #[trigger] grid_cells(*grid).contains_key(
                    (a, b, c as int),
                ),
            forall|a: int, b: int| 0 <= a < i && 0 <= b < height ==> lo <= #[trigger] f(a, b) <= hi,
            i == 0 || height == 0 ==> lo == i64::MAX && hi == i64::MIN,
            i > 0 && height > 0 ==> 0 <= lo_at.0 < i && 0 <= lo_at.1 < height && f(
                lo_at.0,
                lo_at.1,
            ) == lo,
            i > 0 && height > 0 ==> 0 <= hi_at.0 < i && 0 <= hi_at.1 < height && f(
                hi_at.0,
                hi_at.1,
            ) == hi,
        decreases width - i,
    {
        let mut j: usize = 0;
        while j < height
            invariant
                i < width,
                j <= height,
                f == layer(grid_cells(*grid), c as int),
                forall|a: int, b: int|
                    0 <= a < width && 0 <= b < height ==> #[trigger] grid_cells(
                        *grid,
                    ).contains_key((a, b, c as int)),
                forall|a: int, b: int|
                    (0 <= a < i && 0 <= b < height) || (a == i && 0 <= b < j) ==> lo
                        <= #[trigger] f(a, b) <= hi,
                (i == 0 || height == 0) && j == 0 ==> lo == i64::MAX && hi == i64::MIN,
                (i > 0 && height > 0) || j > 0 ==> 0 <= lo_at.0 <= i && 0 <= lo_at.1 < height && (
                lo_at.0 < i || lo_at.1 < j) && f(lo_at.0, lo_at.1) == lo,
                (i > 0 && height > 0) || j > 0 ==> 0 <= hi_at.0 <= i && 0 <= hi_at.1 < height && (
                hi_at.0 < i || hi_at.1 < j) && f(hi_at.0, hi_at.1) == hi,
            decreases height - j,
        {
            assert(grid_cells(*grid).contains_key((i as int, j as int, c as int)));
            let v = grid_get(grid, i, j, c);
            assert(v == f(i as int, j as int));
            if v <= lo {
                lo = v;
                proof {
                    lo_at = (i as int, j as int);
                }
            }
            if v >= hi {
                hi = v;
                proof {
                    hi_at = (i as int, j as int);
                }
            }
            j += 1;
        }
        i += 1;
    }
    (lo, hi)
}

/// The byte for a raw count: the count times 255, rounded to the nearest
/// whole number, and held between 0 and 255.
pub open spec fn channel_byte(raw: int) -> int {
    if raw <= 0 {
        0
    } else if raw >= SCALE {
        255
    } else {
        (raw * 255 + SCALE / 2) / (SCALE as int)
    }
}

/// The byte for the value `val` of a channel.
pub fn scale_to_u8(val: Fixed) -> (byte: u8)
    ensures
        byte == channel_byte(val.raw as int),
{
    if val.raw <= 0 {
        0
    } else if val.raw >= SCALE {
        255
    } else {
        ((val.raw * 255 + 500_000) / 1_000_000) as u8
    }
}

/// Where the byte of channel `c` of pixel `(i, j)` stands in an image that
/// is `width` pixels wide.
pub open spec fn pixel_index(width: int, i: int, j: int, c: int) -> int {
    (j * width + i) * 3 + c
}

/// Bytes stand in the order of their rows, then of their columns, then of
/// their channels.
proof fn lemma_pixel_index_order(width: int, a: int, b: int, k: int, i: int, j: int, c: int)
    by (nonlinear_arith)
    requires
        0 <= a < width,
        0 <= i <= width,
        0 <= b,
        0 <= k < 3,
        0 <= c <= 3,
        b < j || (b == j && (a < i || (a == i && k < c))),
    ensures
        0 <= pixel_index(width, a, b, k) < pixel_index(width, i, j, c),
{
}

/// A width × height grid of three channels.
pub struct Buf {
    pub width: usize,
    pub height: usize,
    vals: Grid,
    nan: Vec<bool>,
}

/// What a buffer holds: its extents, the raw count of every cell, keyed by
/// column, row and channel, and for each channel whether it holds no
/// numbers. A channel without numbers is what normalizing a constant
/// channel leaves; its counts stand for nothing.
pub ghost struct BufView {
    pub width: int,
    pub height: int,
    pub cells: Map<(int, int, int), i64>,
    pub nan: Seq<bool>,
}

impl BufView {
    /// Whether `(i, j, c)` names a cell.
    pub open spec fn holds(self, i: int, j: int, c: int) -> bool {
        0 <= i < self.width && 0 <= j < self.height && 0 <= c < CHANNELS
    }

    /// The raw count in channel `c` of cell `(i, j)`. It stands for a number
    /// only where the channel holds numbers.
    pub open spec fn cell(self, i: int, j: int, c: int) -> int {
        self.cells[(i, j, c)] as int
    }

    /// The value in channel `c` of cell `(i, j)`: a number, or none where
    /// the channel holds no numbers.
    pub open spec fn value(self, i: int, j: int, c: int) -> Option<Fixed> {
        if self.nan[c] {
            None
        } else {
            Some(Fixed { raw: self.cells[(i, j, c)] })
        }
    }

    /// Channel `c`, as a function of the grid cell.
    pub open spec fn channel(self, c: int) -> spec_fn(int, int) -> int {
        |i: int, j: int| self.cell(i, j, c)
    }

    /// The least count in channel `c` of a non-empty buffer.
    pub open spec fn channel_min(self, c: int) -> int {
        least(self.channel(c), self.width, self.height)
    }

    /// The greatest count in channel `c` of a non-empty buffer.
    pub open spec fn channel_max(self, c: int) -> int {
        greatest(self.channel(c), self.width, self.height)
    }

    /// Whether channel `c` has cells and is the same in all of them.
    pub open spec fn is_flat(self, c: int) -> bool {
        self.width > 0 && self.height > 0 && self.channel_min(c) == self.channel_max(c)
    }

    /// `self` is what normalizing `before` gives. A channel holds no numbers
    /// if it held none before or was constant over the grid. In every other
    /// channel each count is rescaled by the least and the greatest count of
    /// that channel.
    pub open spec fn is_normalized_from(self, before: BufView) -> bool {
        &&& self.width == before.width
        &&& self.height == before.height
        &&& self.nan.len() == before.nan.len()
        &&& forall|c: int|
            0 <= c < CHANNELS ==> #[trigger] self.nan[c] == (before.nan[c] || before.is_flat(c))
        &&& forall|i: int, j: int, c: int|
            before.holds(i, j, c) && !self.nan[c] ==> #[trigger] self.cell(i, j, c)
                == normalized_raw(
                before.cell(i, j, c),
                before.channel_min(c),
                before.channel_max(c),
            )
    }
}

/// A channel that has the same count in every cell of a non-empty grid is
/// flat: normalizing it leaves no number in it.
pub proof fn lemma_constant_channel_is_flat(buf: BufView, c: int, v: int)
    requires
        buf.width >= 1,
        buf.height >= 1,
        0 <= c < CHANNELS,
        forall|i: int, j: int| buf.holds(i, j, c) ==> #[trigger] buf.cell(i, j, c) == v,
    ensures
        buf.is_flat(c),
        buf.channel_min(c) == v,
        buf.channel_max(c) == v,
{
    let f = buf.channel(c);
    assert(buf.holds(0, 0, c));
    assert(f(0, 0) == v);
    assert forall|i: int, j: int| 0 <= i < buf.width && 0 <= j < buf.height implies (
    #[trigger] f(i, j)) == v by {
        assert(buf.holds(i, j, c));
    }
    lemma_least_unique(f, buf.width, buf.height, v);
    lemma_greatest_unique(f, buf.width, buf.height, v);
}

/// After normalization a channel that holds numbers spans the unit range:
/// its least count is zero and its greatest is one.
pub proof fn lemma_normalized_spans_unit(before: BufView, after: BufView, c: int)
    requires
        after.is_normalized_from(before),
        before.width >= 1,
        before.height >= 1,
        0 <= c < CHANNELS,
        !after.nan[c],
    ensures
        before.channel_min(c) < before.channel_max(c),
        is_least(after.channel(c), after.width, after.height, 0),
        is_greatest(after.channel(c), after.width, after.height, SCALE as int),
{
    let w = before.width;
    let h = before.height;
    let f = before.channel(c);
    let g = after.channel(c);
    let lo = before.channel_min(c);
    let hi = before.channel_max(c);
    lemma_least_exists(f, w, h);
    lemma_greatest_exists(f, w, h);
    lemma_least_below_greatest(f, w, h);
    assert(!before.is_flat(c));
    let (i0, j0) = choose|i: int, j: int| 0 <= i < w && 0 <= j < h && #[trigger] f(i, j) == lo;
    let (i1, j1) = choose|i: int, j: int| 0 <= i < w && 0 <= j < h && #[trigger] f(i, j) == hi;
    lemma_ratio_of_part(0, hi - lo);
    lemma_ratio_of_part(hi - lo, hi - lo);
    assert(before.holds(i0, j0, c) && before.holds(i1, j1, c));
    assert(g(i0, j0) == 0);
    assert(g(i1, j1) == SCALE);
    assert forall|i: int, j: int| 0 <= i < w && 0 <= j < h implies 0 <= #[trigger] g(i, j)
        <= SCALE by {
        assert(before.holds(i, j, c));
        assert(lo <= f(i, j) <= hi);
        lemma_ratio_of_part(f(i, j) - lo, hi - lo);
    }
}

/// After normalization every number in the buffer lies between zero and
/// one.
pub proof fn lemma_normalized_in_unit_range(before: BufView, after: BufView)
    requires
        after.is_normalized_from(before),
    ensures
        forall|i: int, j: int, c: int|
            before.holds(i, j, c) && !after.nan[c] ==> 0 <= #[trigger] after.cell(i, j, c)
                <= SCALE,
{
    assert forall|i: int, j: int, c: int| before.holds(i, j, c) && !after.nan[c] implies 0
        <= #[trigger] after.cell(i, j, c) <= SCALE by {
        let g = after.channel(c);
        lemma_normalized_spans_unit(before, after, c);
        assert(0 <= g(i, j) <= SCALE);
    }
}

/// Normalizing a second time changes nothing: the channels without numbers
/// are the same, and so is every number.
pub proof fn lemma_normalize_idempotent(before: BufView, once: BufView, twice: BufView)
    requires
        once.is_normalized_from(before),
        twice.is_normalized_from(once),
    ensures
        forall|c: int| 0 <= c < CHANNELS ==> #[trigger] twice.nan[c] == once.nan[c],
        forall|i: int, j: int, c: int|
            before.holds(i, j, c) ==> #[trigger] twice.value(i, j, c) == once.value(i, j, c),
{
    assert forall|c: int| 0 <= c < CHANNELS implies #[trigger] twice.nan[c] == once.nan[c] by {
        if !once.nan[c] && once.width >= 1 && once.height >= 1 {
            lemma_normalized_spans_unit(before, once, c);
            lemma_least_unique(once.channel(c), once.width, once.height, 0);
            lemma_greatest_unique(once.channel(c), once.width, once.height, SCALE as int);
        }
    }
    assert forall|i: int, j: int, c: int| before.holds(i, j, c) implies #[trigger] twice.value(
        i,
        j,
        c,
    ) == once.value(i, j, c) by {
        assert(twice.nan[c] == once.nan[c]);
        if !once.nan[c] {
            let w = before.width;
            let h = before.height;
            assert(once.holds(i, j, c));
            lemma_normalized_spans_unit(before, once, c);
            lemma_least_unique(once.channel(c), w, h, 0);
            lemma_greatest_unique(once.channel(c), w, h, SCALE as int);
            lemma_ratio_by_one(once.cell(i, j, c));
            assert(twice.cell(i, j, c) == once.cell(i, j, c));
        }
    }
}

impl View for Buf {
    type V = BufView;

    closed spec fn view(&self) -> BufView {
        BufView {
            width: self.width as int,
            height: self.height as int,
            cells: grid_cells(self.vals),
            nan: self.nan@,
        }
    }
}

/// The side length `n` as a factor of a grid's size: an empty side counts
/// as one.
pub open spec fn side(n: int) -> int {
    if n == 0 {
        1
    } else {
        n
    }
}

/// Whether a `width` × `height` buffer can be allocated: its cells, three
/// to a pixel and eight bytes each, must not take more bytes than the
/// machine can address. An empty side does not make a large one small.
pub open spec fn fits(width: int, height: int) -> bool {
    side(width) * side(height) * 24 <= isize::MAX
}

/// The byte of channel `c` of pixel `(i, j)`: that of the channel's value
/// there, and zero where the channel holds no numbers.
pub open spec fn pixel_byte(buf: BufView, i: int, j: int, c: int) -> int {
    match buf.value(i, j, c) {
        Some(v) => channel_byte(v.raw as int),
        None => 0,
    }
}

impl Buf {
    /// The buffer can be allocated, its storage has the shape that its
    /// extents declare, and each channel is marked as holding numbers or not.
    pub open spec fn wf(&self) -> bool {
        &&& 0 <= self@.width <= usize::MAX
        &&& 0 <= self@.height <= usize::MAX
        &&& fits(self@.width, self@.height)
        &&& self@.nan.len() == CHANNELS
        &&& forall|i: int, j: int, c: int| #[trigger]
            self@.cells.contains_key((i, j, c)) <==> self@.holds(i, j, c)
    }

    /// A zero-filled buffer: every channel holds numbers, and all of them
    /// are zero.
    pub fn new(width: usize, height: usize) -> (buf: Buf)
        requires
            fits(width as int, height as int),
        ensures
            buf.wf(),
            buf@.width == width,
            buf@.height == height,
            forall|c: int| 0 <= c < CHANNELS ==> !#[trigger] buf@.nan[c],
            forall|i: int, j: int, c: int| buf@.holds(i, j, c) ==> #[trigger] buf@.cell(i, j, c) == 0,
    {
        assert(side(width as int) * side(height as int) * 3 * 8 == side(width as int) * side(
            height as int,
        ) * 24) by (nonlinear_arith);
        let mut nan: Vec<bool> = Vec::new();
        nan.push(false);
        nan.push(false);
        nan.push(false);
        Buf { width, height, vals: grid_zeros(width, height, CHANNELS), nan }
    }

    /// A zero-filled buffer, or nothing where a buffer of these extents
    /// cannot be allocated.
    pub fn try_new(width: usize, height: usize) -> (made: Option<Buf>)
        ensures
            made is Some <==> fits(width as int, height as int),
            made is Some ==> {
                let buf = made->Some_0;
                &&& buf.wf()
                &&& buf@.width == width
                &&& buf@.height == height
                &&& forall|c: int| 0 <= c < CHANNELS ==> !#[trigger] buf@.nan[c]
                &&& forall|i: int, j: int, c: int|
                    buf@.holds(i, j, c) ==> #[trigger] buf@.cell(i, j, c) == 0
            },
    {
        let w: usize = if width == 0 {
            1
        } else {
            width
        };
        let h: usize = if height == 0 {
            1
        } else {
            height
        };
        match w.checked_mul(h) {
            Some(area) => match area.checked_mul(24) {
                Some(bytes) => if bytes <= isize::MAX as usize {
                    Some(Buf::new(width, height))
                } else {
                    None
                },
                None => None,
            },
            None => {
                proof {
                    assert(side(width as int) * side(height as int) * 24 >= side(width as int)
                        * side(height as int)) by (nonlinear_arith)
                        requires
                            side(width as int) >= 1,
                            side(height as int) >= 1,
                    ;
                }
                None
            },
        }
    }

    /// The number of columns.
    pub fn width(&self) -> (w: usize)
        ensures
            w == self@.width,
    {
        self.width
    }

    /// The number of rows.
    pub fn height(&self) -> (h: usize)
        ensures
            h == self@.height,
    {
        self.height
    }

    /// The value in channel `z` of cell `(x, y)`, or nothing where the
    /// channel holds no numbers.
    pub fn get(&self, x: usize, y: usize, z: usize) -> (v: Option<Fixed>)
        requires
            self.wf(),
            self@.holds(x as int, y as int, z as int),
        ensures
            v == self@.value(x as int, y as int, z as int),
    {
        if self.nan[z] {
            None
        } else {
            assert(self@.cells.contains_key((x as int, y as int, z as int)));
            Some(Fixed { raw: grid_get(&self.vals, x, y, z) })
        }
    }

    /// Adds the share `n` of each channel's weight to cell `(i, j)`.
    fn blend_cell(&mut self, i: usize, j: usize, n: Fixed, color_scales: &[Fixed])
        requires
            old(self).wf(),
            i < old(self).width,
            j < old(self).height,
            color_scales@.len() == CHANNELS,
        ensures
            final(self).wf(),
            final(self)@.width == old(self)@.width,
            final(self)@.height == old(self)@.height,
            final(self)@.nan == old(self)@.nan,
            forall|c: int|
                0 <= c < CHANNELS ==> #[trigger] final(self)@.cell(i as int, j as int, c)
                    == sum_raw(
                    old(self)@.cell(i as int, j as int, c),
                    product_raw(n.raw as int, color_scales@[c].raw as int),
                ),
            forall|a: int, b: int, c: int|
                old(self)@.holds(a, b, c) && !(a == i && b == j) ==> #[trigger] final(self)@.cell(
                    a,
                    b,
                    c,
                ) == old(self)@.cell(a, b, c),
    {
        let mut c: usize = 0;
        while c < CHANNELS
            invariant
                c <= CHANNELS,
                self.wf(),
                self.width == old(self).width,
                self.height == old(self).height,
                self@.nan == old(self)@.nan,
                i < self.width,
                j < self.height,
                color_scales@.len() == CHANNELS,
                forall|k: int|
                    0 <= k < c ==> #[trigger] self@.cell(i as int, j as int, k) == sum_raw(
                        old(self)@.cell(i as int, j as int, k),
                        product_raw(n.raw as int, color_scales@[k].raw as int),
                    ),
                forall|k: int|
                    c <= k < CHANNELS ==> #[trigger] self@.cell(i as int, j as int, k) == old(
                        self,
                    )@.cell(i as int, j as int, k),
                forall|a: int, b: int, k: int|
                    old(self)@.holds(a, b, k) && !(a == i && b == j) ==> #[trigger] self@.cell(
                        a,
                        b,
                        k,
                    ) == old(self)@.cell(a, b, k),
            decreases CHANNELS - c,
        {
            assert(self@.cells.contains_key((i as int, j as int, c as int)));
            assert(self@.cell(i as int, j as int, c as int) == old(self)@.cell(
                i as int,
                j as int,
                c as int,
            ));
            let ghost earlier = self@;
            let before = Fixed { raw: grid_get(&self.vals, i, j, c) };
            let after = before.plus(n.times(color_scales[c]));
            grid_set(&mut self.vals, i, j, c, after.raw);
            assert forall|a: int, b: int, k: int| !(a == i && b == j && k == c) implies (
            #[trigger] self@.cell(a, b, k)) == earlier.cell(a, b, k) by {}
            c += 1;
        }
    }

    /// Blends `plane` into the buffer. The plane is sampled once at every
    /// cell; each sample is rescaled by the least and the greatest sample
    /// seen, so that it lies between zero and one; and each channel of the
    /// cell grows by that share of the channel's weight. A plane whose samples
    /// are all equal has no scale and leaves the buffer as it is. A channel
    /// that holds no numbers holds none afterwards.
    pub fn add<P: ValuePlane>(&mut self, plane: &P, color_scales: &[Fixed])
        requires
            old(self).wf(),
            color_scales@.len() == CHANNELS,
        ensures
            final(self).wf(),
            final(self)@.width == old(self)@.width,
            final(self)@.height == old(self)@.height,
            final(self)@.nan == old(self)@.nan,
            forall|i: int, j: int, c: int|
                old(self)@.holds(i, j, c) ==> #[trigger] final(self)@.cell(i, j, c) == sum_raw(
                    old(self)@.cell(i, j, c),
                    contribution(
                        sample(plane, i, j),
                        plane_min(plane, old(self)@.width, old(self)@.height),
                        plane_max(plane, old(self)@.width, old(self)@.height),
                        color_scales@[c].raw as int,
                    ),
                ),
            forall|i: int, j: int, c: int|
                old(self)@.holds(i, j, c) && color_scales@[c].raw >= 0 ==> old(self)@.cell(i, j, c)
                    <= #[trigger] final(self)@.cell(i, j, c) <= old(self)@.cell(i, j, c)
                    + color_scales@[c].raw,
    {
        let scratch = sample_plane(plane, self.width, self.height);
        let (lo, hi) = layer_range(&scratch, self.width, self.height, 0);
        proof {
            if self.width > 0 && self.height > 0 {
                lemma_extrema_of_equal(
                    layer(grid_cells(scratch), 0),
                    samples(plane),
                    self.width as int,
                    self.height as int,
                    lo as int,
                    hi as int,
                );
                lemma_least_unique(samples(plane), self.width as int, self.height as int, lo as int);
                lemma_greatest_unique(
                    samples(plane),
                    self.width as int,
                    self.height as int,
                    hi as int,
                );
            }
        }
        if lo < hi {
            let mut i: usize = 0;
            while i < self.width
                invariant
                    i <= self.width,
                    lo < hi,
                    self.wf(),
                    self.width == old(self).width,
                    self.height == old(self).height,
                    self@.nan == old(self)@.nan,
                    color_scales@.len() == CHANNELS,
                    forall|a: int, b: int, c: int| #[trigger]
                        grid_cells(scratch).contains_key((a, b, c)) <==> (0 <= a < self.width && 0
                            <= b < self.height && c == 0),
                    forall|a: int, b: int|
                        0 <= a < self.width && 0 <= b < self.height ==> #[trigger] grid_cells(
                            scratch,
                        )[(a, b, 0)] == sample(plane, a, b),
                    forall|a: int, b: int, c: int|
                        old(self)@.holds(a, b, c) && a < i ==> #[trigger] self@.cell(a, b, c)
                            == sum_raw(
                            old(self)@.cell(a, b, c),
                            contribution(
                                sample(plane, a, b),
                                lo as int,
                                hi as int,
                                color_scales@[c].raw as int,
                            ),
                        ),
                    forall|a: int, b: int, c: int|
                        old(self)@.holds(a, b, c) && a >= i ==> #[trigger] self@.cell(a, b, c)
                            == old(self)@.cell(a, b, c),
                decreases self.width - i,
            {
                let mut j: usize = 0;
                while j < self.height
                    invariant
                        i < self.width,
                        j <= self.height,
                        lo < hi,
                        self.wf(),
                        self.width == old(self).width,
                        self.height == old(self).height,
                        self@.nan == old(self)@.nan,
                        color_scales@.len() == CHANNELS,
                        forall|a: int, b: int, c: int| #[trigger]
                            grid_cells(scratch).contains_key((a, b, c)) <==> (0 <= a < self.width
                                && 0 <= b < self.height && c == 0),
                        forall|a: int, b: int|
                            0 <= a < self.width && 0 <= b < self.height ==> #[trigger] grid_cells(
                                scratch,
                            )[(a, b, 0)] == sample(plane, a, b),
                        forall|a: int, b: int, c: int|
                            old(self)@.holds(a, b, c) && (a < i || (a == i && b < j))
                                ==> #[trigger] self@.cell(a, b, c) == sum_raw(
                                old(self)@.cell(a, b, c),
                                contribution(
                                    sample(plane, a, b),
                                    lo as int,
                                    hi as int,
                                    color_scales@[c].raw as int,
                                ),
                            ),
                        forall|a: int, b: int, c: int|
                            old(self)@.holds(a, b, c) && !(a < i || (a == i && b < j))
                                ==> #[trigger] self@.cell(a, b, c) == old(self)@.cell(a, b, c),
                    decreases self.height - j,
                {
                    assert(grid_cells(scratch).contains_key((i as int, j as int, 0)));
                    let v = grid_get(&scratch, i, j, 0);
                    let n = Fixed { raw: ratio(v as i128 - lo as i128, hi as i128 - lo as i128) };
                    self.blend_cell(i, j, n, color_scales);
                    j += 1;
                }
                i += 1;
            }
        }
        proof {
            assert forall|i: int, j: int, c: int|
                old(self)@.holds(i, j, c) && color_scales@[c].raw >= 0 implies old(self)@.cell(
                i,
                j,
                c,
            ) <= #[trigger] self@.cell(i, j, c) <= old(self)@.cell(i, j, c)
                + color_scales@[c].raw by {
                assert(lo <= samples(plane)(i, j) <= hi);
                lemma_contribution_bounded(
                    sample(plane, i, j),
                    lo as int,
                    hi as int,
                    color_scales@[c].raw as int,
                );
            }
        }
    }

    /// Rescales every count of channel `c` by the range from `lo` to `hi`.
    fn rescale_channel(&mut self, c: usize, lo: i64, hi: i64)
        requires
            old(self).wf(),
            c < CHANNELS,
            lo < hi,
        ensures
            final(self).wf(),
            final(self)@.width == old(self)@.width,
            final(self)@.height == old(self)@.height,
            final(self)@.nan == old(self)@.nan,
            forall|a: int, b: int, k: int|
                old(self)@.holds(a, b, k) ==> #[trigger] final(self)@.cell(a, b, k) == (if k == c {
                    normalized_raw(old(self)@.cell(a, b, k), lo as int, hi as int)
                } else {
                    old(self)@.cell(a, b, k)
                }),
    {
        let mut i: usize = 0;
        while i < self.width
            invariant
                i <= self.width,
                self.wf(),
                c < CHANNELS,
                lo < hi,
                self.width == old(self).width,
                self.height == old(self).height,
                self@.nan == old(self)@.nan,
                forall|a: int, b: int, k: int|
                    old(self)@.holds(a, b, k) ==> #[trigger] self@.cell(a, b, k) == (if k == c
                        && a < i {
                        normalized_raw(old(self)@.cell(a, b, k), lo as int, hi as int)
                    } else {
                        old(self)@.cell(a, b, k)
                    }),
            decreases self.width - i,
        {
            let mut j: usize = 0;
            while j < self.height
                invariant
                    i < self.width,
                    j <= self.height,
                    self.wf(),
                    c < CHANNELS,
                    lo < hi,
                    self.width == old(self).width,
                    self.height == old(self).height,
                    self@.nan == old(self)@.nan,
                    forall|a: int, b: int, k: int|
                        old(self)@.holds(a, b, k) ==> #[trigger] self@.cell(a, b, k) == (if k == c
                            && (a < i || (a == i && b < j)) {
                            normalized_raw(old(self)@.cell(a, b, k), lo as int, hi as int)
                        } else {
                            old(self)@.cell(a, b, k)
                        }),
                decreases self.height - j,
            {
                assert(self@.cells.contains_key((i as int, j as int, c as int)));
                assert(self@.cell(i as int, j as int, c as int) == old(self)@.cell(
                    i as int,
                    j as int,
                    c as int,
                ));
                let ghost earlier = self@;
                let v = grid_get(&self.vals, i, j, c);
                let n = ratio(v as i128 - lo as i128, hi as i128 - lo as i128);
                grid_set(&mut self.vals, i, j, c, n);
                assert forall|a: int, b: int, k: int| !(a == i && b == j && k == c) implies (
                #[trigger] self@.cell(a, b, k)) == earlier.cell(a, b, k) by {}
                j += 1;
            }
            i += 1;
        }
    }

    /// Normalizes the buffer: in each channel by itself, every count is
    /// rescaled by the least and the greatest count of that channel, so that
    /// the channel spans zero to one. A channel that is constant over the
    /// grid has no scale: the quotient that would rescale it has no
    /// denominator, and from here on the channel holds no numbers.
    pub fn normalize(&mut self)
        requires
            old(self).wf(),
        ensures
            final(self).wf(),
            final(self)@.is_normalized_from(old(self)@),
            forall|i: int, j: int, c: int|
                old(self)@.holds(i, j, c) && !final(self)@.nan[c] ==> 0 <= #[trigger] final(self)@.cell(i, j, c) <= SCALE,
            forall|c: int|
                0 <= c < CHANNELS && old(self)@.width > 0 && old(self)@.height > 0 && !final(self)@.nan[c] ==> is_least(
                    #[trigger] final(self)@.channel(c),
                    final(self)@.width,
                    final(self)@.height,
                    0,
                ) && is_greatest(
                    final(self)@.channel(c),
                    final(self)@.width,
                    final(self)@.height,
                    SCALE as int,
                ),
    {
        let mut c: usize = 0;
        while c < CHANNELS
            invariant
                c <= CHANNELS,
                self.wf(),
                old(self).wf(),
                self.width == old(self).width,
                self.height == old(self).height,
                forall|k: int|
                    0 <= k < CHANNELS ==> #[trigger] self@.nan[k] == (if k < c {
                        old(self)@.nan[k] || old(self)@.is_flat(k)
                    } else {
                        old(self)@.nan[k]
                    }),
                forall|a: int, b: int, k: int|
                    old(self)@.holds(a, b, k) && !(k < c && self@.nan[k]) ==> #[trigger] self@.cell(
                        a,
                        b,
                        k,
                    ) == (if k < c {
                        normalized_raw(
                            old(self)@.cell(a, b, k),
                            old(self)@.channel_min(k),
                            old(self)@.channel_max(k),
                        )
                    } else {
                        old(self)@.cell(a, b, k)
                    }),
            decreases CHANNELS - c,
        {
            if !self.nan[c] && self.width > 0 && self.height > 0 {
                assert forall|i: int, j: int| 0 <= i < self.width && 0 <= j < self.height implies (
                #[trigger] grid_cells(self.vals).contains_key((i, j, c as int))) by {
                    assert(self@.holds(i, j, c as int));
                    assert(self@.cells.contains_key((i, j, c as int)));
                }
                let (lo, hi) = layer_range(&self.vals, self.width, self.height, c);
                proof {
                    let w = self@.width;
                    let h = self@.height;
                    let g = old(self)@.channel(c as int);
                    assert forall|i: int, j: int| 0 <= i < w && 0 <= j < h implies (
                    #[trigger] layer(grid_cells(self.vals), c as int)(i, j)) == g(i, j) by {
                        assert(old(self)@.holds(i, j, c as int));
                        assert(self@.cell(i, j, c as int) == old(self)@.cell(i, j, c as int));
                    }
                    lemma_extrema_of_equal(
                        layer(grid_cells(self.vals), c as int),
                        g,
                        w,
                        h,
                        lo as int,
                        hi as int,
                    );
                    lemma_least_unique(g, w, h, lo as int);
                    lemma_greatest_unique(g, w, h, hi as int);
                    lemma_least_below_greatest(g, w, h);
                }
                if lo < hi {
                    self.rescale_channel(c, lo, hi);
                } else {
                    let ghost earlier = self@;
                    self.nan.set(c, true);
                    assert(self@.cells == earlier.cells);
                    assert(self@.nan == earlier.nan.update(c as int, true));
                    assert forall|a: int, b: int, k: int| (#[trigger] self@.cell(a, b, k))
                        == earlier.cell(a, b, k) by {}
                }
            }
            c += 1;
        }
        proof {
            assert(self@.is_normalized_from(old(self)@));
            lemma_normalized_in_unit_range(old(self)@, self@);
            assert forall|k: int|
                0 <= k < CHANNELS && old(self)@.width > 0 && old(self)@.height > 0
                    && !self@.nan[k] implies is_least(
                #[trigger] self@.channel(k),
                self@.width,
                self@.height,
                0,
            ) && is_greatest(self@.channel(k), self@.width, self@.height, SCALE as int) by {
                lemma_normalized_spans_unit(old(self)@, self@, k);
            }
        }
    }

    /// The buffer as an image of three bytes per pixel, row by row from the
    /// top, each row from the left: the byte of channel `c` of pixel `(i, j)`
    /// stands at `pixel_index(width, i, j, c)`. A channel that holds no
    /// numbers gives the byte zero.
    pub fn to_rgb(&self) -> (bytes: Vec<u8>)
        requires
            self.wf(),
        ensures
            bytes@.len() == self@.width * self@.height * CHANNELS,
            forall|i: int, j: int, c: int|
                self@.holds(i, j, c) ==> bytes@[#[trigger] pixel_index(self@.width, i, j, c)]
                    == pixel_byte(self@, i, j, c),
    {
        let mut bytes: Vec<u8> = Vec::new();
        let ghost w = self.width as int;
        let mut j: usize = 0;
        while j < self.height
            invariant
                j <= self.height,
                self.wf(),
                w == self.width,
                bytes@.len() == pixel_index(w, 0, j as int, 0),
                forall|a: int, b: int, k: int|
                    self@.holds(a, b, k) && b < j ==> bytes@[#[trigger] pixel_index(w, a, b, k)]
                        == pixel_byte(self@, a, b, k),
            decreases self.height - j,
        {
            let mut i: usize = 0;
            while i < self.width
                invariant
                    j < self.height,
                    i <= self.width,
                    self.wf(),
                    w == self.width,
                    bytes@.len() == pixel_index(w, i as int, j as int, 0),
                    forall|a: int, b: int, k: int|
                        self@.holds(a, b, k) && (b < j || (b == j && a < i))
                            ==> bytes@[#[trigger] pixel_index(w, a, b, k)] == pixel_byte(
                            self@,
                            a,
                            b,
                            k,
                        ),
                decreases self.width - i,
            {
                let mut c: usize = 0;
                while c < CHANNELS
                    invariant
                        j < self.height,
                        i < self.width,
                        c <= CHANNELS,
                        self.wf(),
                        w == self.width,
                        bytes@.len() == pixel_index(w, i as int, j as int, c as int),
                        forall|a: int, b: int, k: int|
                            self@.holds(a, b, k) && (b < j || (b == j && (a < i || (a == i && k
                                < c)))) ==> bytes@[#[trigger] pixel_index(w, a, b, k)]
                                == pixel_byte(self@, a, b, k),
                    decreases CHANNELS - c,
                {
                    let ghost earlier = bytes@;
                    let byte: u8 = match self.get(i, j, c) {
                        Some(v) => scale_to_u8(v),
                        None => 0,
                    };
                    bytes.push(byte);
                    proof {
                        assert forall|a: int, b: int, k: int|
                            self@.holds(a, b, k) && (b < j || (b == j && (a < i || (a == i && k
                                < c)))) implies bytes@[#[trigger] pixel_index(w, a, b, k)]
                            == pixel_byte(self@, a, b, k) by {
                            lemma_pixel_index_order(w, a, b, k, i as int, j as int, c as int);
                            assert(bytes@[pixel_index(w, a, b, k)] == earlier[pixel_index(
                                w,
                                a,
                                b,
                                k,
                            )]);
                        }
                    }
                    c += 1;
                }
                i += 1;
            }
            proof {
                assert(pixel_index(w, w, j as int, 0) == pixel_index(w, 0, j + 1, 0))
                    by (nonlinear_arith);
            }
            j += 1;
        }
        proof {
            assert(pixel_index(w, 0, self.height as int, 0) == self.width * self.height * 3)
                by (nonlinear_arith)
                requires
                    w == self.width,
            ;
        }
        bytes
    }
}

} // verus!
