//! Least and greatest values of a function over a finite grid.

use vstd::prelude::*;

verus! {

/// `m` is the least value that `f` takes on the cells `(i, j)` with
/// `0 <= i < w` and `0 <= j < h`.
pub open spec fn is_least(f: spec_fn(int, int) -> int, w: int, h: int, m: int) -> bool {
    &&& exists|i: int, j: int| 0 <= i < w && 0 <= j < h && #[trigger] f(i, j) == m
    &&& forall|i: int, j: int| 0 <= i < w && 0 <= j < h ==> m <= #[trigger] f(i, j)
}

/// `m` is the greatest value that `f` takes on the cells `(i, j)` with
/// `0 <= i < w` and `0 <= j < h`.
pub open spec fn is_greatest(f: spec_fn(int, int) -> int, w: int, h: int, m: int) -> bool {
    &&& exists|i: int, j: int| 0 <= i < w && 0 <= j < h && #[trigger] f(i, j) == m
    &&& forall|i: int, j: int| 0 <= i < w && 0 <= j < h ==> m >= #[trigger] f(i, j)
}

/// The least value of `f` over a non-empty `w` × `h` grid.
pub open spec fn least(f: spec_fn(int, int) -> int, w: int, h: int) -> int {
    choose|m: int| is_least(f, w, h, m)
}

/// The greatest value of `f` over a non-empty `w` × `h` grid.
pub open spec fn greatest(f: spec_fn(int, int) -> int, w: int, h: int) -> int {
    choose|m: int| is_greatest(f, w, h, m)
}

/// A column where `f` is least among the first `n` cells of row `i`.
proof fn lemma_least_in_row(f: spec_fn(int, int) -> int, i: int, n: int) -> (at: int)
    requires
        n >= 1,
    ensures
        0 <= at < n,
        forall|j: int| 0 <= j < n ==> f(i, at) <= #[trigger] f(i, j),
    decreases n,
{
    if n == 1 {
        0
    } else {
        let prev = lemma_least_in_row(f, i, n - 1);
        if f(i, n - 1) < f(i, prev) {
            n - 1
        } else {
            prev
        }
    }
}

/// A cell where `f` is least among the first `m` rows of width `h`.
proof fn lemma_least_in_rows(f: spec_fn(int, int) -> int, m: int, h: int) -> (at: (int, int))
    requires
        m >= 1,
        h >= 1,
    ensures
        0 <= at.0 < m,
        0 <= at.1 < h,
        forall|i: int, j: int| 0 <= i < m && 0 <= j < h ==> f(at.0, at.1) <= #[trigger] f(i, j),
    decreases m,
{
    let col = lemma_least_in_row(f, m - 1, h);
    if m == 1 {
        (0, col)
    } else {
        let prev = lemma_least_in_rows(f, m - 1, h);
        if f(m - 1, col) < f(prev.0, prev.1) {
            (m - 1, col)
        } else {
            prev
        }
    }
}

/// Over a non-empty grid every function has a least value.
pub proof fn lemma_least_exists(f: spec_fn(int, int) -> int, w: int, h: int)
    requires
        w >= 1,
        h >= 1,
    ensures
        is_least(f, w, h, least(f, w, h)),
{
    let at = lemma_least_in_rows(f, w, h);
    assert(is_least(f, w, h, f(at.0, at.1)));
}

/// Over a non-empty grid every function has a greatest value.
pub proof fn lemma_greatest_exists(f: spec_fn(int, int) -> int, w: int, h: int)
    requires
        w >= 1,
        h >= 1,
    ensures
        is_greatest(f, w, h, greatest(f, w, h)),
{
    let g = |i: int, j: int| -f(i, j);
    let at = lemma_least_in_rows(g, w, h);
    assert forall|i: int, j: int| 0 <= i < w && 0 <= j < h implies f(at.0, at.1) >= #[trigger] f(
        i,
        j,
    ) by {
        assert(g(at.0, at.1) <= g(i, j));
    }
    assert(is_greatest(f, w, h, f(at.0, at.1)));
}

/// A grid has at most one least value.
pub proof fn lemma_least_unique(f: spec_fn(int, int) -> int, w: int, h: int, m: int)
    requires
        is_least(f, w, h, m),
    ensures
        least(f, w, h) == m,
{
    let n = least(f, w, h);
    assert(is_least(f, w, h, n));
}

/// A grid has at most one greatest value.
pub proof fn lemma_greatest_unique(f: spec_fn(int, int) -> int, w: int, h: int, m: int)
    requires
        is_greatest(f, w, h, m),
    ensures
        greatest(f, w, h) == m,
{
    let n = greatest(f, w, h);
    assert(is_greatest(f, w, h, n));
}

/// Two functions that agree on a grid have the same least and the same
/// greatest value there.
pub proof fn lemma_extrema_of_equal(
    f: spec_fn(int, int) -> int,
    g: spec_fn(int, int) -> int,
    w: int,
    h: int,
    lo: int,
    hi: int,
)
    requires
        forall|i: int, j: int| 0 <= i < w && 0 <= j < h ==> #[trigger] f(i, j) == g(i, j),
        is_least(f, w, h, lo),
        is_greatest(f, w, h, hi),
    ensures
        is_least(g, w, h, lo),
        is_greatest(g, w, h, hi),
{
    let (i0, j0) = choose|i: int, j: int| 0 <= i < w && 0 <= j < h && #[trigger] f(i, j) == lo;
    let (i1, j1) = choose|i: int, j: int| 0 <= i < w && 0 <= j < h && #[trigger] f(i, j) == hi;
    assert(g(i0, j0) == lo);
    assert(g(i1, j1) == hi);
    assert forall|i: int, j: int| 0 <= i < w && 0 <= j < h implies lo <= #[trigger] g(i, j)
        <= hi by {
        assert(f(i, j) == g(i, j));
    }
}

/// The least value of a function over a non-empty grid is not above the
/// greatest.
pub proof fn lemma_least_below_greatest(f: spec_fn(int, int) -> int, w: int, h: int)
    requires
        w >= 1,
        h >= 1,
    ensures
        least(f, w, h) <= greatest(f, w, h),
{
    lemma_least_exists(f, w, h);
    lemma_greatest_exists(f, w, h);
    assert(least(f, w, h) <= f(0, 0) <= greatest(f, w, h));
}

} // verus!
