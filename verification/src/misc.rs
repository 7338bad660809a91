//! Splitting the interior columns of a grid into contiguous ranges, one per worker.

use std::ops::Range;
use vstd::prelude::*;

verus! {

/// The last interior column plus one: the exclusive end of the whole
/// partition. A grid without columns has no interior, and the end is 0.
pub open spec fn interior_end(size: int) -> int {
    if size >= 1 {
        size - 1
    } else {
        0
    }
}

/// First column of range `i` when `size` columns are split into `n_part` ranges.
/// Column 0 is border, so the first range starts at 1.
pub open spec fn range_start(n_part: int, size: int, i: int) -> int {
    if i == 0 {
        1
    } else {
        (size / n_part) * i
    }
}

/// Exclusive end of range `i`. The last range runs to the end of the interior
/// and so takes the remainder of the division.
pub open spec fn range_end(n_part: int, size: int, i: int) -> int {
    if i == n_part - 1 {
        interior_end(size)
    } else {
        (size / n_part) * (i + 1)
    }
}

/// The range that holds column `c` when `n_part <= size`: ranges are
/// `size / n_part` wide, and the last one takes what is left over.
pub open spec fn column_owner(n_part: int, size: int, c: int) -> int {
    let q = c / (size / n_part);
    if q < n_part - 1 {
        q
    } else {
        n_part - 1
    }
}

/// Column `c` lies in the half-open range `r`.
pub open spec fn range_holds(r: Range<usize>, c: int) -> bool {
    r.start <= c < r.end
}

/// Column `c` is not a border column of a grid with `size` columns.
pub open spec fn is_interior(c: int, size: int) -> bool {
    1 <= c < size - 1
}

/// The ranges cover the interior columns `[1, size - 1)` exactly once: no
/// range reaches a border column, every interior column lies in some range,
/// and no column lies in two of them.
pub open spec fn covers_interior_once(ranges: Seq<Range<usize>>, size: int) -> bool {
    &&& forall|i: int, c: int|
        0 <= i < ranges.len() && #[trigger] range_holds(ranges[i], c) ==> is_interior(c, size)
    &&& forall|c: int| #[trigger]
        is_interior(c, size) ==> exists|i: int|
            0 <= i < ranges.len() && #[trigger] range_holds(ranges[i], c)
    &&& forall|i: int, j: int, c: int|
        0 <= i < ranges.len() && 0 <= j < ranges.len() && #[trigger] range_holds(ranges[i], c)
            && #[trigger] range_holds(ranges[j], c) ==> i == j
}

/// Each range ends where the next one starts.
pub open spec fn ranges_abut(ranges: Seq<Range<usize>>) -> bool {
    forall|i: int| 0 <= i < ranges.len() - 1 ==> (#[trigger] ranges[i]).end == ranges[i + 1].start
}

/// With no more ranges than columns, range `i` holds column `c` exactly when
/// `c` is an interior column and `i` is its owner. So the ranges cover the
/// interior `[1, size - 1)` once, without gaps and without overlaps.
pub proof fn lemma_range_holds_owner(n_part: int, size: int, i: int, c: int)
    requires
        1 <= n_part <= size,
        0 <= i < n_part,
    ensures
        (range_start(n_part, size, i) <= c < range_end(n_part, size, i)) <==> (is_interior(c, size)
            && i == column_owner(n_part, size, c)),
        is_interior(c, size) ==> 0 <= column_owner(n_part, size, c) < n_part,
        size >= 2 ==> 1 <= range_start(n_part, size, i) <= range_end(n_part, size, i) <= size - 1,
{
    let w = size / n_part;
    let q = c / w;
    assert(w >= 1 && w * n_part <= size) by (nonlinear_arith)
        requires
            w == size / n_part,
            1 <= n_part <= size,
    ;
    assert(w * q <= c < w * q + w) by (nonlinear_arith)
        requires
            w >= 1,
            q == c / w,
    ;
    assert(c >= 1 ==> q >= 0) by (nonlinear_arith)
        requires
            w >= 1,
            c < w * q + w,
    ;
    assert(w * (i + 1) == w * i + w && w * n_part == w * (n_part - 1) + w && w * 0 == 0)
        by (nonlinear_arith);
    assert(w * i <= w * (n_part - 1) && (i >= 1 ==> w * i >= w)) by (nonlinear_arith)
        requires
            w >= 1,
            0 <= i <= n_part - 1,
    ;
    assert((w * i <= c) <==> (i <= q)) by (nonlinear_arith)
        requires
            w >= 1,
            w * q <= c < w * q + w,
    ;
    assert((c < w * i + w) <==> (q <= i)) by (nonlinear_arith)
        requires
            w >= 1,
            w * q <= c < w * q + w,
    ;
    assert(n_part >= 2 ==> w * (n_part - 1) >= w) by (nonlinear_arith)
        requires
            w >= 1,
    ;
    assert(i < n_part - 1 ==> w * i + w <= w * (n_part - 1)) by (nonlinear_arith)
        requires
            w >= 1,
    ;
    if n_part == 1 {
        assert(range_start(n_part, size, i) == 1);
        assert(range_end(n_part, size, i) == size - 1);
    } else if i == 0 {
        assert(range_start(n_part, size, i) == 1);
        assert(range_end(n_part, size, i) == w);
        assert(w <= size - 1);
    } else if i == n_part - 1 {
        assert(range_start(n_part, size, i) == w * i);
        assert(range_end(n_part, size, i) == size - 1);
    } else {
        assert(range_start(n_part, size, i) == w * i);
        assert(range_end(n_part, size, i) == w * i + w);
    }
}

/// Splits the columns of a grid with `size` columns into `n_part` contiguous
/// ranges of `size / n_part` columns; the first one skips the border column 0
/// and the last one ends before the border column `size - 1`, so it takes the
/// remainder. With no more ranges than columns they cover the interior
/// columns exactly once. With more ranges than columns the same formula is
/// followed, but its ranges are no partition of the interior any more.
pub fn gen_vec_range(n_part: usize, size: usize) -> (res: Vec<Range<usize>>)
    requires
        n_part > 0,
    ensures
        res.len() == n_part,
        forall|i: int|
            0 <= i < n_part ==> (#[trigger] res[i]).start == range_start(
                n_part as int,
                size as int,
                i,
            ) && res[i].end == range_end(n_part as int, size as int, i),
        n_part <= size ==> covers_interior_once(res@, size as int) && ranges_abut(res@),
{
    let width: usize = size / n_part;
    let last: usize = if size == 0 {
        0
    } else {
        size - 1
    };
    let mut res: Vec<Range<usize>> = Vec::new();
    let mut i: usize = 0;
    while i < n_part
        invariant
            n_part > 0,
            i <= n_part,
            width == size / n_part,
            last == interior_end(size as int),
            res.len() == i,
            forall|k: int|
                0 <= k < i ==> (#[trigger] res[k]).start == range_start(
                    n_part as int,
                    size as int,
                    k,
                ) && res[k].end == range_end(n_part as int, size as int, k),
        decreases n_part - i,
    {
        assert(width * (i + 1) <= size) by (nonlinear_arith)
            requires
                width == size / n_part,
                i < n_part,
                n_part > 0,
        ;
        assert(width * i <= width * (i + 1)) by (nonlinear_arith);
        let start: usize = if i == 0 {
            1
        } else {
            width * i
        };
        let end: usize = if i == n_part - 1 {
            last
        } else {
            width * (i + 1)
        };
        res.push(start..end);
        i += 1;
    }
    proof {
        if n_part <= size {
            assert forall|k: int, c: int| 0 <= k < n_part implies (#[trigger] range_holds(res[k], c)
                <==> is_interior(c, size as int) && k == column_owner(
                n_part as int,
                size as int,
                c,
            )) by {
                lemma_range_holds_owner(n_part as int, size as int, k, c);
            }
            assert forall|c: int| #[trigger] is_interior(c, size as int) implies exists|k: int|
                0 <= k < res@.len() && #[trigger] range_holds(res@[k], c) by {
                let k = column_owner(n_part as int, size as int, c);
                lemma_range_holds_owner(n_part as int, size as int, 0, c);
                assert(range_holds(res@[k], c));
            }
        }
    }
    res
}

} // verus!
