//! Broad phase of the collision solver: which ordered pairs of particles a
//! worker has to look at, found by scanning its columns of the bucket grid
//! and the eight cells around each cell.

use crate::misc::{
    covers_interior_once, gen_vec_range, lemma_range_holds_owner, range_end, range_start,
    ranges_abut,
};
use crate::spacial_partition::{
    axis_cells, cell_index, cell_of, in_domain, lemma_bucket_upto_members,
    lemma_cell_index_interior, Grid, GridView, Point,
};
use std::ops::Range;
use vstd::prelude::*;

verus! {

/// An ordered pair of particle ids.
pub type Pair = (usize, usize);

/// The sequences `f(lo), f(lo + 1), .., f(hi - 1)` joined in that order.
pub open spec fn concat_range(lo: int, hi: int, f: spec_fn(int) -> Seq<Pair>) -> Seq<Pair>
    decreases hi - lo,
{
    if hi <= lo {
        Seq::empty()
    } else {
        concat_range(lo, hi - 1, f) + f(hi - 1)
    }
}

/// Joining up to `mid` and from `mid` on gives the whole.
pub proof fn lemma_concat_split(lo: int, mid: int, hi: int, f: spec_fn(int) -> Seq<Pair>)
    requires
        lo <= mid <= hi,
    ensures
        concat_range(lo, mid, f) + concat_range(mid, hi, f) == concat_range(lo, hi, f),
    decreases hi - mid,
{
    if hi == mid {
        assert(concat_range(lo, mid, f) + Seq::<Pair>::empty() =~= concat_range(lo, mid, f));
    } else {
        lemma_concat_split(lo, mid, hi - 1, f);
        assert(concat_range(lo, mid, f) + (concat_range(mid, hi - 1, f) + f(hi - 1)) =~= (
        concat_range(lo, mid, f) + concat_range(mid, hi - 1, f)) + f(hi - 1));
    }
}

/// A pair is in the joined sequence exactly when one of the parts holds it.
pub proof fn lemma_concat_contains(lo: int, hi: int, f: spec_fn(int) -> Seq<Pair>, x: Pair)
    ensures
        concat_range(lo, hi, f).contains(x) <==> exists|k: int|
            lo <= k < hi && #[trigger] f(k).contains(x),
    decreases hi - lo,
{
    if hi > lo {
        lemma_concat_contains(lo, hi - 1, f, x);
        let head = concat_range(lo, hi - 1, f);
        let tail = f(hi - 1);
        let all = concat_range(lo, hi, f);
        if all.contains(x) {
            let i = choose|i: int| 0 <= i < all.len() && all[i] == x;
            if i < head.len() {
                assert(head[i] == x);
                assert(head.contains(x));
            } else {
                assert(tail[i - head.len()] == x);
                assert(tail.contains(x));
            }
        }
        if head.contains(x) {
            let i = choose|i: int| 0 <= i < head.len() && head[i] == x;
            assert(all[i] == x);
        }
        if tail.contains(x) {
            let i = choose|i: int| 0 <= i < tail.len() && tail[i] == x;
            assert(all[head.len() + i] == x);
        }
    }
}

/// The pair `(a, b)` unless both are the same particle.
pub open spec fn emit(a: usize, b: usize) -> Seq<Pair> {
    if a != b {
        seq![(a, b)]
    } else {
        Seq::empty()
    }
}

/// For index `j`, the pair of `a` with `ys[j]`.
pub open spec fn emit_from(a: usize, ys: Seq<usize>) -> spec_fn(int) -> Seq<Pair> {
    |j: int| emit(a, ys[j])
}

/// The pairs of `a` with every other id in `ys`, in the order of `ys`.
pub open spec fn pairs_from(a: usize, ys: Seq<usize>) -> Seq<Pair> {
    concat_range(0, ys.len() as int, emit_from(a, ys))
}

/// For index `i`, the pairs of `xs[i]` with the ids in `ys`.
pub open spec fn cross_from(xs: Seq<usize>, ys: Seq<usize>) -> spec_fn(int) -> Seq<Pair> {
    |i: int| pairs_from(xs[i], ys)
}

/// Every ordered pair of an id in `xs` with a different id in `ys`, by `xs` first.
pub open spec fn cross_pairs(xs: Seq<usize>, ys: Seq<usize>) -> Seq<Pair> {
    concat_range(0, xs.len() as int, cross_from(xs, ys))
}

/// Appends to `out` the pairs of the ids in `xs` with the ids in `ys`.
fn push_cross_pairs(xs: &Vec<usize>, ys: &Vec<usize>, out: &mut Vec<Pair>)
    ensures
        final(out)@ == old(out)@ + cross_pairs(xs@, ys@),
{
    let mut i: usize = 0;
    assert(out@ =~= old(out)@ + concat_range(0, 0, cross_from(xs@, ys@)));
    while i < xs.len()
        invariant
            i <= xs.len(),
            out@ == old(out)@ + concat_range(0, i as int, cross_from(xs@, ys@)),
        decreases xs.len() - i,
    {
        let a = xs[i];
        let ghost row_base = out@;
        let mut j: usize = 0;
        assert(out@ =~= row_base + concat_range(0, 0, emit_from(a, ys@)));
        while j < ys.len()
            invariant
                j <= ys.len(),
                out@ == row_base + concat_range(0, j as int, emit_from(a, ys@)),
            decreases ys.len() - j,
        {
            let b = ys[j];
            let ghost before = out@;
            if a != b {
                out.push((a, b));
            }
            assert(out@ =~= before + emit_from(a, ys@)(j as int));
            assert(out@ =~= row_base + concat_range(0, j + 1, emit_from(a, ys@)));
            j += 1;
        }
        assert(out@ =~= old(out)@ + concat_range(0, i + 1, cross_from(xs@, ys@)));
        i += 1;
    }
}

/// For `k` in `0..9`, the pairs of cell `(c, r)` with its `k`-th neighbour: the
/// cell itself and the eight around it, by column offset first.
pub open spec fn around(grid: GridView, c: int, r: int) -> spec_fn(int) -> Seq<Pair> {
    |k: int| cross_pairs(grid.cell(c, r), grid.cell(c + k / 3 - 1, r + k % 3 - 1))
}

/// The pairs of the ids in cell `(c, r)` with the ids in the nine cells at and
/// around it.
pub open spec fn neighbourhood_pairs(grid: GridView, c: int, r: int) -> Seq<Pair> {
    concat_range(0, 9, around(grid, c, r))
}

/// For row `r`, the pairs found from cell `(c, r)`.
pub open spec fn down_column(grid: GridView, c: int) -> spec_fn(int) -> Seq<Pair> {
    |r: int| neighbourhood_pairs(grid, c, r)
}

/// The pairs found from the interior cells of column `c`, top row first.
pub open spec fn column_pairs(grid: GridView, c: int) -> Seq<Pair> {
    concat_range(1, grid.num_rows() - 1, down_column(grid, c))
}

/// For column `c`, the pairs found from it.
pub open spec fn across(grid: GridView) -> spec_fn(int) -> Seq<Pair> {
    |c: int| column_pairs(grid, c)
}

/// The pairs found from columns `lo, .., hi - 1`, in that order: what one
/// worker emits for its range of columns.
pub open spec fn scan_pairs(grid: GridView, lo: int, hi: int) -> Seq<Pair> {
    concat_range(lo, hi, across(grid))
}

/// Columns `range.start, .., range.end - 1` are interior columns of the grid,
/// or the range is empty.
pub open spec fn range_in_interior(grid: GridView, range: Range<usize>) -> bool {
    range.start < range.end ==> 1 <= range.start && range.end <= grid.num_columns() - 1
}

/// Appends to `out` the pairs found from the interior cell `(c, r)`.
fn push_neighbourhood_pairs(grid: &Grid, c: usize, r: usize, out: &mut Vec<Pair>)
    requires
        grid.wf(),
        1 <= c < grid@.num_columns() - 1,
        1 <= r < grid@.num_rows() - 1,
    ensures
        final(out)@ == old(out)@ + neighbourhood_pairs(grid@, c as int, r as int),
{
    let here = grid.get_cell(c, r);
    let cols = grid.get_num_columns();
    let rows = grid.get_num_rows();
    let mut k: usize = 0;
    assert(out@ =~= old(out)@ + concat_range(0, 0, around(grid@, c as int, r as int)));
    while k < 9
        invariant
            k <= 9,
            grid.wf(),
            cols == grid@.num_columns(),
            rows == grid@.num_rows(),
            1 <= c < grid@.num_columns() - 1,
            1 <= r < grid@.num_rows() - 1,
            here@ == grid@.cell(c as int, r as int),
            out@ == old(out)@ + concat_range(0, k as int, around(grid@, c as int, r as int)),
        decreases 9 - k,
    {
        let there = grid.get_cell(c - 1 + k / 3, r - 1 + k % 3);
        let ghost before = out@;
        push_cross_pairs(here, there, out);
        assert(out@ =~= before + around(grid@, c as int, r as int)(k as int));
        assert(out@ =~= old(out)@ + concat_range(0, k + 1, around(grid@, c as int, r as int)));
        k += 1;
    }
}

/// Appends to `out` the pairs found from the interior column `c`.
fn push_column_pairs(grid: &Grid, c: usize, out: &mut Vec<Pair>)
    requires
        grid.wf(),
        1 <= c < grid@.num_columns() - 1,
    ensures
        final(out)@ == old(out)@ + column_pairs(grid@, c as int),
{
    let rows = grid.get_num_rows();
    let mut r: usize = 1;
    assert(out@ =~= old(out)@ + concat_range(1, 1, down_column(grid@, c as int)));
    while r < rows - 1
        invariant
            1 <= r <= rows - 1,
            rows == grid@.num_rows(),
            grid.wf(),
            1 <= c < grid@.num_columns() - 1,
            out@ == old(out)@ + concat_range(1, r as int, down_column(grid@, c as int)),
        decreases rows - r,
    {
        let ghost before = out@;
        push_neighbourhood_pairs(grid, c, r, out);
        assert(out@ =~= before + down_column(grid@, c as int)(r as int));
        assert(out@ =~= old(out)@ + concat_range(1, r + 1, down_column(grid@, c as int)));
        r += 1;
    }
}

/// The broad-phase scan of one worker: every ordered pair `(a, b)` of
/// different ids with `a` in an interior cell of a column of `columns` and `b`
/// in that cell or one of the eight around it. The pairs come by column, then
/// by row, then by neighbour, then in bucket order.
pub fn candidate_pairs(grid: &Grid, columns: &Range<usize>) -> (pairs: Vec<Pair>)
    requires
        grid.wf(),
        range_in_interior(grid@, *columns),
    ensures
        pairs@ == scan_pairs(grid@, columns.start as int, columns.end as int),
{
    let mut out: Vec<Pair> = Vec::new();
    let end = columns.end;
    let mut c: usize = columns.start;
    assert(out@ =~= concat_range(c as int, c as int, across(grid@)));
    if c >= end {
        assert(out@ =~= concat_range(c as int, end as int, across(grid@)));
        return out;
    }
    while c < end
        invariant
            columns.start <= c <= end,
            end == columns.end,
            grid.wf(),
            1 <= columns.start,
            end <= grid@.num_columns() - 1,
            out@ == concat_range(columns.start as int, c as int, across(grid@)),
        decreases end - c,
    {
        let ghost before = out@;
        push_column_pairs(grid, c, &mut out);
        assert(out@ =~= before + across(grid@)(c as int));
        c += 1;
    }
    out
}

/// The scan of adjoining column ranges, one after the other, is the scan of
/// the columns of both: how the columns are shared out does not change what
/// is found, nor in which order.
pub proof fn lemma_scan_splits(grid: GridView, lo: int, mid: int, hi: int)
    requires
        lo <= mid <= hi,
    ensures
        scan_pairs(grid, lo, mid) + scan_pairs(grid, mid, hi) == scan_pairs(grid, lo, hi),
{
    lemma_concat_split(lo, mid, hi, across(grid));
}

/// Number of ranges that `worker_count` workers get in a grid of `columns`
/// columns: one each, but never more ranges than columns.
pub open spec fn share_count(worker_count: int, columns: int) -> int {
    if worker_count <= columns {
        worker_count
    } else {
        columns
    }
}

/// The column ranges of the workers: the interior columns of the grid split
/// into `share_count` contiguous ranges that cover them once. Workers beyond
/// the number of columns get no range.
pub fn worker_ranges(grid: &Grid, worker_count: usize) -> (ranges: Vec<Range<usize>>)
    requires
        grid.wf(),
        worker_count >= 1,
    ensures
        ranges.len() == share_count(worker_count as int, grid@.num_columns()),
        forall|i: int|
            0 <= i < ranges.len() ==> (#[trigger] ranges[i]).start == range_start(
                ranges.len() as int,
                grid@.num_columns(),
                i,
            ) && ranges[i].end == range_end(ranges.len() as int, grid@.num_columns(), i),
        forall|i: int|
            0 <= i < ranges.len() ==> 1 <= (#[trigger] ranges[i]).start <= ranges[i].end
                <= grid@.num_columns() - 1,
        covers_interior_once(ranges@, grid@.num_columns()),
        ranges_abut(ranges@),
{
    let cols = grid.get_num_columns();
    let shares = if worker_count <= cols {
        worker_count
    } else {
        cols
    };
    let ranges = gen_vec_range(shares, cols);
    proof {
        assert forall|i: int| 0 <= i < shares implies 1 <= (#[trigger] ranges[i]).start
            <= ranges[i].end <= cols - 1 by {
            lemma_range_holds_owner(shares as int, cols as int, i, 0);
        }
    }
    ranges
}

/// The broad phase of one resolve step: the interior columns are split among
/// the workers, each range is scanned, and what the workers found is joined
/// in worker order. The result is the scan of the whole interior, whatever
/// the number of workers.
pub fn collect_candidates(grid: &Grid, worker_count: usize) -> (pairs: Vec<Pair>)
    requires
        grid.wf(),
        worker_count >= 1,
    ensures
        pairs@ == scan_pairs(grid@, 1, grid@.num_columns() - 1),
{
    let ghost cols = grid@.num_columns();
    let ranges = worker_ranges(grid, worker_count);
    let shares = ranges.len();
    let mut out: Vec<Pair> = Vec::new();
    let mut w: usize = 0;
    assert(out@ =~= scan_pairs(grid@, 1, 1));
    while w < shares
        invariant
            w <= shares,
            1 <= shares == ranges.len(),
            grid.wf(),
            cols == grid@.num_columns(),
            ranges[0].start == 1,
            ranges[shares - 1].end == cols - 1,
            ranges_abut(ranges@),
            forall|i: int|
                0 <= i < shares ==> 1 <= (#[trigger] ranges[i]).start <= ranges[i].end <= cols - 1,
            w < shares ==> out@ == scan_pairs(grid@, 1, ranges[w as int].start as int),
            w == shares ==> out@ == scan_pairs(grid@, 1, cols - 1),
        decreases shares - w,
    {
        let mut found = candidate_pairs(grid, &ranges[w]);
        proof {
            lemma_scan_splits(
                grid@,
                1,
                ranges[w as int].start as int,
                ranges[w as int].end as int,
            );
            if w + 1 < shares {
                assert(ranges[w + 1].start == ranges[w as int].end);
            }
        }
        out.append(&mut found);
        w += 1;
    }
    out
}

/// Cell `(c2, r2)` is cell `(c, r)` or one of the eight around it.
pub open spec fn adjacent(c: int, r: int, c2: int, r2: int) -> bool {
    c - 1 <= c2 <= c + 1 && r - 1 <= r2 <= r + 1
}

/// `a` and `b` are different ids, `a` lies in an interior cell of one of the
/// columns `lo, .., hi - 1`, and `b` lies in that cell or one around it.
pub open spec fn is_candidate(grid: GridView, lo: int, hi: int, a: usize, b: usize) -> bool {
    a != b && exists|c: int, r: int, c2: int, r2: int|
        lo <= c < hi && 1 <= r < grid.num_rows() - 1 && adjacent(c, r, c2, r2)
            && #[trigger] grid.cell(c, r).contains(a) && #[trigger] grid.cell(c2, r2).contains(b)
}

/// `pairs_from(a, ys)` holds the pairs of `a` with the other ids of `ys`, and no more.
pub proof fn lemma_pairs_from_contains(a: usize, ys: Seq<usize>, x: Pair)
    ensures
        pairs_from(a, ys).contains(x) <==> (x.0 == a && x.1 != a && ys.contains(x.1)),
{
    let f = emit_from(a, ys);
    lemma_concat_contains(0, ys.len() as int, f, x);
    if pairs_from(a, ys).contains(x) {
        let k = choose|k: int| 0 <= k < ys.len() && #[trigger] f(k).contains(x);
        assert(f(k) == emit(a, ys[k]));
        assert(emit(a, ys[k]).len() == 1 && emit(a, ys[k])[0] == x);
        assert(ys[k] == x.1);
    }
    if x.0 == a && x.1 != a && ys.contains(x.1) {
        let k = choose|k: int| 0 <= k < ys.len() && ys[k] == x.1;
        assert(f(k) == emit(a, ys[k]));
        assert(f(k)[0] == x);
        assert(f(k).contains(x));
    }
}

/// `cross_pairs(xs, ys)` holds the pairs of an id of `xs` with a different id
/// of `ys`, and no more.
pub proof fn lemma_cross_pairs_contains(xs: Seq<usize>, ys: Seq<usize>, x: Pair)
    ensures
        cross_pairs(xs, ys).contains(x) <==> (x.0 != x.1 && xs.contains(x.0) && ys.contains(x.1)),
{
    let f = cross_from(xs, ys);
    lemma_concat_contains(0, xs.len() as int, f, x);
    if cross_pairs(xs, ys).contains(x) {
        let k = choose|k: int| 0 <= k < xs.len() && #[trigger] f(k).contains(x);
        lemma_pairs_from_contains(xs[k], ys, x);
    }
    if x.0 != x.1 && xs.contains(x.0) && ys.contains(x.1) {
        let k = choose|k: int| 0 <= k < xs.len() && xs[k] == x.0;
        lemma_pairs_from_contains(xs[k], ys, x);
        assert(f(k).contains(x));
    }
}

/// The pairs found from cell `(c, r)` are the pairs of an id in it with a
/// different id in it or in a cell around it.
pub proof fn lemma_neighbourhood_contains(grid: GridView, c: int, r: int, x: Pair)
    ensures
        neighbourhood_pairs(grid, c, r).contains(x) <==> (x.0 != x.1 && grid.cell(c, r).contains(
            x.0,
        ) && exists|c2: int, r2: int|
            adjacent(c, r, c2, r2) && #[trigger] grid.cell(c2, r2).contains(x.1)),
{
    let f = around(grid, c, r);
    lemma_concat_contains(0, 9, f, x);
    if neighbourhood_pairs(grid, c, r).contains(x) {
        let k = choose|k: int| 0 <= k < 9 && #[trigger] f(k).contains(x);
        let c2 = c + k / 3 - 1;
        let r2 = r + k % 3 - 1;
        lemma_cross_pairs_contains(grid.cell(c, r), grid.cell(c2, r2), x);
        assert(adjacent(c, r, c2, r2) && grid.cell(c2, r2).contains(x.1));
    }
    if x.0 != x.1 && grid.cell(c, r).contains(x.0) && exists|c2: int, r2: int|
        adjacent(c, r, c2, r2) && #[trigger] grid.cell(c2, r2).contains(x.1) {
        let (c2, r2) = choose|c2: int, r2: int|
            adjacent(c, r, c2, r2) && #[trigger] grid.cell(c2, r2).contains(x.1);
        let k = (c2 - c + 1) * 3 + (r2 - r + 1);
        assert(c + k / 3 - 1 == c2 && r + k % 3 - 1 == r2);
        lemma_cross_pairs_contains(grid.cell(c, r), grid.cell(c2, r2), x);
        assert(f(k).contains(x));
    }
}

/// What a scan finds: `(a, b)` is among the pairs found from columns
/// `lo, .., hi - 1` exactly when `a` and `b` are different, `a` lies in an
/// interior cell of one of these columns, and `b` lies in that cell or in one
/// of the eight around it.
pub proof fn lemma_scan_contains(grid: GridView, lo: int, hi: int, a: usize, b: usize)
    ensures
        scan_pairs(grid, lo, hi).contains((a, b)) <==> is_candidate(grid, lo, hi, a, b),
{
    let x = (a, b);
    let f = across(grid);
    lemma_concat_contains(lo, hi, f, x);
    if scan_pairs(grid, lo, hi).contains(x) {
        let c = choose|c: int| lo <= c < hi && #[trigger] f(c).contains(x);
        let g = down_column(grid, c);
        lemma_concat_contains(1, grid.num_rows() - 1, g, x);
        let r = choose|r: int| 1 <= r < grid.num_rows() - 1 && #[trigger] g(r).contains(x);
        lemma_neighbourhood_contains(grid, c, r, x);
        let (c2, r2) = choose|c2: int, r2: int|
            adjacent(c, r, c2, r2) && #[trigger] grid.cell(c2, r2).contains(b);
        assert(grid.cell(c, r).contains(a) && grid.cell(c2, r2).contains(b));
    }
    if is_candidate(grid, lo, hi, a, b) {
        let (c, r, c2, r2) = choose|c: int, r: int, c2: int, r2: int|
            lo <= c < hi && 1 <= r < grid.num_rows() - 1 && adjacent(c, r, c2, r2)
                && #[trigger] grid.cell(c, r).contains(a) && #[trigger] grid.cell(c2, r2).contains(
                b,
            );
        let g = down_column(grid, c);
        lemma_neighbourhood_contains(grid, c, r, x);
        assert(g(r).contains(x));
        lemma_concat_contains(1, grid.num_rows() - 1, g, x);
        assert(f(c).contains(x));
    }
}

/// The two positions are no further apart than `reach` along either axis.
pub open spec fn near(p: Point, q: Point, reach: int) -> bool {
    &&& -reach <= p.x - q.x <= reach
    &&& -reach <= p.y - q.y <= reach
}

/// Square of the distance between two positions.
pub open spec fn dist_sq(p: Point, q: Point) -> int {
    (p.x - q.x) * (p.x - q.x) + (p.y - q.y) * (p.y - q.y)
}

/// Two discs of radius `radius` that overlap have centres that are near each
/// other for any cell size of at least the diameter.
pub proof fn lemma_overlap_is_near(p: Point, q: Point, radius: int, cell_size: int)
    requires
        radius >= 0,
        cell_size >= 2 * radius,
        dist_sq(p, q) < (2 * radius) * (2 * radius),
    ensures
        near(p, q, cell_size),
{
    let dx = p.x - q.x;
    let dy = p.y - q.y;
    let d = 2 * radius;
    assert(-d <= dx <= d && -d <= dy <= d) by (nonlinear_arith)
        requires
            d >= 0,
            dx * dx + dy * dy < d * d,
    ;
}

/// Coordinates no further apart than one cell size lie in the same cell or in
/// neighbouring ones.
pub proof fn lemma_near_coords_adjacent(x1: int, x2: int, cell_size: int)
    requires
        cell_size > 0,
        -cell_size <= x1 - x2 <= cell_size,
    ensures
        cell_index(x2, cell_size) - 1 <= cell_index(x1, cell_size) <= cell_index(x2, cell_size) + 1,
{
    let q1 = x1 / cell_size;
    let q2 = x2 / cell_size;
    assert(q2 - 1 <= q1 <= q2 + 1) by (nonlinear_arith)
        requires
            cell_size > 0,
            -cell_size <= x1 - x2 <= cell_size,
            q1 == x1 / cell_size,
            q2 == x2 / cell_size,
    ;
}

/// The broad phase misses no pair that could collide. In a grid that holds
/// `entities` over a domain of `width` by `height`, if entity `i` lies inside
/// the domain and another entity `j` is near it (no further than one cell
/// size along either axis), the scan of the interior finds `(i, j)`.
pub proof fn lemma_near_entities_are_candidates(
    grid: GridView,
    entities: Seq<Point>,
    width: int,
    height: int,
    i: int,
    j: int,
)
    requires
        grid.wf(),
        grid.holds(entities),
        grid.num_columns() == axis_cells(width, grid.cell_size),
        grid.num_rows() == axis_cells(height, grid.cell_size),
        entities.len() <= usize::MAX,
        0 <= i < entities.len(),
        0 <= j < entities.len(),
        i != j,
        in_domain(entities[i], width, height),
        near(entities[j], entities[i], grid.cell_size),
    ensures
        scan_pairs(grid, 1, grid.num_columns() - 1).contains((i as usize, j as usize)),
{
    let cs = grid.cell_size;
    let (c, r) = cell_of(entities[i], cs);
    let (c2, r2) = cell_of(entities[j], cs);
    lemma_cell_index_interior(entities[i].x as int, width, cs);
    lemma_cell_index_interior(entities[i].y as int, height, cs);
    lemma_near_coords_adjacent(entities[j].x as int, entities[i].x as int, cs);
    lemma_near_coords_adjacent(entities[j].y as int, entities[i].y as int, cs);
    assert(adjacent(c, r, c2, r2));
    assert(grid.in_bounds(c, r) && grid.in_bounds(c2, r2));
    lemma_bucket_upto_members(entities, cs, c, r, entities.len());
    lemma_bucket_upto_members(entities, cs, c2, r2, entities.len());
    assert(grid.cell(c, r).contains(i as usize));
    assert(grid.cell(c2, r2).contains(j as usize));
    lemma_scan_contains(grid, 1, grid.num_columns() - 1, i as usize, j as usize);
}

/// Parts without a repeated pair, no two of which share a pair, join to a
/// sequence without a repeated pair.
pub proof fn lemma_concat_no_duplicates(lo: int, hi: int, f: spec_fn(int) -> Seq<Pair>)
    requires
        forall|k: int| lo <= k < hi ==> (#[trigger] f(k)).no_duplicates(),
        forall|k1: int, k2: int, x: Pair|
            lo <= k1 < k2 < hi ==> !(#[trigger] f(k1).contains(x) && #[trigger] f(k2).contains(x)),
    ensures
        concat_range(lo, hi, f).no_duplicates(),
    decreases hi - lo,
{
    if hi > lo {
        lemma_concat_no_duplicates(lo, hi - 1, f);
        let head = concat_range(lo, hi - 1, f);
        let tail = f(hi - 1);
        assert forall|i: int, j: int| 0 <= i < head.len() && 0 <= j < tail.len() implies head[i]
            != tail[j] by {
            let x = head[i];
            assert(head.contains(x));
            lemma_concat_contains(lo, hi - 1, f, x);
            let k = choose|k: int| lo <= k < hi - 1 && #[trigger] f(k).contains(x);
            if x == tail[j] {
                assert(f(hi - 1).contains(x));
            }
        }
        vstd::seq_lib::lemma_no_dup_in_concat(head, tail);
    }
}

/// Among ids that do not repeat, no pair does.
pub proof fn lemma_cross_pairs_no_duplicates(xs: Seq<usize>, ys: Seq<usize>)
    requires
        xs.no_duplicates(),
        ys.no_duplicates(),
    ensures
        cross_pairs(xs, ys).no_duplicates(),
{
    let f = cross_from(xs, ys);
    assert forall|i: int| 0 <= i < xs.len() implies (#[trigger] f(i)).no_duplicates() by {
        let g = emit_from(xs[i], ys);
        assert forall|j1: int, j2: int, x: Pair| 0 <= j1 < j2 < ys.len() implies !(#[trigger] g(
            j1,
        ).contains(x) && #[trigger] g(j2).contains(x)) by {
            if g(j1).contains(x) && g(j2).contains(x) {
                assert(g(j1)[0] == x && g(j2)[0] == x);
            }
        }
        lemma_concat_no_duplicates(0, ys.len() as int, g);
    }
    assert forall|i1: int, i2: int, x: Pair| 0 <= i1 < i2 < xs.len() implies !(#[trigger] f(
        i1,
    ).contains(x) && #[trigger] f(i2).contains(x)) by {
        lemma_pairs_from_contains(xs[i1], ys, x);
        lemma_pairs_from_contains(xs[i2], ys, x);
    }
    lemma_concat_no_duplicates(0, xs.len() as int, f);
}

/// No pair is found twice. In a grid that holds `entities`, every id lies in
/// one bucket at most and once there, so a scan of interior columns meets
/// each ordered pair from one cell and one neighbour only.
pub proof fn lemma_scan_no_duplicates(grid: GridView, entities: Seq<Point>, lo: int, hi: int)
    requires
        grid.wf(),
        grid.holds(entities),
        entities.len() <= usize::MAX,
        1 <= lo,
        hi <= grid.num_columns() - 1,
    ensures
        scan_pairs(grid, lo, hi).no_duplicates(),
{
    let cs = grid.cell_size;
    let rows = grid.num_rows();
    assert forall|c: int, r: int, id: usize| grid.in_bounds(c, r) && #[trigger] grid.cell(
        c,
        r,
    ).contains(id) implies cell_of(entities[id as int], cs) == (c, r) by {
        lemma_bucket_upto_members(entities, cs, c, r, entities.len());
    }
    assert forall|c: int, r: int| grid.in_bounds(c, r) implies (#[trigger] grid.cell(
        c,
        r,
    )).no_duplicates() by {
        lemma_bucket_upto_members(entities, cs, c, r, entities.len());
    }
    let f = across(grid);
    assert forall|c: int| lo <= c < hi implies (#[trigger] f(c)).no_duplicates() by {
        let g = down_column(grid, c);
        assert forall|r: int| 1 <= r < rows - 1 implies (#[trigger] g(r)).no_duplicates() by {
            let h = around(grid, c, r);
            assert(grid.in_bounds(c, r));
            assert forall|k: int| 0 <= k < 9 implies (#[trigger] h(k)).no_duplicates() by {
                assert(grid.in_bounds(c + k / 3 - 1, r + k % 3 - 1));
                lemma_cross_pairs_no_duplicates(
                    grid.cell(c, r),
                    grid.cell(c + k / 3 - 1, r + k % 3 - 1),
                );
            }
            assert forall|k1: int, k2: int, x: Pair| 0 <= k1 < k2 < 9 implies !(#[trigger] h(
                k1,
            ).contains(x) && #[trigger] h(k2).contains(x)) by {
                let (c1, r1) = (c + k1 / 3 - 1, r + k1 % 3 - 1);
                let (c2, r2) = (c + k2 / 3 - 1, r + k2 % 3 - 1);
                assert(grid.in_bounds(c1, r1) && grid.in_bounds(c2, r2));
                lemma_cross_pairs_contains(grid.cell(c, r), grid.cell(c1, r1), x);
                lemma_cross_pairs_contains(grid.cell(c, r), grid.cell(c2, r2), x);
                assert((c1, r1) != (c2, r2));
            }
            lemma_concat_no_duplicates(0, 9, h);
        }
        assert forall|r1: int, r2: int, x: Pair| 1 <= r1 < r2 < rows - 1 implies !(#[trigger] g(
            r1,
        ).contains(x) && #[trigger] g(r2).contains(x)) by {
            assert(grid.in_bounds(c, r1) && grid.in_bounds(c, r2));
            lemma_neighbourhood_contains(grid, c, r1, x);
            lemma_neighbourhood_contains(grid, c, r2, x);
        }
        lemma_concat_no_duplicates(1, rows - 1, g);
    }
    assert forall|c1: int, c2: int, x: Pair| lo <= c1 < c2 < hi implies !(#[trigger] f(
        c1,
    ).contains(x) && #[trigger] f(c2).contains(x)) by {
        if f(c1).contains(x) && f(c2).contains(x) {
            let g1 = down_column(grid, c1);
            let g2 = down_column(grid, c2);
            lemma_concat_contains(1, rows - 1, g1, x);
            lemma_concat_contains(1, rows - 1, g2, x);
            let r1 = choose|r: int| 1 <= r < rows - 1 && #[trigger] g1(r).contains(x);
            let r2 = choose|r: int| 1 <= r < rows - 1 && #[trigger] g2(r).contains(x);
            assert(grid.in_bounds(c1, r1) && grid.in_bounds(c2, r2));
            lemma_neighbourhood_contains(grid, c1, r1, x);
            lemma_neighbourhood_contains(grid, c2, r2, x);
        }
    }
    lemma_concat_no_duplicates(lo, hi, f);
}

/// Two grids of one shape that hold the same entities are the same grid, and
/// so a scan finds in both the same pairs in the same order: what the broad
/// phase finds is a function of the positions alone.
pub proof fn lemma_same_entities_same_scan(
    first: GridView,
    second: GridView,
    entities: Seq<Point>,
    lo: int,
    hi: int,
)
    requires
        first.wf(),
        second.wf(),
        first.cell_size == second.cell_size,
        first.num_columns() == second.num_columns(),
        first.num_rows() == second.num_rows(),
        first.holds(entities),
        second.holds(entities),
    ensures
        first == second,
        scan_pairs(first, lo, hi) == scan_pairs(second, lo, hi),
{
    assert forall|c: int| 0 <= c < first.columns.len() implies #[trigger] first.columns[c]
        == second.columns[c] by {
        assert forall|r: int| 0 <= r < first.columns[c].len() implies #[trigger] first.columns[c][r]
            == second.columns[c][r] by {
            assert(first.in_bounds(c, r) && second.in_bounds(c, r));
            assert(first.cell(c, r) == second.cell(c, r));
        }
        assert(first.columns[c] =~= second.columns[c]);
    }
    assert(first.columns =~= second.columns);
}

} // verus!
