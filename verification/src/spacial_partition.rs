//! Broad-phase bucket grid over lattice positions.
//!
//! The grid covers a domain of `width` by `height` lattice units with square
//! cells and adds a border of one cell on every side. Positions are whole
//! numbers of lattice units; a caller that holds real coordinates rounds them
//! down first, which leaves the cell unchanged because the cell size is whole.

use crate::config::ConfigError;
use vstd::prelude::*;

verus! {

/// A position on the integer lattice.
#[derive(Clone, Copy, Debug, PartialEq, Eq, Structural)]
pub struct Point {
    pub x: i64,
    pub y: i64,
}

/// Number of cells along an axis of length `extent`: enough cells of
/// `cell_size` to cover it, and one border cell at either end.
pub open spec fn axis_cells(extent: int, cell_size: int) -> int {
    (extent + cell_size - 1) / cell_size + 2
}

/// Index along one axis of the cell that holds coordinate `coord`: the
/// coordinate divided by the cell size, rounded down, and shifted by the
/// border cell.
pub open spec fn cell_index(coord: int, cell_size: int) -> int {
    coord / cell_size + 1
}

/// Column and row of the cell that holds `p`.
pub open spec fn cell_of(p: Point, cell_size: int) -> (int, int) {
    (cell_index(p.x as int, cell_size), cell_index(p.y as int, cell_size))
}

/// The ids `0, 1, .., n - 1` in order.
pub open spec fn ids_upto(n: nat) -> Seq<usize> {
    Seq::new(n, |i: int| i as usize)
}

/// The ids below `n` whose position lies in cell `(c, r)`, in increasing order.
pub open spec fn bucket_upto(entities: Seq<Point>, cell_size: int, c: int, r: int, n: nat) -> Seq<
    usize,
> {
    ids_upto(n).filter(|i: usize| cell_of(entities[i as int], cell_size) == (c, r))
}

/// The ids of all entities whose position lies in cell `(c, r)`, in increasing order.
pub open spec fn bucket(entities: Seq<Point>, cell_size: int, c: int, r: int) -> Seq<usize> {
    bucket_upto(entities, cell_size, c, r, entities.len())
}

/// What a grid holds: its cell size and, by column and row, the ids in each bucket.
pub struct GridView {
    pub cell_size: int,
    pub columns: Seq<Seq<Seq<usize>>>,
}

impl GridView {
    pub open spec fn num_columns(self) -> int {
        self.columns.len() as int
    }

    pub open spec fn num_rows(self) -> int {
        self.columns[0].len() as int
    }

    /// The ids in the bucket at column `c`, row `r`.
    pub open spec fn cell(self, c: int, r: int) -> Seq<usize> {
        self.columns[c][r]
    }

    /// `(c, r)` names a bucket of the grid.
    pub open spec fn in_bounds(self, c: int, r: int) -> bool {
        0 <= c < self.num_columns() && 0 <= r < self.num_rows()
    }

    /// A positive cell size, and a rectangle of buckets that is at least the border.
    pub open spec fn wf(self) -> bool {
        &&& self.cell_size > 0
        &&& self.columns.len() >= 2
        &&& self.columns[0].len() >= 2
        &&& forall|c: int|
            0 <= c < self.columns.len() ==> (#[trigger] self.columns[c]).len()
                == self.columns[0].len()
    }

    /// Every bucket holds, in increasing order, the ids of the entities whose
    /// position lies in its cell.
    pub open spec fn holds(self, entities: Seq<Point>) -> bool {
        forall|c: int, r: int|
            self.in_bounds(c, r) ==> #[trigger] self.cell(c, r) == bucket(
                entities,
                self.cell_size,
                c,
                r,
            )
    }

    /// Every bucket is empty.
    pub open spec fn is_clear(self) -> bool {
        forall|c: int, r: int|
            self.in_bounds(c, r) ==> #[trigger] self.cell(c, r) == Seq::<usize>::empty()
    }
}

/// The bucket grid.
pub struct Grid {
    columns: Vec<Vec<Vec<usize>>>,
    cell_size: u32,
}

impl View for Grid {
    type V = GridView;

    closed spec fn view(&self) -> GridView {
        GridView {
            cell_size: self.cell_size as int,
            columns: Seq::new(
                self.columns.len() as nat,
                |c: int|
                    Seq::new(self.columns[c].len() as nat, |r: int| self.columns[c][r]@),
            ),
        }
    }
}

/// A column of `rows` empty buckets.
fn empty_column(rows: usize) -> (col: Vec<Vec<usize>>)
    ensures
        col.len() == rows,
        forall|r: int| 0 <= r < rows ==> (#[trigger] col[r])@ == Seq::<usize>::empty(),
{
    let mut col: Vec<Vec<usize>> = Vec::new();
    let mut r: usize = 0;
    while r < rows
        invariant
            r <= rows,
            col.len() == r,
            forall|k: int| 0 <= k < r ==> (#[trigger] col[k])@ == Seq::<usize>::empty(),
        decreases rows - r,
    {
        col.push(Vec::new());
        r += 1;
    }
    col
}

/// Cells along an axis, computed without overflow.
fn count_axis_cells(extent: u32, cell_size: u32) -> (n: usize)
    requires
        cell_size > 0,
        axis_cells(extent as int, cell_size as int) <= usize::MAX,
    ensures
        n == axis_cells(extent as int, cell_size as int),
        n >= 2,
{
    let padded: u64 = extent as u64 + cell_size as u64 - 1;
    let n: u64 = padded / (cell_size as u64) + 2;
    n as usize
}

/// `coord / cell_size`, rounded down.
fn floor_div(coord: i64, cell_size: u32) -> (q: i64)
    requires
        cell_size > 0,
    ensures
        q == coord as int / cell_size as int,
{
    let cs: i64 = cell_size as i64;
    if coord >= 0 {
        coord / cs
    } else {
        let below: i64 = -(coord + 1);
        let k: i64 = below / cs;
        proof {
            lemma_floor_of_negative(coord as int, cs as int);
        }
        -k - 1
    }
}

/// Rounding down a negative quotient, from a division of non-negative numbers.
proof fn lemma_floor_of_negative(coord: int, cs: int)
    requires
        coord < 0,
        cs > 0,
    ensures
        coord / cs == -((-(coord + 1)) / cs) - 1,
{
    let m = -(coord + 1);
    let k = m / cs;
    let s = m % cs;
    vstd::arithmetic::div_mod::lemma_fundamental_div_mod(m, cs);
    assert(coord == (-k - 1) * cs + (cs - s - 1)) by (nonlinear_arith)
        requires
            m == cs * k + s,
            m == -(coord + 1),
    ;
    vstd::arithmetic::div_mod::lemma_fundamental_div_mod_converse(coord, cs, -k - 1, cs - s - 1);
}

/// Adding entity `n` appends its id to the bucket of its cell and leaves the
/// other buckets as they are.
proof fn lemma_bucket_step(entities: Seq<Point>, cell_size: int, c: int, r: int, n: nat)
    requires
        n <= usize::MAX,
    ensures
        bucket_upto(entities, cell_size, c, r, n + 1) == if cell_of(entities[n as int], cell_size)
            == (c, r) {
            bucket_upto(entities, cell_size, c, r, n).push(n as usize)
        } else {
            bucket_upto(entities, cell_size, c, r, n)
        },
        bucket_upto(entities, cell_size, c, r, 0) == Seq::<usize>::empty(),
{
    let pred = |i: usize| cell_of(entities[i as int], cell_size) == (c, r);
    assert(ids_upto(n + 1) =~= ids_upto(n).push(n as usize));
    ids_upto(n).lemma_filter_push(n as usize, pred);
    assert(ids_upto(0) =~= Seq::<usize>::empty());
    reveal(Seq::filter);
}

impl Grid {
    /// The grid is well formed: see [`GridView::wf`].
    pub open spec fn wf(&self) -> bool {
        self@.wf()
    }

    /// What the view says of the fields.
    proof fn lemma_view(&self)
        ensures
            self@.cell_size == self.cell_size,
            self@.columns.len() == self.columns.len(),
            forall|c: int|
                #![trigger self@.columns[c]]
                #![trigger self.columns[c]]
                0 <= c < self.columns.len() ==> self@.columns[c].len() == self.columns[c].len(),
            forall|c: int, r: int|
                #![trigger self@.columns[c][r]]
                #![trigger self.columns[c][r]]
                0 <= c < self.columns.len() && 0 <= r < self.columns[c].len()
                    ==> self@.columns[c][r] == self.columns[c][r]@,
    {
    }

    /// An empty grid over a domain of `width` by `height` with cells of
    /// `cell_size`. A cell size of zero is rejected. The domain and its border
    /// must be countable in `usize`, which only a 32-bit machine can fail.
    pub fn new(width: u32, height: u32, cell_size: u32) -> (res: Result<Grid, ConfigError>)
        requires
            axis_cells(width as int, 1) <= usize::MAX,
            axis_cells(height as int, 1) <= usize::MAX,
        ensures
            cell_size == 0 <==> res is Err,
            res matches Err(e) ==> e == ConfigError::NonPositiveCellSize,
            res matches Ok(grid) ==> {
                &&& grid.wf()
                &&& grid@.cell_size == cell_size
                &&& grid@.num_columns() == axis_cells(width as int, cell_size as int)
                &&& grid@.num_rows() == axis_cells(height as int, cell_size as int)
                &&& grid@.is_clear()
            },
    {
        if cell_size == 0 {
            return Err(ConfigError::NonPositiveCellSize);
        }
        proof {
            lemma_axis_cells_shrink(width as int, cell_size as int);
            lemma_axis_cells_shrink(height as int, cell_size as int);
        }
        let cols = count_axis_cells(width, cell_size);
        let rows = count_axis_cells(height, cell_size);
        let mut columns: Vec<Vec<Vec<usize>>> = Vec::new();
        let mut c: usize = 0;
        while c < cols
            invariant
                c <= cols,
                columns.len() == c,
                forall|k: int| 0 <= k < c ==> (#[trigger] columns[k]).len() == rows,
                forall|k: int, r: int|
                    0 <= k < c && 0 <= r < rows ==> (#[trigger] columns[k][r])@ == Seq::<
                        usize,
                    >::empty(),
            decreases cols - c,
        {
            columns.push(empty_column(rows));
            c += 1;
        }
        let grid = Grid { columns, cell_size };
        proof {
            grid.lemma_view();
        }
        Ok(grid)
    }

    /// Number of columns, border included.
    pub fn get_num_columns(&self) -> (n: usize)
        ensures
            n == self@.num_columns(),
    {
        self.columns.len()
    }

    /// Number of rows, border included.
    pub fn get_num_rows(&self) -> (n: usize)
        requires
            self.wf(),
        ensures
            n == self@.num_rows(),
    {
        proof {
            self.lemma_view();
        }
        self.columns[0].len()
    }

    /// The ids in the bucket at column `i`, row `j`.
    pub fn get_cell(&self, i: usize, j: usize) -> (cell: &Vec<usize>)
        requires
            self.wf(),
            self@.in_bounds(i as int, j as int),
        ensures
            cell@ == self@.cell(i as int, j as int),
    {
        proof {
            self.lemma_view();
        }
        &self.columns[i][j]
    }

    /// Rebuilds the grid from `entities`: every bucket is emptied, then each
    /// entity's index is appended to the bucket of the cell that holds its
    /// position. An entity whose cell lies outside the grid is left out.
    pub fn update(&mut self, entities: &Vec<Point>)
        requires
            old(self).wf(),
        ensures
            final(self).wf(),
            final(self)@.cell_size == old(self)@.cell_size,
            final(self)@.num_columns() == old(self)@.num_columns(),
            final(self)@.num_rows() == old(self)@.num_rows(),
            final(self)@.holds(entities@),
    {
        self.clear();
        proof {
            self.lemma_view();
        }
        let cols = self.columns.len();
        let rows = self.columns[0].len();
        let ghost cs = self.cell_size as int;
        proof {
            assert forall|c: int, r: int| 0 <= c < cols && 0 <= r < rows implies (
            #[trigger] self.columns[c][r])@ == bucket_upto(entities@, cs, c, r, 0) by {
                lemma_bucket_step(entities@, cs, c, r, 0);
                assert(self@.in_bounds(c, r));
                assert(self@.cell(c, r) == Seq::<usize>::empty());
            }
        }
        let mut i: usize = 0;
        while i < entities.len()
            invariant
                i <= entities.len(),
                cols >= 2,
                rows >= 2,
                self.cell_size > 0,
                cs == self.cell_size,
                self.columns.len() == cols,
                forall|k: int| 0 <= k < cols ==> (#[trigger] self.columns[k]).len() == rows,
                forall|c: int, r: int|
                    0 <= c < cols && 0 <= r < rows ==> (#[trigger] self.columns[c][r])@
                        == bucket_upto(entities@, cs, c, r, i as nat),
            decreases entities.len() - i,
        {
            let p = entities[i];
            let qx = floor_div(p.x, self.cell_size);
            let qy = floor_div(p.y, self.cell_size);
            let ghost before = self.columns;
            let ghost target = cell_of(p, cs);
            if qx >= -1 && qy >= -1 && (qx as i128) + 1 < cols as i128 && (qy as i128) + 1
                < rows as i128 {
                let col: usize = ((qx as i128) + 1) as usize;
                let row: usize = ((qy as i128) + 1) as usize;
                self.columns[col][row].push(i);
                assert(target == (col as int, row as int));
                assert(self.columns[col as int][row as int]@ == before[col as int][row as int]@.push(
                    i,
                ));
                assert(forall|c: int, r: int|
                    0 <= c < cols && 0 <= r < rows && (c, r) != target
                        ==> #[trigger] self.columns[c][r] == before[c][r]);
            }
            proof {
                assert forall|c: int, r: int| 0 <= c < cols && 0 <= r < rows implies (
                #[trigger] self.columns[c][r])@ == bucket_upto(
                    entities@,
                    cs,
                    c,
                    r,
                    (i + 1) as nat,
                ) by {
                    lemma_bucket_step(entities@, cs, c, r, i as nat);
                }
            }
            i += 1;
        }
        proof {
            self.lemma_view();
            old(self).lemma_view();
        }
    }

    /// Empties every bucket.
    fn clear(&mut self)
        requires
            old(self).wf(),
        ensures
            final(self).wf(),
            final(self)@.cell_size == old(self)@.cell_size,
            final(self)@.num_columns() == old(self)@.num_columns(),
            final(self)@.num_rows() == old(self)@.num_rows(),
            final(self)@.is_clear(),
    {
        proof {
            self.lemma_view();
        }
        let cols = self.columns.len();
        let rows = self.columns[0].len();
        let mut c: usize = 0;
        while c < cols
            invariant
                c <= cols,
                self.cell_size == old(self).cell_size,
                self.columns.len() == cols,
                forall|k: int| 0 <= k < cols ==> (#[trigger] self.columns[k]).len() == rows,
                forall|k: int, r: int|
                    0 <= k < c && 0 <= r < rows ==> (#[trigger] self.columns[k][r])@ == Seq::<
                        usize,
                    >::empty(),
            decreases cols - c,
        {
            let mut r: usize = 0;
            while r < rows
                invariant
                    c < cols,
                    r <= rows,
                    self.cell_size == old(self).cell_size,
                    self.columns.len() == cols,
                    forall|k: int| 0 <= k < cols ==> (#[trigger] self.columns[k]).len() == rows,
                    forall|k: int, j: int|
                        0 <= k < c && 0 <= j < rows ==> (#[trigger] self.columns[k][j])@ == Seq::<
                            usize,
                        >::empty(),
                    forall|j: int|
                        0 <= j < r ==> (#[trigger] self.columns[c as int][j])@ == Seq::<
                            usize,
                        >::empty(),
                decreases rows - r,
            {
                self.columns[c][r].clear();
                r += 1;
            }
            c += 1;
        }
        proof {
            self.lemma_view();
            old(self).lemma_view();
        }
    }
}

/// The ids in a sequence grow strictly from each entry to the next.
pub open spec fn strictly_increasing(ids: Seq<usize>) -> bool {
    forall|a: int, b: int| 0 <= a < b < ids.len() ==> ids[a] < ids[b]
}

/// The position lies inside a domain of `width` by `height`.
pub open spec fn in_domain(p: Point, width: int, height: int) -> bool {
    0 <= p.x < width && 0 <= p.y < height
}

/// What the bucket of cell `(c, r)` holds after the first `n` entities: the
/// ids below `n` whose position lies in that cell, each once, in increasing order.
pub proof fn lemma_bucket_upto_members(
    entities: Seq<Point>,
    cell_size: int,
    c: int,
    r: int,
    n: nat,
)
    requires
        n <= usize::MAX,
    ensures
        forall|id: usize|
            bucket_upto(entities, cell_size, c, r, n).contains(id) <==> (id < n && cell_of(
                entities[id as int],
                cell_size,
            ) == (c, r)),
        strictly_increasing(bucket_upto(entities, cell_size, c, r, n)),
        bucket_upto(entities, cell_size, c, r, n).no_duplicates(),
    decreases n,
{
    let now = bucket_upto(entities, cell_size, c, r, n);
    if n == 0 {
        lemma_bucket_step(entities, cell_size, c, r, 0);
    } else {
        let m = (n - 1) as nat;
        let before = bucket_upto(entities, cell_size, c, r, m);
        lemma_bucket_upto_members(entities, cell_size, c, r, m);
        lemma_bucket_step(entities, cell_size, c, r, m);
        if cell_of(entities[m as int], cell_size) == (c, r) {
            assert(now == before.push(m as usize));
            assert forall|id: usize| now.contains(id) implies (id < n && cell_of(
                entities[id as int],
                cell_size,
            ) == (c, r)) by {
                let k = choose|k: int| 0 <= k < now.len() && now[k] == id;
                if k < before.len() {
                    assert(before.contains(before[k]));
                }
            }
            assert forall|id: usize|
                (id < n && cell_of(entities[id as int], cell_size) == (c, r)) implies now.contains(
                id,
            ) by {
                if id < m {
                    assert(before.contains(id));
                    let k = choose|k: int| 0 <= k < before.len() && before[k] == id;
                    assert(now[k] == id);
                } else {
                    assert(now[before.len() as int] == id);
                }
            }
            assert forall|a: int, b: int| 0 <= a < b < now.len() implies now[a] < now[b] by {
                assert(before.contains(before[a]));
            }
        }
    }
}

/// A grid that holds `entities` over a domain of `width` by `height` has
/// entity `i`, if its position lies inside the domain, in exactly one bucket
/// and once there: the bucket whose column and row are the position divided
/// by the cell size, rounded down, plus one. That bucket is never a border one.
pub proof fn lemma_entity_in_one_bucket(
    grid: GridView,
    entities: Seq<Point>,
    width: int,
    height: int,
    i: int,
)
    requires
        grid.wf(),
        grid.holds(entities),
        grid.num_columns() == axis_cells(width, grid.cell_size),
        grid.num_rows() == axis_cells(height, grid.cell_size),
        entities.len() <= usize::MAX,
        0 <= i < entities.len(),
        in_domain(entities[i], width, height),
    ensures
        ({
            let (c0, r0) = cell_of(entities[i], grid.cell_size);
            &&& c0 == entities[i].x as int / grid.cell_size + 1
            &&& r0 == entities[i].y as int / grid.cell_size + 1
            &&& 1 <= c0 < grid.num_columns() - 1
            &&& 1 <= r0 < grid.num_rows() - 1
            &&& forall|c: int, r: int|
                grid.in_bounds(c, r) ==> (#[trigger] grid.cell(c, r).contains(i as usize) <==> (c, r)
                    == (c0, r0))
            &&& grid.cell(c0, r0).no_duplicates()
        }),
{
    let cs = grid.cell_size;
    let (c0, r0) = cell_of(entities[i], cs);
    lemma_cell_index_interior(entities[i].x as int, width, cs);
    lemma_cell_index_interior(entities[i].y as int, height, cs);
    assert forall|c: int, r: int| grid.in_bounds(c, r) implies (#[trigger] grid.cell(
        c,
        r,
    ).contains(i as usize) <==> (c, r) == (c0, r0)) by {
        lemma_bucket_upto_members(entities, cs, c, r, entities.len());
    }
    assert(grid.in_bounds(c0, r0));
    lemma_bucket_upto_members(entities, cs, c0, r0, entities.len());
}

/// The cell with index `k` along an axis holds the coordinates from
/// `(k - 1) * cell_size` up to, but not including, `k * cell_size`: the index
/// of a coordinate is its quotient by the cell size, rounded down, plus one.
pub proof fn lemma_cell_index_bounds(coord: int, cell_size: int)
    requires
        cell_size > 0,
    ensures
        (cell_index(coord, cell_size) - 1) * cell_size <= coord < cell_index(coord, cell_size)
            * cell_size,
{
    let q = coord / cell_size;
    assert(q * cell_size <= coord < (q + 1) * cell_size) by (nonlinear_arith)
        requires
            cell_size > 0,
            q == coord / cell_size,
    ;
}

/// The cells between the two border cells are the fewest that cover the
/// extent: the quotient of the extent by the cell size, rounded up.
pub proof fn lemma_axis_cells_cover(extent: int, cell_size: int)
    requires
        extent >= 0,
        cell_size > 0,
    ensures
        (axis_cells(extent, cell_size) - 2) * cell_size >= extent,
        (axis_cells(extent, cell_size) - 3) * cell_size < extent,
{
    let t = (extent + cell_size - 1) / cell_size;
    assert(t * cell_size >= extent && (t - 1) * cell_size < extent) by (nonlinear_arith)
        requires
            extent >= 0,
            cell_size > 0,
            t == (extent + cell_size - 1) / cell_size,
    ;
}

/// A coordinate inside `[0, extent)` falls in a cell that is not a border cell.
pub proof fn lemma_cell_index_interior(coord: int, extent: int, cell_size: int)
    requires
        cell_size > 0,
        0 <= coord < extent,
    ensures
        1 <= cell_index(coord, cell_size) < axis_cells(extent, cell_size) - 1,
{
    let q = coord / cell_size;
    let t = (extent + cell_size - 1) / cell_size;
    assert(0 <= q && q < t) by (nonlinear_arith)
        requires
            cell_size > 0,
            0 <= coord < extent,
            q == coord / cell_size,
            t == (extent + cell_size - 1) / cell_size,
    ;
}

/// A larger cell never needs more cells along an axis than cell size 1 does.
pub proof fn lemma_axis_cells_shrink(extent: int, cell_size: int)
    requires
        extent >= 0,
        cell_size >= 1,
    ensures
        2 <= axis_cells(extent, cell_size) <= axis_cells(extent, 1),
{
    assert(0 <= (extent + cell_size - 1) / cell_size <= extent) by (nonlinear_arith)
        requires
            extent >= 0,
            cell_size >= 1,
    ;
}

} // verus!
