use vstd::prelude::*;
use vstd::arithmetic::div_mod::{lemma_fundamental_div_mod, lemma_fundamental_div_mod_converse};

verus! {

/// The cell lattice of a sampling grid: `cells_x` columns by `cells_y` rows,
/// numbered row-major (row 0 first, left to right).
///
/// Where each cell lies in the plane is a floating-point matter kept by the
/// caller; everything the engine decides depends only on the lattice.
#[derive(Clone, Copy, Debug, PartialEq, Eq, Structural)]
pub struct Grid {
    pub cells_x: u32,
    pub cells_y: u32,
}

/// Why a grid could not be built.
#[derive(Clone, Copy, Debug, PartialEq, Eq, Structural)]
pub enum GridError {
    /// One of the two dimensions is zero.
    ZeroSize,
    /// The number of cells does not fit in `usize`.
    TooManyCells,
}

/// A run of rows `[start, start + height)`.
#[derive(Clone, Copy, Debug, PartialEq, Eq, Structural)]
pub struct GridStrip {
    pub start: u32,
    pub height: u32,
}

/// Row-major index of a cell to its `(column, row)` pair.
pub open spec fn cell_of(width: nat, i: nat) -> (u32, u32) {
    ((i % width) as u32, (i / width) as u32)
}

/// Effective strip height: a request of 0 counts as 1.
pub open spec fn clamp_height(height: nat) -> nat {
    if height == 0 { 1 } else { height }
}

/// Number of strips of height `h` over `rows` rows. Strips are `h` tall; the
/// remainder forms a last, shorter strip, except that a remainder of a single row
/// is absorbed by the strip before it when there is one.
pub open spec fn strip_count(rows: nat, h: nat) -> nat {
    if rows % h == 0 {
        rows / h
    } else if rows % h == 1 && rows / h > 0 {
        rows / h
    } else {
        rows / h + 1
    }
}

/// The `k`-th strip of the partition of `rows` rows into strips of height `h`.
pub open spec fn strip_at(rows: nat, h: nat, k: nat) -> GridStrip {
    let start = k * h;
    if k + 1 == strip_count(rows, h) {
        GridStrip { start: start as u32, height: (rows - start) as u32 }
    } else {
        GridStrip { start: start as u32, height: h as u32 }
    }
}

/// `strips` cut rows `[0, rows)` into non-empty runs, in increasing order, each
/// starting where the one before ends.
pub open spec fn is_row_partition(strips: Seq<GridStrip>, rows: nat) -> bool {
    &&& strips.len() > 0
    &&& strips[0].start == 0
    &&& forall|k: int| 0 <= k < strips.len() ==> #[trigger] strips[k].height > 0
    &&& forall|k: int|
        0 <= k < strips.len() - 1 ==> #[trigger] strips[k + 1].start == strips[k].start
            + strips[k].height
    &&& strips.last().start + strips.last().height == rows
}

/// The cells of a run of rows of a grid `width` columns wide, row-major.
pub open spec fn strip_cells(width: nat, strip: GridStrip) -> Seq<(u32, u32)> {
    Seq::new(
        strip.height as nat * width,
        |k: int| cell_of(width, (strip.start as nat * width + k) as nat),
    )
}

/// Every cell of a grid `width` columns by `rows` rows, row-major.
pub open spec fn grid_cells(width: nat, rows: nat) -> Seq<(u32, u32)> {
    Seq::new(width * rows, |i: int| cell_of(width, i as nat))
}

/// The cells of `strips`, one strip after the other.
pub open spec fn concat_strip_cells(width: nat, strips: Seq<GridStrip>) -> Seq<(u32, u32)>
    decreases strips.len(),
{
    if strips.len() == 0 {
        Seq::empty()
    } else {
        concat_strip_cells(width, strips.drop_last()) + strip_cells(width, strips.last())
    }
}

/// Whether row `row` lies in `strip`.
pub open spec fn strip_holds_row(strip: GridStrip, row: nat) -> bool {
    strip.start <= row < strip.start as nat + strip.height as nat
}

/// In a row partition, a strip ends no later than any later strip starts.
pub proof fn lemma_partition_ordered(strips: Seq<GridStrip>, rows: nat, i: int, j: int)
    requires
        is_row_partition(strips, rows),
        0 <= i < j < strips.len(),
    ensures
        strips[i].start + strips[i].height <= strips[j].start,
    decreases j - i,
{
    if j > i + 1 {
        lemma_partition_ordered(strips, rows, i, j - 1);
        assert(strips[(j - 1) + 1].start == strips[j - 1].start + strips[j - 1].height);
    } else {
        assert(strips[i + 1].start == strips[i].start + strips[i].height);
    }
}

/// The strips of a row partition are disjoint and cover the rows: each row
/// `row < rows` lies in exactly one strip.
pub proof fn lemma_partition_covers_once(strips: Seq<GridStrip>, rows: nat, row: nat)
    requires
        is_row_partition(strips, rows),
        row < rows,
    ensures
        exists|k: int| 0 <= k < strips.len() && strip_holds_row(#[trigger] strips[k], row),
        forall|i: int, j: int|
            0 <= i < strips.len() && 0 <= j < strips.len() && strip_holds_row(
                #[trigger] strips[i],
                row,
            ) && strip_holds_row(#[trigger] strips[j], row) ==> i == j,
{
    let k = lemma_partition_find(strips, rows, row, strips.len() - 1);
    assert(strip_holds_row(strips[k], row));
    assert forall|i: int, j: int|
        0 <= i < strips.len() && 0 <= j < strips.len() && strip_holds_row(
            #[trigger] strips[i],
            row,
        ) && strip_holds_row(#[trigger] strips[j], row) implies i == j by {
        if i < j {
            lemma_partition_ordered(strips, rows, i, j);
        } else if j < i {
            lemma_partition_ordered(strips, rows, j, i);
        }
    }
}

/// The strip among the first `last + 1` that holds a row below the end of strip `last`.
proof fn lemma_partition_find(strips: Seq<GridStrip>, rows: nat, row: nat, last: int) -> (k: int)
    requires
        is_row_partition(strips, rows),
        0 <= last < strips.len(),
        row < strips[last].start + strips[last].height,
    ensures
        0 <= k <= last,
        strip_holds_row(strips[k], row),
    decreases last,
{
    if row >= strips[last].start {
        last
    } else {
        assert(strips[(last - 1) + 1].start == strips[last - 1].start + strips[last - 1].height);
        lemma_partition_find(strips, rows, row, last - 1)
    }
}

/// Walking the strips of any row partition of a grid, one after the other,
/// visits exactly the cells of the whole grid in row-major order.
pub proof fn lemma_strips_concat_to_grid(width: nat, strips: Seq<GridStrip>, rows: nat)
    requires
        width > 0,
        is_row_partition(strips, rows),
    ensures
        concat_strip_cells(width, strips) == grid_cells(width, rows),
{
    lemma_strips_concat_prefix(width, strips, rows, strips.len() as int);
    let last = strips.last();
    assert(strips.subrange(0, strips.len() as int) =~= strips);
    assert(width * rows == (last.start + last.height) * width) by (nonlinear_arith)
        requires
            rows == last.start + last.height,
    ;
}

/// The first `n` strips of a row partition visit the cells of rows
/// `[0, end of strip n - 1)` in row-major order.
proof fn lemma_strips_concat_prefix(width: nat, strips: Seq<GridStrip>, rows: nat, n: int)
    requires
        width > 0,
        is_row_partition(strips, rows),
        1 <= n <= strips.len(),
    ensures
        concat_strip_cells(width, strips.subrange(0, n)) == Seq::new(
            ((strips[n - 1].start + strips[n - 1].height) * width) as nat,
            |i: int| cell_of(width, i as nat),
        ),
    decreases n,
{
    let pre = strips.subrange(0, n);
    let s = strips[n - 1];
    assert(pre.last() == s);
    let lhs = concat_strip_cells(width, pre);
    let base: nat = s.start as nat * width;
    if n == 1 {
        assert(pre.drop_last() =~= Seq::<GridStrip>::empty());
        assert(s.start == 0);
        assert(concat_strip_cells(width, pre.drop_last()) =~= Seq::<(u32, u32)>::empty());
        assert(lhs =~= strip_cells(width, s));
        assert(base == 0) by (nonlinear_arith)
            requires
                base == s.start as nat * width,
                s.start == 0,
        ;
        assert((s.start + s.height) * width == s.height * width) by (nonlinear_arith)
            requires
                s.start == 0,
        ;
        assert(lhs =~= Seq::new(
            ((s.start + s.height) * width) as nat,
            |i: int| cell_of(width, i as nat),
        ));
    } else {
        lemma_strips_concat_prefix(width, strips, rows, n - 1);
        assert(pre.drop_last() =~= strips.subrange(0, n - 1));
        let p = strips[n - 2];
        assert(strips[(n - 2) + 1].start == p.start + p.height);
        let head = concat_strip_cells(width, strips.subrange(0, n - 1));
        assert(head.len() == base);
        assert(((s.start + s.height) * width) as nat == base + s.height * width) by (nonlinear_arith)
            requires
                base == s.start as nat * width,
        ;
        assert(lhs =~= Seq::new(
            ((s.start + s.height) * width) as nat,
            |i: int| cell_of(width, i as nat),
        ));
    }
}

/// `(y * w + x) / w == y` and `(y * w + x) % w == x`.
pub proof fn lemma_cell_index(w: nat, y: nat, x: nat)
    requires
        x < w,
    ensures
        ((y * w + x) / w) == y,
        ((y * w + x) % w) == x,
{
    lemma_fundamental_div_mod_converse((y * w + x) as int, w as int, y as int, x as int);
}

impl GridStrip {
    pub fn new(start: u32, height: u32) -> (r: Self)
        ensures
            r.start == start,
            r.height == height,
    {
        GridStrip { start, height }
    }

    /// Whether the strip lies inside the rows of `grid`.
    pub open spec fn fits(self, grid: Grid) -> bool {
        self.start as nat + self.height as nat <= grid.cells_y as nat
    }

    /// The cells of the strip's rows, row-major.
    pub fn iter(&self, grid: &Grid) -> (r: Vec<(u32, u32)>)
        requires
            grid.wf(),
            self.fits(*grid),
        ensures
            r@ == strip_cells(grid.cells_x as nat, *self),
    {
        let w = grid.cells_x;
        let mut cells: Vec<(u32, u32)> = Vec::new();
        let mut dy: u32 = 0;
        while dy < self.height
            invariant
                grid.wf(),
                self.fits(*grid),
                w == grid.cells_x,
                dy <= self.height,
                cells@.len() == dy as nat * w as nat,
                forall|k: int|
                    0 <= k < cells@.len() ==> cells@[k] == cell_of(
                        w as nat,
                        (self.start as nat * w as nat + k) as nat,
                    ),
            decreases self.height - dy,
        {
            let mut x: u32 = 0;
            while x < w
                invariant
                    grid.wf(),
                    self.fits(*grid),
                    w == grid.cells_x,
                    dy < self.height,
                    x <= w,
                    cells@.len() == dy as nat * w as nat + x as nat,
                    forall|k: int|
                        0 <= k < cells@.len() ==> cells@[k] == cell_of(
                            w as nat,
                            (self.start as nat * w as nat + k) as nat,
                        ),
                decreases w - x,
            {
                let y = self.start + dy;
                proof {
                    let row = (self.start + dy) as nat;
                    lemma_cell_index(w as nat, row, x as nat);
                    assert(self.start as nat * w as nat + cells@.len() == row * w as nat + x)
                        by (nonlinear_arith)
                        requires
                            cells@.len() == dy as nat * w as nat + x as nat,
                            row == self.start as nat + dy as nat,
                    ;
                }
                cells.push((x, y));
                x = x + 1;
            }
            proof {
                assert((dy + 1) as nat * w as nat == dy as nat * w as nat + w as nat)
                    by (nonlinear_arith);
            }
            dy = dy + 1;
        }
        proof {
            assert(cells@ =~= strip_cells(w as nat, *self));
        }
        cells
    }
}

impl Grid {
    /// Lattice invariant: both dimensions positive, and the cell count fits in `usize`.
    pub open spec fn wf(self) -> bool {
        &&& self.cells_x > 0
        &&& self.cells_y > 0
        &&& self.cells_x as nat * self.cells_y as nat <= usize::MAX
    }

    /// Total number of cells.
    pub open spec fn spec_num_cells(self) -> nat {
        self.cells_x as nat * self.cells_y as nat
    }

    pub fn new(cells_x: u32, cells_y: u32) -> (r: Result<Grid, GridError>)
        ensures
            cells_x == 0 || cells_y == 0 ==> r == Err::<Grid, GridError>(GridError::ZeroSize),
            cells_x > 0 && cells_y > 0 && cells_x as nat * cells_y as nat > usize::MAX ==> r
                == Err::<Grid, GridError>(GridError::TooManyCells),
            cells_x > 0 && cells_y > 0 && cells_x as nat * cells_y as nat <= usize::MAX ==> r
                == Ok::<Grid, GridError>(Grid { cells_x, cells_y }),
            r matches Ok(g) ==> g.wf(),
    {
        if cells_x == 0 || cells_y == 0 {
            return Err(GridError::ZeroSize);
        }
        proof {
            assert(cells_x as nat * cells_y as nat <= u64::MAX) by (nonlinear_arith)
                requires
                    cells_x <= u32::MAX,
                    cells_y <= u32::MAX,
            ;
        }
        let cells = (cells_x as u64) * (cells_y as u64);
        if cells > usize::MAX as u64 {
            Err(GridError::TooManyCells)
        } else {
            Ok(Grid { cells_x, cells_y })
        }
    }

    pub fn num_cells(&self) -> (r: usize)
        requires
            self.wf(),
        ensures
            r == self.spec_num_cells(),
    {
        (self.cells_x as usize) * (self.cells_y as usize)
    }

    pub fn num_cells_in_strip(&self, strip: &GridStrip) -> (r: usize)
        requires
            self.wf(),
            strip.fits(*self),
        ensures
            r == strip.height as nat * self.cells_x as nat,
    {
        proof {
            assert(strip.height as nat * self.cells_x as nat <= self.cells_x as nat
                * self.cells_y as nat) by (nonlinear_arith)
                requires
                    strip.height <= self.cells_y,
            ;
        }
        (strip.height as usize) * (self.cells_x as usize)
    }

    pub fn cells_wide(&self) -> (r: u32)
        ensures
            r == self.cells_x,
    {
        self.cells_x
    }

    pub fn cells_high(&self) -> (r: u32)
        ensures
            r == self.cells_y,
    {
        self.cells_y
    }

    /// Row-major index of the first cell of `row`.
    pub fn row_start(&self, row: u32) -> (r: usize)
        requires
            self.wf(),
            row < self.cells_y,
        ensures
            r == row as nat * self.cells_x as nat,
            r + self.cells_x <= self.spec_num_cells(),
    {
        proof {
            assert(row as nat * self.cells_x as nat + self.cells_x as nat <= self.cells_x as nat
                * self.cells_y as nat) by (nonlinear_arith)
                requires
                    row < self.cells_y,
            ;
        }
        (row as usize) * (self.cells_x as usize)
    }

    /// The `(column, row)` pair of a cell, or `None` outside the lattice.
    pub fn cell_position(&self, x: u32, y: u32) -> (r: Option<(u32, u32)>)
        ensures
            x < self.cells_x && y < self.cells_y ==> r == Some((x, y)),
            !(x < self.cells_x && y < self.cells_y) ==> r is None,
    {
        if x < self.cells_x && y < self.cells_y {
            Some((x, y))
        } else {
            None
        }
    }

    /// Every cell, row-major: the `i`-th entry is cell `i`.
    pub fn iter(&self) -> (r: Vec<(u32, u32)>)
        requires
            self.wf(),
        ensures
            r@ == grid_cells(self.cells_x as nat, self.cells_y as nat),
    {
        let whole = GridStrip { start: 0, height: self.cells_y };
        let cells = whole.iter(self);
        proof {
            assert(self.cells_y as nat * self.cells_x as nat == self.spec_num_cells())
                by (nonlinear_arith);
            assert(cells@ =~= grid_cells(self.cells_x as nat, self.cells_y as nat));
        }
        cells
    }

    /// The partition of the rows into strips of height `height` (0 counts as 1),
    /// as `strip_at` lays it out.
    pub fn iter_strips(&self, height: u32) -> (r: Vec<GridStrip>)
        requires
            self.wf(),
        ensures
            r@.len() == strip_count(self.cells_y as nat, clamp_height(height as nat)),
            forall|k: int|
                0 <= k < r@.len() ==> r@[k] == strip_at(
                    self.cells_y as nat,
                    clamp_height(height as nat),
                    k as nat,
                ),
            is_row_partition(r@, self.cells_y as nat),
    {
        let rows = self.cells_y;
        let h: u32 = if height == 0 { 1 } else { height };
        let q = rows / h;
        let rem = rows % h;
        proof {
            lemma_fundamental_div_mod(rows as int, h as int);
            assert(rem != 0 ==> q < u32::MAX) by (nonlinear_arith)
                requires
                    rows == h * q + rem,
                    rem < h,
                    rows <= u32::MAX,
            ;
        }
        let n: u32 = if rem == 0 {
            q
        } else if rem == 1 && q > 0 {
            q
        } else {
            q + 1
        };
        proof {
            lemma_fundamental_div_mod(rows as int, h as int);
            assert(n == strip_count(rows as nat, h as nat));
            assert(n >= 1) by (nonlinear_arith)
                requires
                    rows == h * q + rem,
                    rows > 0,
                    rem == 0 ==> n == q,
                    rem != 0 ==> n >= q,
                    rem == 1 && q > 0 ==> n == q,
                    !(rem == 1 && q > 0) && rem != 0 ==> n == q + 1,
            ;
            assert((n - 1) * h <= rows) by (nonlinear_arith)
                requires
                    rows == h * q + rem,
                    n >= 1,
                    n <= q + 1,
                    n == q + 1 ==> rem >= 1,
            ;
        }
        let mut strips: Vec<GridStrip> = Vec::new();
        let mut k: u32 = 0;
        while k < n
            invariant
                self.wf(),
                rows == self.cells_y,
                h == clamp_height(height as nat),
                n == strip_count(rows as nat, h as nat),
                n >= 1,
                (n - 1) * h <= rows,
                rows == h * q + rem,
                q == rows / h,
                rem == rows % h,
                k <= n,
                strips@.len() == k,
                forall|j: int| 0 <= j < k ==> strips@[j] == strip_at(rows as nat, h as nat, j as nat),
            decreases n - k,
        {
            proof {
                assert(k * h <= (n - 1) * h) by (nonlinear_arith)
                    requires
                        k < n,
                ;
            }
            let start = k * h;
            let strip = if k + 1 == n {
                GridStrip { start, height: rows - start }
            } else {
                GridStrip { start, height: h }
            };
            strips.push(strip);
            k = k + 1;
        }
        proof {
            self.lemma_strips_partition(strips@, h as nat);
            assert(h == clamp_height(height as nat));
        }
        strips
    }

    proof fn lemma_strips_partition(self, strips: Seq<GridStrip>, h: nat)
        requires
            self.wf(),
            h > 0,
            h <= u32::MAX,
            strips.len() == strip_count(self.cells_y as nat, h),
            forall|j: int|
                0 <= j < strips.len() ==> strips[j] == strip_at(self.cells_y as nat, h, j as nat),
        ensures
            is_row_partition(strips, self.cells_y as nat),
    {
        let rows = self.cells_y as nat;
        let n = strips.len();
        let q = rows / h;
        let rem = rows % h;
        lemma_fundamental_div_mod(rows as int, h as int);
        assert(n >= 1) by (nonlinear_arith)
            requires
                rows == h * q + rem,
                rows > 0,
                n == strip_count(rows, h),
                q == rows / h,
                rem == rows % h,
        ;
        assert((n - 1) * h <= rows) by (nonlinear_arith)
            requires
                rows == h * q + rem,
                n == strip_count(rows, h),
                q == rows / h,
                rem == rows % h,
                n >= 1,
        ;
        assert(rows - (n - 1) * h > 0) by (nonlinear_arith)
            requires
                rows == h * q + rem,
                n == strip_count(rows, h),
                q == rows / h,
                rem == rows % h,
                rem < h,
                n >= 1,
        ;
        assert forall|k: int| 0 <= k < n implies #[trigger] strips[k].height > 0 by {
            if k + 1 != n {
                assert(strips[k].height == h as u32);
            }
        }
        assert forall|k: int| 0 <= k < n - 1 implies #[trigger] strips[k + 1].start
            == strips[k].start + strips[k].height by {
            assert((k + 1) * h == k * h + h) by (nonlinear_arith);
            assert((k + 1) * h <= (n - 1) * h) by (nonlinear_arith)
                requires
                    k + 1 <= n - 1,
            ;
        }
        assert(strips[0].start == 0);
    }
}

} // verus!
