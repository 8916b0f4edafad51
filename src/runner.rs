use vstd::prelude::*;
use crate::fractal::FractalOrbit;
use crate::grid::{
    Grid, GridStrip, cell_of, grid_cells, strip_cells, strip_holds_row, is_row_partition,
    lemma_cell_index, lemma_partition_ordered, lemma_partition_covers_once,
};

verus! {

/// Why an evaluation failed as a whole.
#[derive(Debug)]
pub enum RunnerError {
    /// The strip results handed back do not make up the grid exactly once.
    RunnerError(String),
    /// Work could not be handed to a worker.
    SendError(String),
    /// A result could not be received from the workers.
    RecvError(String),
    /// A worker terminated abnormally.
    ThreadError(String),
}

/// An evaluation strategy: one classification per grid cell, row-major.
pub trait FractalRunner<T> {
    /// The grids on which the strategy can run.
    spec fn runs_on(&self, grid: Grid) -> bool;

    /// The grids on which a run succeeds.
    spec fn succeeds_on(&self, grid: Grid) -> bool;

    /// What a successful run yields on `grid`.
    spec fn produces(&self, grid: Grid, values: Seq<T>) -> bool;

    fn run(&self, grid: &Grid) -> (r: Result<Vec<T>, RunnerError>)
        requires
            grid.wf(),
            self.runs_on(*grid),
        ensures
            r is Ok <==> self.succeeds_on(*grid),
            r matches Ok(v) ==> self.produces(*grid, v@),
    ;
}

/// A classifier may be called on every cell.
pub open spec fn classifies_all<F: Fn(u32, u32) -> FractalOrbit>(classify: F) -> bool {
    forall|x: u32, y: u32| classify.requires((x, y))
}

/// `values` holds, in order, one classification by `classify` of each of `cells`.
pub open spec fn classified<F: Fn(u32, u32) -> FractalOrbit>(
    classify: F,
    cells: Seq<(u32, u32)>,
    values: Seq<FractalOrbit>,
) -> bool {
    &&& values.len() == cells.len()
    &&& forall|k: int|
        0 <= k < cells.len() ==> classify.ensures((cells[k].0, cells[k].1), #[trigger] values[k])
}

/// Classifies the cells of one strip, row-major: the work of one worker on one strip.
pub fn evaluate_strip<F: Fn(u32, u32) -> FractalOrbit>(
    grid: &Grid,
    strip: &GridStrip,
    classify: &F,
) -> (r: Vec<FractalOrbit>)
    requires
        grid.wf(),
        strip.fits(*grid),
        classifies_all(*classify),
    ensures
        classified(*classify, strip_cells(grid.cells_x as nat, *strip), r@),
{
    let cells = strip.iter(grid);
    let mut out: Vec<FractalOrbit> = Vec::new();
    let mut k: usize = 0;
    while k < cells.len()
        invariant
            classifies_all(*classify),
            cells@ == strip_cells(grid.cells_x as nat, *strip),
            k <= cells@.len(),
            out@.len() == k,
            forall|j: int|
                0 <= j < k ==> classify.ensures((cells@[j].0, cells@[j].1), #[trigger] out@[j]),
        decreases cells@.len() - k,
    {
        let (x, y) = cells[k];
        let o = classify(x, y);
        out.push(o);
        k = k + 1;
    }
    out
}

/// Classifies every cell of the grid on the calling thread, row-major.
pub fn run_sequential<F: Fn(u32, u32) -> FractalOrbit>(grid: &Grid, classify: &F) -> (r: Vec<
    FractalOrbit,
>)
    requires
        grid.wf(),
        classifies_all(*classify),
    ensures
        classified(*classify, grid_cells(grid.cells_x as nat, grid.cells_y as nat), r@),
{
    let cells = grid.iter();
    let mut out: Vec<FractalOrbit> = Vec::new();
    let mut k: usize = 0;
    while k < cells.len()
        invariant
            classifies_all(*classify),
            cells@ == grid_cells(grid.cells_x as nat, grid.cells_y as nat),
            k <= cells@.len(),
            out@.len() == k,
            forall|j: int|
                0 <= j < k ==> classify.ensures((cells@[j].0, cells@[j].1), #[trigger] out@[j]),
        decreases cells@.len() - k,
    {
        let (x, y) = cells[k];
        let o = classify(x, y);
        out.push(o);
        k = k + 1;
    }
    out
}

/// Evaluates a grid on the calling thread with one classifier.
pub struct SyncronousRunner<F> {
    fractal: F,
}

impl<F: Fn(u32, u32) -> FractalOrbit> SyncronousRunner<F> {
    pub fn new(fractal: F) -> (r: Self)
        ensures
            r.spec_fractal() == fractal,
    {
        SyncronousRunner { fractal }
    }

    pub closed spec fn spec_fractal(&self) -> F {
        self.fractal
    }

    pub fn fractal(&self) -> (r: &F)
        ensures
            *r == self.spec_fractal(),
    {
        &self.fractal
    }
}

impl<F: Fn(u32, u32) -> FractalOrbit> FractalRunner<FractalOrbit> for SyncronousRunner<F> {
    open spec fn runs_on(&self, grid: Grid) -> bool {
        classifies_all(self.spec_fractal())
    }

    open spec fn succeeds_on(&self, grid: Grid) -> bool {
        true
    }

    open spec fn produces(&self, grid: Grid, values: Seq<FractalOrbit>) -> bool {
        classified(self.spec_fractal(), grid_cells(grid.cells_x as nat, grid.cells_y as nat), values)
    }

    fn run(&self, grid: &Grid) -> (r: Result<Vec<FractalOrbit>, RunnerError>) {
        Ok(run_sequential(grid, &self.fractal))
    }
}

/// Evaluates a grid on a fixed pool of workers, handing out single-row strips
/// round-robin.
pub struct MultiThreadedRunner<T> {
    fractal: T,
    num_threads: usize,
}

impl<T> MultiThreadedRunner<T> {
    pub fn new(fractal: T, num_threads: usize) -> (r: Self)
        requires
            num_threads >= 1,
        ensures
            r.spec_fractal() == fractal,
            r.spec_num_threads() == num_threads,
    {
        MultiThreadedRunner { fractal, num_threads }
    }

    pub closed spec fn spec_fractal(&self) -> T {
        self.fractal
    }

    pub closed spec fn spec_num_threads(&self) -> nat {
        self.num_threads as nat
    }

    pub fn fractal(&self) -> (r: &T)
        ensures
            *r == self.spec_fractal(),
    {
        &self.fractal
    }

    pub fn num_threads(&self) -> (r: usize)
        ensures
            r == self.spec_num_threads(),
    {
        self.num_threads
    }

    /// The worker that receives each of `num_strips` strips, in partition order:
    /// strip `k` goes to worker `k % num_threads`.
    pub fn dispatch_plan(&self, num_strips: usize) -> (r: Vec<usize>)
        requires
            self.spec_num_threads() >= 1,
        ensures
            r@.len() == num_strips,
            forall|k: int| 0 <= k < num_strips ==> r@[k] == k % self.spec_num_threads() as int,
    {
        let n = self.num_threads;
        let mut plan: Vec<usize> = Vec::new();
        let mut target: usize = 0;
        let ghost mut round: nat = 0;
        while plan.len() < num_strips
            invariant
                n == self.spec_num_threads(),
                n >= 1,
                plan@.len() <= num_strips,
                target < n,
                plan@.len() == round * n + target,
                forall|k: int| 0 <= k < plan@.len() ==> plan@[k] == k % n as int,
            decreases num_strips - plan@.len(),
        {
            proof {
                lemma_cell_index(n as nat, round, target as nat);
            }
            plan.push(target);
            if target + 1 == n {
                target = 0;
                proof {
                    round = round + 1;
                    assert(round * n == (round - 1) * n + n) by (nonlinear_arith);
                }
            } else {
                target = target + 1;
            }
        }
        plan
    }
}

/// A strip result fits the grid: the strip lies in it, with one value per cell.
pub open spec fn result_fits(grid: Grid, strip: GridStrip, data: Seq<FractalOrbit>) -> bool {
    &&& strip.fits(grid)
    &&& data.len() == strip.height as nat * grid.cells_x as nat
}

/// Two strips share a row.
pub open spec fn strips_overlap(a: GridStrip, b: GridStrip) -> bool {
    &&& a.height > 0
    &&& b.height > 0
    &&& a.start < b.start as nat + b.height as nat
    &&& b.start < a.start as nat + a.height as nat
}

/// The strip results make up the grid exactly once: each fits, no two share a
/// row, and every row is in one of them.
pub open spec fn well_placed(grid: Grid, results: Seq<(GridStrip, Vec<FractalOrbit>)>) -> bool {
    &&& forall|j: int| 0 <= j < results.len() ==> result_fits(grid, #[trigger] results[j].0, results[j].1@)
    &&& forall|i: int, j: int|
        0 <= i < results.len() && 0 <= j < results.len() && i != j ==> !strips_overlap(
            #[trigger] results[i].0,
            #[trigger] results[j].0,
        )
    &&& forall|row: nat| row < grid.cells_y ==> #[trigger] row_taken(results, results.len() as int, row)
}

/// `values` carries each strip's data at the strip's own place in row-major order.
pub open spec fn placed(
    grid: Grid,
    results: Seq<(GridStrip, Vec<FractalOrbit>)>,
    n: int,
    values: Seq<FractalOrbit>,
) -> bool {
    forall|j: int, k: int|
        0 <= j < n && 0 <= k < results[j].1@.len() ==> values[results[j].0.start as int
            * grid.cells_x as int + k] == #[trigger] results[j].1@[k]
}

/// Row `row` is in one of the first `n` strips.
pub open spec fn row_taken(results: Seq<(GridStrip, Vec<FractalOrbit>)>, n: int, row: nat) -> bool {
    exists|j: int| 0 <= j < n && strip_holds_row(#[trigger] results[j].0, row)
}

/// A cell of one strip is never a cell of a strip that shares no row with it.
proof fn lemma_disjoint_spans(w: nat, a: GridStrip, b: GridStrip, k: int)
    requires
        !strips_overlap(a, b),
        0 <= k < a.height as nat * w,
    ensures
        !(b.start as nat * w <= a.start as nat * w + k < b.start as nat * w + b.height as nat * w),
{
    let sa = a.start as nat;
    let ha = a.height as nat;
    let sb = b.start as nat;
    let hb = b.height as nat;
    if hb == 0 {
    } else if ha == 0 {
        assert(ha * w == 0) by (nonlinear_arith)
            requires
                ha == 0,
        ;
    } else if sa + ha <= sb {
        assert(sa * w + k < sb * w) by (nonlinear_arith)
            requires
                sa + ha <= sb,
                k < ha * w,
        ;
    } else {
        assert(sb + hb <= sa);
        assert(sb * w + hb * w <= sa * w) by (nonlinear_arith)
            requires
                sb + hb <= sa,
        ;
    }
}

/// Cells of rows `[start, start + height)` occupy indices `[start * w, (start + height) * w)`.
proof fn lemma_strip_span(w: nat, start: nat, height: nat, k: int)
    requires
        0 <= k < height * w,
    ensures
        start * w <= start * w + k < (start + height) * w,
{
    assert((start + height) * w == start * w + height * w) by (nonlinear_arith);
}

/// Places each strip's classifications at the strip's own rows, whatever order
/// the results come in. Fails unless the results make up the grid exactly once.
#[verifier::loop_isolation(false)]
pub fn assemble(grid: &Grid, results: &Vec<(GridStrip, Vec<FractalOrbit>)>) -> (r: Result<
    Vec<FractalOrbit>,
    RunnerError,
>)
    requires
        grid.wf(),
    ensures
        r is Ok <==> well_placed(*grid, results@),
        r matches Ok(v) ==> v@.len() == grid.spec_num_cells() && placed(
            *grid,
            results@,
            results@.len() as int,
            v@,
        ),
        r matches Err(e) ==> e is RunnerError,
{
    let w = grid.cells_x;
    let rows = grid.cells_y;
    let total = grid.num_cells();
    let mut values: Vec<FractalOrbit> = Vec::new();
    while values.len() < total
        invariant
            values@.len() <= total,
        decreases total - values@.len(),
    {
        values.push(FractalOrbit::Bounded);
    }
    let mut covered: Vec<bool> = Vec::new();
    while covered.len() < rows as usize
        invariant
            covered@.len() <= rows,
            forall|y: int| 0 <= y < covered@.len() ==> !#[trigger] covered@[y],
        decreases rows - covered@.len(),
    {
        covered.push(false);
    }
    let mut i: usize = 0;
    while i < results.len()
        invariant
            grid.wf(),
            w == grid.cells_x,
            rows == grid.cells_y,
            total == grid.spec_num_cells(),
            values@.len() == total,
            covered@.len() == rows,
            i <= results@.len(),
            forall|j: int| 0 <= j < i ==> result_fits(*grid, #[trigger] results@[j].0, results@[j].1@),
            forall|a: int, b: int|
                0 <= a < i && 0 <= b < i && a != b ==> !strips_overlap(
                    #[trigger] results@[a].0,
                    #[trigger] results@[b].0,
                ),
            forall|y: nat| y < rows ==> (covered@[y as int] <==> row_taken(results@, i as int, y)),
            placed(*grid, results@, i as int, values@),
        decreases results@.len() - i,
    {
        let strip = results[i].0;
        let data = &results[i].1;
        let end = strip.start as u64 + strip.height as u64;
        if end > rows as u64 {
            proof {
                assert(!result_fits(*grid, results@[i as int].0, results@[i as int].1@));
            }
            return Err(RunnerError::RunnerError("a strip lies outside the grid".to_string()));
        }
        let cells = grid.num_cells_in_strip(&strip);
        if data.len() != cells {
            proof {
                assert(!result_fits(*grid, results@[i as int].0, results@[i as int].1@));
            }
            return Err(RunnerError::RunnerError("a strip result has the wrong length".to_string()));
        }
        let mut y = strip.start;
        while y < strip.start + strip.height
            invariant
                covered@.len() == rows,
                strip == results@[i as int].0,
                strip.start as nat + strip.height as nat <= rows,
                strip.start <= y <= strip.start + strip.height,
                forall|yy: nat| strip.start <= yy < y ==> !#[trigger] covered@[yy as int],
            decreases strip.start + strip.height - y,
        {
            if covered[y as usize] {
                proof {
                    let yy = y as nat;
                    assert(strip_holds_row(results@[i as int].0, yy));
                    assert(row_taken(results@, i as int, yy));
                    let j = choose|j: int| 0 <= j < i && strip_holds_row(#[trigger] results@[j].0, yy);
                    assert(strips_overlap(results@[j].0, results@[i as int].0));
                    assert(!well_placed(*grid, results@));
                }
                return Err(RunnerError::RunnerError("two strip results share a row".to_string()));
            }
            y = y + 1;
        }
        let ghost old_values = values@;
        let ghost old_covered = covered@;
        proof {
            assert(strip.start as nat * w as nat <= total) by (nonlinear_arith)
                requires
                    strip.start <= rows,
                    total == w as nat * rows as nat,
            ;
        }
        let base = (strip.start as usize) * (w as usize);
        let mut k: usize = 0;
        while k < data.len()
            invariant
                grid.wf(),
                w == grid.cells_x,
                values@.len() == total,
                total == grid.spec_num_cells(),
                strip == results@[i as int].0,
                data == results@[i as int].1,
                data@.len() == strip.height as nat * w as nat,
                strip.start as nat + strip.height as nat <= rows,
                rows == grid.cells_y,
                base == strip.start as nat * w as nat,
                k <= data@.len(),
                forall|kk: int| 0 <= kk < k ==> values@[base + kk] == #[trigger] data@[kk],
                forall|p: int|
                    0 <= p < total && !(base <= p < base + k) ==> values@[p] == old_values[p],
            decreases data@.len() - k,
        {
            proof {
                lemma_strip_span(w as nat, strip.start as nat, strip.height as nat, k as int);
                assert((strip.start as nat + strip.height as nat) * w as nat <= total)
                    by (nonlinear_arith)
                    requires
                        strip.start as nat + strip.height as nat <= rows,
                        total == w as nat * rows as nat,
                ;
            }
            values.set(base + k, data[k]);
            k = k + 1;
        }
        let mut y = strip.start;
        while y < strip.start + strip.height
            invariant
                covered@.len() == rows,
                strip.start as nat + strip.height as nat <= rows,
                strip.start <= y <= strip.start + strip.height,
                old_covered.len() == rows,
                forall|yy: int|
                    0 <= yy < rows ==> #[trigger] covered@[yy] == (old_covered[yy] || (
                    strip.start <= yy < y)),
            decreases strip.start + strip.height - y,
        {
            covered.set(y as usize, true);
            y = y + 1;
        }
        proof {
            let ii = i as int;
            // the new strip shares no row with an earlier one
            assert forall|a: int| 0 <= a < ii implies !strips_overlap(results@[a].0, results@[ii].0)
                && !strips_overlap(results@[ii].0, results@[a].0) by {
                let sa = results@[a].0;
                if strips_overlap(sa, strip) {
                    let r: nat = if sa.start >= strip.start { sa.start as nat } else { strip.start as nat };
                    assert(strip_holds_row(results@[a].0, r));
                    assert(row_taken(results@, ii, r));
                    assert(!old_covered[r as int]);
                }
            }
            assert forall|a: int, b: int|
                0 <= a < ii + 1 && 0 <= b < ii + 1 && a != b implies !strips_overlap(
                    #[trigger] results@[a].0,
                    #[trigger] results@[b].0,
                ) by {
                if a == ii || b == ii {
                }
            }
            assert forall|y: nat| y < rows implies (covered@[y as int] <==> row_taken(results@, ii + 1, y)) by {
                if covered@[y as int] {
                    if !old_covered[y as int] {
                        assert(strip_holds_row(results@[ii].0, y));
                    }
                }
                if row_taken(results@, ii + 1, y) {
                    let j = choose|j: int| 0 <= j < ii + 1 && strip_holds_row(#[trigger] results@[j].0, y);
                    if j < ii {
                        assert(row_taken(results@, ii, y));
                    }
                }
            }
            assert forall|j: int, k: int|
                0 <= j < ii + 1 && 0 <= k < results@[j].1@.len() implies values@[results@[j].0.start as int
                    * grid.cells_x as int + k] == #[trigger] results@[j].1@[k] by {
                if j < ii {
                    let sj = results@[j].0;
                    assert(result_fits(*grid, sj, results@[j].1@));
                    lemma_disjoint_spans(w as nat, sj, strip, k);
                    lemma_strip_span(w as nat, sj.start as nat, sj.height as nat, k);
                    assert((sj.start as nat + sj.height as nat) * w as nat <= total)
                        by (nonlinear_arith)
                        requires
                            sj.start as nat + sj.height as nat <= rows,
                            total == w as nat * rows as nat,
                    ;
                }
            }
        }
        i = i + 1;
    }
    let mut y: u32 = 0;
    while y < rows
        invariant
            covered@.len() == rows,
            y <= rows,
            forall|yy: int| 0 <= yy < y ==> #[trigger] covered@[yy],
            forall|yy: nat|
                yy < rows ==> (covered@[yy as int] <==> row_taken(results@, results@.len() as int, yy)),
        decreases rows - y,
    {
        if !covered[y as usize] {
            proof {
                assert(!row_taken(results@, results@.len() as int, y as nat));
            }
            return Err(RunnerError::RunnerError("a row has no strip result".to_string()));
        }
        y = y + 1;
    }
    proof {
        assert forall|row: nat| row < grid.cells_y implies #[trigger] row_taken(results@, results@.len() as int, row) by {
            assert(covered@[row as int]);
        }
    }
    Ok(values)
}

/// Some entry of `origin` is `k`.
pub open spec fn carried(origin: Seq<int>, k: int) -> bool {
    exists|j: int| 0 <= j < origin.len() && #[trigger] origin[j] == k
}

/// Results that carry each strip of a row partition exactly once, in any order,
/// each with one value per cell, make up the grid: assembling them succeeds.
/// `origin[j]` is the partition index of the strip of `results[j]`.
pub proof fn lemma_partition_results_well_placed(
    grid: Grid,
    strips: Seq<GridStrip>,
    results: Seq<(GridStrip, Vec<FractalOrbit>)>,
    origin: Seq<int>,
)
    requires
        grid.wf(),
        is_row_partition(strips, grid.cells_y as nat),
        origin.len() == results.len(),
        forall|j: int|
            0 <= j < results.len() ==> 0 <= #[trigger] origin[j] < strips.len() && results[j].0
                == strips[origin[j]] && results[j].1@.len() == results[j].0.height as nat
                * grid.cells_x as nat,
        forall|i: int, j: int|
            0 <= i < results.len() && 0 <= j < results.len() && i != j ==> #[trigger] origin[i]
                != #[trigger] origin[j],
        forall|k: int| 0 <= k < strips.len() ==> #[trigger] carried(origin, k),
    ensures
        well_placed(grid, results),
{
    let rows = grid.cells_y as nat;
    let last = strips.len() - 1;
    assert forall|j: int| 0 <= j < results.len() implies result_fits(grid, #[trigger] results[j].0, results[j].1@) by {
        let k = origin[j];
        if k < last {
            lemma_partition_ordered(strips, rows, k, last);
        }
    }
    assert forall|i: int, j: int|
        0 <= i < results.len() && 0 <= j < results.len() && i != j implies !strips_overlap(
            #[trigger] results[i].0,
            #[trigger] results[j].0,
        ) by {
        let a = origin[i];
        let b = origin[j];
        if a < b {
            lemma_partition_ordered(strips, rows, a, b);
        } else {
            lemma_partition_ordered(strips, rows, b, a);
        }
    }
    assert forall|row: nat| row < grid.cells_y implies #[trigger] row_taken(results, results.len() as int, row) by {
        lemma_partition_covers_once(strips, rows, row);
        let k = choose|k: int| 0 <= k < strips.len() && strip_holds_row(#[trigger] strips[k], row);
        assert(carried(origin, k));
        let j = choose|j: int| 0 <= j < origin.len() && #[trigger] origin[j] == k;
        assert(strip_holds_row(results[j].0, row));
    }
}

/// A classifier answers each cell as `orbit` does.
pub open spec fn follows<F: Fn(u32, u32) -> FractalOrbit>(
    classify: F,
    orbit: spec_fn(u32, u32) -> FractalOrbit,
) -> bool {
    forall|x: u32, y: u32, o: FractalOrbit| #[trigger] classify.ensures((x, y), o) ==> o == orbit(x, y)
}

/// What a classifier that answers as `orbit` yields on `cells`.
proof fn lemma_classified_follows<F: Fn(u32, u32) -> FractalOrbit>(
    classify: F,
    orbit: spec_fn(u32, u32) -> FractalOrbit,
    cells: Seq<(u32, u32)>,
    values: Seq<FractalOrbit>,
)
    requires
        follows(classify, orbit),
        classified(classify, cells, values),
    ensures
        forall|k: int| 0 <= k < cells.len() ==> values[k] == orbit(#[trigger] cells[k].0, cells[k].1),
{
    assert forall|k: int| 0 <= k < cells.len() implies values[k] == orbit(#[trigger] cells[k].0, cells[k].1) by {
        assert(classify.ensures((cells[k].0, cells[k].1), values[k]));
    }
}

/// Parallel evaluation gives what sequential evaluation gives, for any number of
/// workers and any arrival order: `sequential` is the whole grid classified on
/// one thread, `results` the strips classified by the workers and received in
/// any order, and `parallel` their assembly.
pub proof fn lemma_parallel_equals_sequential<F: Fn(u32, u32) -> FractalOrbit>(
    grid: Grid,
    classify: F,
    orbit: spec_fn(u32, u32) -> FractalOrbit,
    sequential: Seq<FractalOrbit>,
    results: Seq<(GridStrip, Vec<FractalOrbit>)>,
    parallel: Seq<FractalOrbit>,
)
    requires
        grid.wf(),
        follows(classify, orbit),
        classified(classify, grid_cells(grid.cells_x as nat, grid.cells_y as nat), sequential),
        forall|j: int|
            0 <= j < results.len() ==> classified(
                classify,
                strip_cells(grid.cells_x as nat, #[trigger] results[j].0),
                results[j].1@,
            ),
        well_placed(grid, results),
        parallel.len() == grid.spec_num_cells(),
        placed(grid, results, results.len() as int, parallel),
    ensures
        parallel == sequential,
{
    let w = grid.cells_x as nat;
    let cells = grid_cells(w, grid.cells_y as nat);
    lemma_classified_follows(classify, orbit, cells, sequential);
    assert forall|i: int| 0 <= i < parallel.len() implies parallel[i] == sequential[i] by {
        let y = (i / w as int) as nat;
        vstd::arithmetic::div_mod::lemma_fundamental_div_mod(i, w as int);
        assert(y < grid.cells_y) by (nonlinear_arith)
            requires
                i == w * y + i % (w as int),
                i % (w as int) >= 0,
                i < w * grid.cells_y,
        ;
        assert(row_taken(results, results.len() as int, y));
        let j = choose|j: int| 0 <= j < results.len() && strip_holds_row(#[trigger] results[j].0, y);
        let s = results[j].0;
        let data = results[j].1@;
        assert(result_fits(grid, s, data));
        let k = i - s.start as nat * w;
        assert(0 <= k < s.height as nat * w) by (nonlinear_arith)
            requires
                i == w * y + i % (w as int),
                0 <= i % (w as int) < w,
                s.start <= y < s.start + s.height,
                k == i - s.start as nat * w,
        ;
        let scells = strip_cells(w, s);
        lemma_classified_follows(classify, orbit, scells, data);
        assert(parallel[s.start as int * w as int + k] == data[k]);
        assert(scells[k] == cell_of(w, (s.start as nat * w + k) as nat));
        assert(data[k] == orbit(scells[k].0, scells[k].1));
        assert(sequential[i] == orbit(cells[i].0, cells[i].1));
    }
    assert(parallel =~= sequential);
}

} // verus!
