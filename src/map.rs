use vstd::prelude::*;
use vstd::arithmetic::power2::{pow2, lemma_pow2_unfold, lemma_pow2_strictly_increases};
use crate::fractal::FractalOrbit;
use crate::grid::lemma_cell_index;

verus! {

/// The intensity `1.0`: an escaped cell's intensity `v` stands for `v / INTENSITY_ONE`.
pub const INTENSITY_ONE: u64 = 0x1_0000_0000;

/// Intensity of one output cell: a value in `[0, 1]` in units of
/// `1 / INTENSITY_ONE`, or the marker of a cell that never escaped.
#[derive(Copy, Clone, Debug, PartialEq, Eq, Structural)]
pub enum MappedCellIntensity {
    EscapedValue(u64),
    BoundedValue,
}

/// A row-major field of intensities, `width` by `height`.
pub struct MappingResult {
    pub values: Vec<MappedCellIntensity>,
    pub width: usize,
    pub height: usize,
}

/// A cell intensity lies in `[0, 1]`.
pub open spec fn intensity_ok(c: MappedCellIntensity) -> bool {
    match c {
        MappedCellIntensity::EscapedValue(v) => v <= INTENSITY_ONE,
        MappedCellIntensity::BoundedValue => true,
    }
}

/// A mapping `(width, height, values)` is well formed: one value per cell, each in `[0, 1]`.
pub open spec fn mapping_wf(m: (nat, nat, Seq<MappedCellIntensity>)) -> bool {
    &&& m.2.len() == m.0 * m.1
    &&& forall|i: int| 0 <= i < m.2.len() ==> intensity_ok(#[trigger] m.2[i])
}

impl View for MappingResult {
    type V = (nat, nat, Seq<MappedCellIntensity>);

    open spec fn view(&self) -> (nat, nat, Seq<MappedCellIntensity>) {
        (self.width as nat, self.height as nat, self.values@)
    }
}

impl MappingResult {
    pub open spec fn wf(&self) -> bool {
        mapping_wf(self@)
    }
}

/// The escape time of `o`, if any, is at most `max_iter`.
pub open spec fn orbit_within(o: FractalOrbit, max_iter: nat) -> bool {
    match o {
        FractalOrbit::Escaped(t) => t <= max_iter,
        FractalOrbit::Bounded => true,
    }
}

/// Every escape time in `vals` is at most `max_iter`.
pub open spec fn escapes_within(vals: Seq<FractalOrbit>, max_iter: nat) -> bool {
    forall|i: int| 0 <= i < vals.len() ==> orbit_within(#[trigger] vals[i], max_iter)
}

/// A strategy that turns a row-major classification array into intensities.
pub trait OrbitMapper {
    /// The inputs on which the strategy is defined.
    spec fn accepts(&self, width: nat, height: nat, vals: Seq<FractalOrbit>) -> bool;

    /// What the strategy yields: `(width, height, values)`.
    spec fn mapping(&self, width: nat, height: nat, vals: Seq<FractalOrbit>) -> (
        nat,
        nat,
        Seq<MappedCellIntensity>,
    );

    fn map(&self, width: usize, height: usize, vals: &[FractalOrbit]) -> (r: MappingResult)
        requires
            self.accepts(width as nat, height as nat, vals@),
        ensures
            r@ == self.mapping(width as nat, height as nat, vals@),
            r.wf(),
    ;
}

/// Maps escape time `t` to `t / max_iter`.
pub struct LinearMapper {
    pub max_iter: usize,
}

/// The linear intensity of one classification.
pub open spec fn linear_value(max_iter: nat, o: FractalOrbit) -> MappedCellIntensity {
    match o {
        FractalOrbit::Escaped(t) => MappedCellIntensity::EscapedValue(
            (t as nat * INTENSITY_ONE as nat / max_iter) as u64,
        ),
        FractalOrbit::Bounded => MappedCellIntensity::BoundedValue,
    }
}

/// Linear mapping sends an escape at the iteration limit to exactly `1.0`, and
/// a bounded cell to the bounded marker.
pub proof fn lemma_linear_full_scale(max_iter: nat)
    requires
        0 < max_iter <= u32::MAX,
    ensures
        linear_value(max_iter, FractalOrbit::Escaped(max_iter as u32))
            == MappedCellIntensity::EscapedValue(INTENSITY_ONE),
        linear_value(max_iter, FractalOrbit::Bounded) == MappedCellIntensity::BoundedValue,
{
    assert(max_iter * INTENSITY_ONE as nat / max_iter == INTENSITY_ONE as nat) by (nonlinear_arith)
        requires
            max_iter > 0,
    ;
}

impl LinearMapper {
    pub fn new(max_iter: usize) -> (r: Self)
        ensures
            r.max_iter == max_iter,
    {
        LinearMapper { max_iter }
    }

    /// The intensity of one classification.
    pub fn map_orbit(&self, val: FractalOrbit) -> (r: MappedCellIntensity)
        requires
            self.max_iter > 0,
            orbit_within(val, self.max_iter as nat),
        ensures
            r == linear_value(self.max_iter as nat, val),
            intensity_ok(r),
    {
        match val {
            FractalOrbit::Bounded => MappedCellIntensity::BoundedValue,
            FractalOrbit::Escaped(t) => {
                proof {
                    assert(t as nat * INTENSITY_ONE <= u32::MAX as nat * INTENSITY_ONE)
                        by (nonlinear_arith);
                    assert(t as nat * INTENSITY_ONE as nat / self.max_iter as nat <= INTENSITY_ONE)
                        by (nonlinear_arith)
                        requires
                            t <= self.max_iter,
                            self.max_iter > 0,
                    ;
                }
                let v = (t as u64) * INTENSITY_ONE / (self.max_iter as u64);
                MappedCellIntensity::EscapedValue(v)
            },
        }
    }
}

impl OrbitMapper for LinearMapper {
    open spec fn accepts(&self, width: nat, height: nat, vals: Seq<FractalOrbit>) -> bool {
        &&& self.max_iter > 0
        &&& vals.len() == width * height
        &&& escapes_within(vals, self.max_iter as nat)
    }

    open spec fn mapping(&self, width: nat, height: nat, vals: Seq<FractalOrbit>) -> (
        nat,
        nat,
        Seq<MappedCellIntensity>,
    ) {
        (width, height, vals.map_values(|o: FractalOrbit| linear_value(self.max_iter as nat, o)))
    }

    fn map(&self, width: usize, height: usize, vals: &[FractalOrbit]) -> (r: MappingResult) {
        let mut out: Vec<MappedCellIntensity> = Vec::new();
        let mut i: usize = 0;
        while i < vals.len()
            invariant
                self.accepts(width as nat, height as nat, vals@),
                i <= vals@.len(),
                out@.len() == i,
                forall|j: int|
                    0 <= j < i ==> out@[j] == linear_value(self.max_iter as nat, vals@[j]),
                forall|j: int| 0 <= j < i ==> intensity_ok(#[trigger] out@[j]),
            decreases vals@.len() - i,
        {
            let o = vals[i];
            let c = self.map_orbit(o);
            out.push(c);
            i = i + 1;
        }
        let r = MappingResult { values: out, width, height };
        assert(r.values@ =~= vals@.map_values(
            |o: FractalOrbit| linear_value(self.max_iter as nat, o),
        ));
        r
    }
}

/// Spreads escape times evenly over `[0, 1]`: a cell that escaped at time `t`
/// maps to the share of all cells (bounded ones included) that escaped at a time
/// no later than `t`.
pub struct HistogramLinearMapper {
    pub max_iter: usize,
}

/// Number of cells of `vals` that escaped at time exactly `t`.
pub open spec fn escaped_exactly(vals: Seq<FractalOrbit>, t: nat) -> nat
    decreases vals.len(),
{
    if vals.len() == 0 {
        0
    } else {
        escaped_exactly(vals.drop_last(), t) + if vals.last() == FractalOrbit::Escaped(
            t as u32,
        ) && t <= u32::MAX {
            1nat
        } else {
            0nat
        }
    }
}

/// Number of cells of `vals` that escaped at a time no later than `t`.
pub open spec fn escaped_at_most(vals: Seq<FractalOrbit>, t: nat) -> nat
    decreases vals.len(),
{
    if vals.len() == 0 {
        0
    } else {
        escaped_at_most(vals.drop_last(), t) + match vals.last() {
            FractalOrbit::Escaped(u) => if u <= t {
                1nat
            } else {
                0nat
            },
            FractalOrbit::Bounded => 0nat,
        }
    }
}

/// The equalized intensity of one classification among `vals`.
pub open spec fn histogram_value(vals: Seq<FractalOrbit>, o: FractalOrbit) -> MappedCellIntensity {
    match o {
        FractalOrbit::Escaped(t) => MappedCellIntensity::EscapedValue(
            (escaped_at_most(vals, t as nat) * INTENSITY_ONE as nat / vals.len()) as u64,
        ),
        FractalOrbit::Bounded => MappedCellIntensity::BoundedValue,
    }
}

/// Cells escaping no later than `t` are those escaping no later than `t - 1`
/// and those escaping at `t`.
pub proof fn lemma_escaped_at_most_step(vals: Seq<FractalOrbit>, t: nat)
    ensures
        t == 0 ==> escaped_at_most(vals, t) == escaped_exactly(vals, t),
        t > 0 ==> escaped_at_most(vals, t) == escaped_at_most(vals, (t - 1) as nat)
            + escaped_exactly(vals, t),
    decreases vals.len(),
{
    if vals.len() > 0 {
        lemma_escaped_at_most_step(vals.drop_last(), t);
        if t > 0 {
            lemma_escaped_at_most_step(vals.drop_last(), t);
        }
    }
}

/// The count of cells escaping no later than `t` grows with `t` and never
/// exceeds the number of cells.
pub proof fn lemma_escaped_at_most_monotone(vals: Seq<FractalOrbit>, t1: nat, t2: nat)
    requires
        t1 <= t2,
    ensures
        escaped_at_most(vals, t1) <= escaped_at_most(vals, t2),
        escaped_at_most(vals, t2) <= vals.len(),
    decreases vals.len(),
{
    if vals.len() > 0 {
        lemma_escaped_at_most_monotone(vals.drop_last(), t1, t2);
    }
}

/// When every cell escaped, at times no later than `t`, all of them count as
/// escaping no later than `t`.
proof fn lemma_escaped_at_most_all(vals: Seq<FractalOrbit>, t: nat)
    requires
        forall|i: int|
            0 <= i < vals.len() ==> (#[trigger] vals[i] matches FractalOrbit::Escaped(u) && u
                <= t),
    ensures
        escaped_at_most(vals, t) == vals.len(),
    decreases vals.len(),
{
    if vals.len() > 0 {
        assert forall|i: int| 0 <= i < vals.drop_last().len() implies (#[trigger] vals.drop_last()[i] matches FractalOrbit::Escaped(u) && u <= t) by {
            assert(vals.drop_last()[i] == vals[i]);
        }
        lemma_escaped_at_most_all(vals.drop_last(), t);
        assert(vals.last() == vals[vals.len() - 1]);
    }
}

/// Histogram equalization keeps order and range: for a fixed set of cells, a later
/// escape never maps below an earlier one, every value lies in `[0, 1]`, and when
/// no cell is bounded the latest escape maps to exactly `1.0`.
pub proof fn lemma_histogram_monotone(vals: Seq<FractalOrbit>, t1: u32, t2: u32)
    requires
        vals.len() > 0,
        t1 <= t2,
    ensures
        histogram_value(vals, FractalOrbit::Escaped(t1)) matches MappedCellIntensity::EscapedValue(
            v1,
        ) && histogram_value(vals, FractalOrbit::Escaped(t2)) matches MappedCellIntensity::EscapedValue(
            v2,
        ) && v1 <= v2 <= INTENSITY_ONE,
        (forall|i: int|
            0 <= i < vals.len() ==> (#[trigger] vals[i] matches FractalOrbit::Escaped(u) && u
                <= t2)) ==> histogram_value(vals, FractalOrbit::Escaped(t2))
            == MappedCellIntensity::EscapedValue(INTENSITY_ONE),
{
    let n = vals.len();
    lemma_escaped_at_most_monotone(vals, t1 as nat, t2 as nat);
    let c1 = escaped_at_most(vals, t1 as nat);
    let c2 = escaped_at_most(vals, t2 as nat);
    assert(c1 * INTENSITY_ONE as nat / n <= c2 * INTENSITY_ONE as nat / n) by (nonlinear_arith)
        requires
            c1 <= c2,
            n > 0,
    {
        vstd::arithmetic::div_mod::lemma_div_is_ordered(
            c1 * INTENSITY_ONE as nat as int,
            c2 * INTENSITY_ONE as nat as int,
            n as int,
        );
    }
    assert(c2 * INTENSITY_ONE as nat / n <= INTENSITY_ONE) by (nonlinear_arith)
        requires
            c2 <= n,
            n > 0,
    ;
    if forall|i: int|
        0 <= i < vals.len() ==> (#[trigger] vals[i] matches FractalOrbit::Escaped(u) && u <= t2) {
        lemma_escaped_at_most_all(vals, t2 as nat);
        assert(n * INTENSITY_ONE as nat / n == INTENSITY_ONE) by (nonlinear_arith)
            requires
                n > 0,
        ;
    }
}

/// A cell that escaped no later than `t` makes the count of such cells positive.
proof fn lemma_escaped_at_most_pos(vals: Seq<FractalOrbit>, i: int, t: nat)
    requires
        0 <= i < vals.len(),
        vals[i] matches FractalOrbit::Escaped(u) && u <= t,
    ensures
        escaped_at_most(vals, t) >= 1,
    decreases vals.len(),
{
    if i < vals.len() - 1 {
        assert(vals.drop_last()[i] == vals[i]);
        lemma_escaped_at_most_pos(vals.drop_last(), i, t);
    }
}

/// Histogram mapping over a whole field: of two escaped cells, the later one never
/// maps below the earlier one; both values lie in `(0, 1]` when there are at most
/// `INTENSITY_ONE` cells (in `[0, 1]` always); and with no bounded cell, the latest
/// escape maps to exactly `1.0`.
pub proof fn lemma_histogram_map_order(
    mapper: HistogramLinearMapper,
    width: nat,
    height: nat,
    vals: Seq<FractalOrbit>,
    i: int,
    j: int,
)
    requires
        mapper.accepts(width, height, vals),
        0 <= i < vals.len(),
        0 <= j < vals.len(),
        vals[i] matches FractalOrbit::Escaped(a) && vals[j] matches FractalOrbit::Escaped(b)
            && a <= b,
    ensures
        mapper.mapping(width, height, vals).2[i] matches MappedCellIntensity::EscapedValue(x)
            && mapper.mapping(width, height, vals).2[j] matches MappedCellIntensity::EscapedValue(
            y,
        ) && x <= y <= INTENSITY_ONE && (vals.len() <= INTENSITY_ONE ==> 0 < x),
        (forall|k: int|
            0 <= k < vals.len() ==> (#[trigger] vals[k] matches FractalOrbit::Escaped(u) && u
                <= vals[j]->Escaped_0)) ==> mapper.mapping(width, height, vals).2[j]
            == MappedCellIntensity::EscapedValue(INTENSITY_ONE),
{
    let a = vals[i]->Escaped_0;
    let b = vals[j]->Escaped_0;
    lemma_histogram_monotone(vals, a, b);
    lemma_escaped_at_most_pos(vals, i, a as nat);
    let n = vals.len();
    let c = escaped_at_most(vals, a as nat);
    let m = mapper.mapping(width, height, vals);
    assert(m.2[i] == histogram_value(vals, FractalOrbit::Escaped(a)));
    assert(m.2[j] == histogram_value(vals, FractalOrbit::Escaped(b)));
    lemma_escaped_at_most_monotone(vals, a as nat, a as nat);
    assert(c * INTENSITY_ONE as nat / n <= INTENSITY_ONE) by (nonlinear_arith)
        requires
            c <= n,
            n > 0,
    ;
    if n <= INTENSITY_ONE {
        assert(c * INTENSITY_ONE as nat / n >= 1) by (nonlinear_arith)
            requires
                c >= 1,
                0 < n <= INTENSITY_ONE,
        ;
    }
}

/// Linear mapping over a whole field: a cell that escaped at the limit maps to
/// exactly `1.0`, a bounded cell to the bounded marker.
pub proof fn lemma_linear_map_full_scale(
    mapper: LinearMapper,
    width: nat,
    height: nat,
    vals: Seq<FractalOrbit>,
    i: int,
)
    requires
        mapper.accepts(width, height, vals),
        mapper.max_iter <= u32::MAX,
        0 <= i < vals.len(),
    ensures
        vals[i] == FractalOrbit::Escaped(mapper.max_iter as u32) ==> mapper.mapping(
            width,
            height,
            vals,
        ).2[i] == MappedCellIntensity::EscapedValue(INTENSITY_ONE),
        vals[i] == FractalOrbit::Bounded ==> mapper.mapping(width, height, vals).2[i]
            == MappedCellIntensity::BoundedValue,
{
    lemma_linear_full_scale(mapper.max_iter as nat);
}

impl HistogramLinearMapper {
    pub fn new(max_iter: usize) -> (r: Self)
        ensures
            r.max_iter == max_iter,
    {
        HistogramLinearMapper { max_iter }
    }
}

impl OrbitMapper for HistogramLinearMapper {
    open spec fn accepts(&self, width: nat, height: nat, vals: Seq<FractalOrbit>) -> bool {
        &&& self.max_iter < usize::MAX
        &&& vals.len() == width * height
        &&& escapes_within(vals, self.max_iter as nat)
    }

    open spec fn mapping(&self, width: nat, height: nat, vals: Seq<FractalOrbit>) -> (
        nat,
        nat,
        Seq<MappedCellIntensity>,
    ) {
        (width, height, vals.map_values(|o: FractalOrbit| histogram_value(vals, o)))
    }

    fn map(&self, width: usize, height: usize, vals: &[FractalOrbit]) -> (r: MappingResult) {
        let n = vals.len();
        let buckets = self.max_iter + 1;
        // histogram[b]: cells escaping at time b
        let mut histogram: Vec<usize> = Vec::new();
        while histogram.len() < buckets
            invariant
                histogram@.len() <= buckets,
                forall|b: int| 0 <= b < histogram@.len() ==> #[trigger] histogram@[b] == 0,
            decreases buckets - histogram@.len(),
        {
            histogram.push(0);
        }
        let mut i: usize = 0;
        while i < n
            invariant
                self.accepts(width as nat, height as nat, vals@),
                n == vals@.len(),
                buckets == self.max_iter + 1,
                i <= n,
                histogram@.len() == buckets,
                forall|b: int|
                    0 <= b < buckets ==> #[trigger] histogram@[b] == escaped_exactly(
                        vals@.take(i as int),
                        b as nat,
                    ),
                forall|b: int| 0 <= b < buckets ==> #[trigger] histogram@[b] <= i,
            decreases n - i,
        {
            assert(vals@.take(i + 1).drop_last() =~= vals@.take(i as int));
            assert(orbit_within(vals@[i as int], self.max_iter as nat));
            match vals[i] {
                FractalOrbit::Escaped(t) => {
                    let b = t as usize;
                    histogram.set(b, histogram[b] + 1);
                },
                FractalOrbit::Bounded => {},
            }
            i = i + 1;
        }
        assert(vals@.take(n as int) =~= vals@);
        // mapping[b]: cells escaping no later than b
        let mut mapping: Vec<usize> = Vec::new();
        let mut running: usize = 0;
        let mut b: usize = 0;
        while b < buckets
            invariant
                self.accepts(width as nat, height as nat, vals@),
                n == vals@.len(),
                buckets == self.max_iter + 1,
                histogram@.len() == buckets,
                forall|c: int|
                    0 <= c < buckets ==> #[trigger] histogram@[c] == escaped_exactly(
                        vals@,
                        c as nat,
                    ),
                b <= buckets,
                mapping@.len() == b,
                b > 0 ==> running == escaped_at_most(vals@, (b - 1) as nat),
                b == 0 ==> running == 0,
                forall|c: int|
                    0 <= c < b ==> #[trigger] mapping@[c] == escaped_at_most(vals@, c as nat),
            decreases buckets - b,
        {
            proof {
                lemma_escaped_at_most_step(vals@, b as nat);
                lemma_escaped_at_most_monotone(vals@, b as nat, b as nat);
            }
            running = running + histogram[b];
            mapping.push(running);
            b = b + 1;
        }
        let mut out: Vec<MappedCellIntensity> = Vec::new();
        let mut i: usize = 0;
        while i < n
            invariant
                self.accepts(width as nat, height as nat, vals@),
                n == vals@.len(),
                buckets == self.max_iter + 1,
                mapping@.len() == buckets,
                forall|c: int|
                    0 <= c < buckets ==> #[trigger] mapping@[c] == escaped_at_most(vals@, c as nat),
                i <= n,
                out@.len() == i,
                forall|j: int| 0 <= j < i ==> out@[j] == histogram_value(vals@, vals@[j]),
                forall|j: int| 0 <= j < i ==> intensity_ok(#[trigger] out@[j]),
            decreases n - i,
        {
            assert(orbit_within(vals@[i as int], self.max_iter as nat));
            let c = match vals[i] {
                FractalOrbit::Bounded => MappedCellIntensity::BoundedValue,
                FractalOrbit::Escaped(t) => {
                    let below = mapping[t as usize];
                    proof {
                        lemma_escaped_at_most_monotone(vals@, t as nat, t as nat);
                        assert(below as nat * INTENSITY_ONE as nat / n as nat <= INTENSITY_ONE)
                            by (nonlinear_arith)
                            requires
                                below <= n,
                                n > 0,
                        ;
                        assert(below as nat * INTENSITY_ONE as nat <= usize::MAX as nat
                            * INTENSITY_ONE as nat) by (nonlinear_arith);
                        assert(usize::MAX as nat * INTENSITY_ONE as nat <= u128::MAX)
                            by (nonlinear_arith);
                    }
                    let v = (below as u128) * (INTENSITY_ONE as u128) / (n as u128);
                    MappedCellIntensity::EscapedValue(v as u64)
                },
            };
            out.push(c);
            i = i + 1;
        }
        let r = MappingResult { values: out, width, height };
        assert(r.values@ =~= vals@.map_values(|o: FractalOrbit| histogram_value(vals@, o)));
        r
    }
}

/// Averages blocks of `2^aa_level` by `2^aa_level` cells of what `mapper` yields.
pub struct AntialiasMapper<T> {
    pub aa_level: u32,
    pub mapper: T,
}

/// The weight of a cell in a block average: its value, or `1` for the bounded marker.
pub open spec fn cell_weight(c: MappedCellIntensity) -> nat {
    match c {
        MappedCellIntensity::EscapedValue(v) => v as nat,
        MappedCellIntensity::BoundedValue => INTENSITY_ONE as nat,
    }
}

/// Cell `(x0 + k, y0 + j)` of a row-major field `width` wide.
pub open spec fn block_cell(
    vals: Seq<MappedCellIntensity>,
    width: nat,
    x0: nat,
    y0: nat,
    j: nat,
    k: nat,
) -> MappedCellIntensity {
    vals[((x0 + k) + (y0 + j) * width) as int]
}

/// Total weight of the first `n` cells of row `j` of the block at `(x0, y0)`.
pub open spec fn row_weight(
    vals: Seq<MappedCellIntensity>,
    width: nat,
    x0: nat,
    y0: nat,
    j: nat,
    n: nat,
) -> nat
    decreases n,
{
    if n == 0 {
        0
    } else {
        row_weight(vals, width, x0, y0, j, (n - 1) as nat) + cell_weight(
            block_cell(vals, width, x0, y0, j, (n - 1) as nat),
        )
    }
}

/// Total weight of the first `m` rows, each `f` cells, of the block at `(x0, y0)`.
pub open spec fn block_weight(
    vals: Seq<MappedCellIntensity>,
    width: nat,
    x0: nat,
    y0: nat,
    f: nat,
    m: nat,
) -> nat
    decreases m,
{
    if m == 0 {
        0
    } else {
        block_weight(vals, width, x0, y0, f, (m - 1) as nat) + row_weight(
            vals,
            width,
            x0,
            y0,
            (m - 1) as nat,
            f,
        )
    }
}

/// Every cell of the `f` by `f` block at `(x0, y0)` is the bounded marker.
pub open spec fn block_bounded(
    vals: Seq<MappedCellIntensity>,
    width: nat,
    x0: nat,
    y0: nat,
    f: nat,
) -> bool {
    forall|j: nat, k: nat|
        j < f && k < f ==> #[trigger] block_cell(vals, width, x0, y0, j, k)
            == MappedCellIntensity::BoundedValue
}

/// The output cell `(bx, by)` of a downsampling by `f`: the bounded marker when the
/// whole block is, else the block's mean weight.
pub open spec fn block_value(
    vals: Seq<MappedCellIntensity>,
    width: nat,
    f: nat,
    bx: nat,
    by: nat,
) -> MappedCellIntensity {
    if block_bounded(vals, width, bx * f, by * f, f) {
        MappedCellIntensity::BoundedValue
    } else {
        MappedCellIntensity::EscapedValue(
            (block_weight(vals, width, bx * f, by * f, f, f) / (f * f)) as u64,
        )
    }
}

/// A field downsampled by `2^level` in each direction: `floor(width / 2^level)` by
/// `floor(height / 2^level)` block values, row-major.
pub open spec fn downsample_spec(m: (nat, nat, Seq<MappedCellIntensity>), level: nat) -> (
    nat,
    nat,
    Seq<MappedCellIntensity>,
) {
    let f = pow2(level);
    let sw = m.0 / f;
    let sh = m.1 / f;
    (sw, sh, Seq::new(sw * sh, |i: int| block_value(m.2, m.0, f, (i % sw as int) as nat, (i / sw as int) as nat)))
}

/// Downsampling by `2^level` yields `floor(width / 2^level)` by
/// `floor(height / 2^level)` cells, and a block made only of bounded markers
/// yields the bounded marker.
pub proof fn lemma_downsample_shape(
    m: (nat, nat, Seq<MappedCellIntensity>),
    level: nat,
    bx: nat,
    by: nat,
)
    requires
        m.2.len() == m.0 * m.1,
        bx < m.0 / pow2(level),
        by < m.1 / pow2(level),
        block_bounded(m.2, m.0, bx * pow2(level), by * pow2(level), pow2(level)),
    ensures
        downsample_spec(m, level).0 == m.0 / pow2(level),
        downsample_spec(m, level).1 == m.1 / pow2(level),
        downsample_spec(m, level).2.len() == (m.0 / pow2(level)) * (m.1 / pow2(level)),
        downsample_spec(m, level).2[(by * (m.0 / pow2(level)) + bx) as int]
            == MappedCellIntensity::BoundedValue,
{
    let f = pow2(level);
    let sw = m.0 / f;
    let sh = m.1 / f;
    vstd::arithmetic::power2::lemma_pow2_pos(level);
    lemma_cell_index(sw, by, bx);
    assert(by * sw + bx < sw * sh) by (nonlinear_arith)
        requires
            bx < sw,
            by < sh,
    ;
}

/// Position facts for cell `(k, j)` of block `(bx, by)` in a `width` by `height` field.
proof fn lemma_block_index(width: nat, height: nat, f: nat, bx: nat, by: nat, j: nat, k: nat)
    requires
        f > 0,
        bx < width / f,
        by < height / f,
        j < f,
        k < f,
    ensures
        bx * f + k < width,
        by * f + j < height,
        (bx * f + k) + (by * f + j) * width < width * height,
        (by * f + j) * width + width <= width * height,
{
    vstd::arithmetic::div_mod::lemma_fundamental_div_mod(width as int, f as int);
    vstd::arithmetic::div_mod::lemma_fundamental_div_mod(height as int, f as int);
    let sw = width / f;
    let sh = height / f;
    assert(bx * f + k < width) by (nonlinear_arith)
        requires
            bx < sw,
            k < f,
            width == f * sw + width % f,
            width % f >= 0,
    ;
    assert(by * f + j < height) by (nonlinear_arith)
        requires
            by < sh,
            j < f,
            height == f * sh + height % f,
            height % f >= 0,
    ;
    let x = bx * f + k;
    let y = by * f + j;
    assert(y * width + width <= width * height) by (nonlinear_arith)
        requires
            y < height,
    ;
}

/// `2^aa_level`, the side of the blocks that one output cell averages, when it is at
/// most `limit`; `None` when it is larger.
fn reduction_factor(aa_level: u32, limit: usize) -> (r: Option<usize>)
    ensures
        r matches Some(f) ==> f == pow2(aa_level as nat) && f <= limit,
        r is None ==> pow2(aa_level as nat) > limit,
{
    let mut f: usize = 1;
    let mut e: u32 = 0;
    proof {
        vstd::arithmetic::power2::lemma2_to64();
    }
    while e < aa_level
        invariant
            e <= aa_level,
            f == pow2(e as nat),
            f <= limit || e == 0,
        decreases aa_level - e,
    {
        proof {
            lemma_pow2_unfold((e + 1) as nat);
        }
        if f > limit / 2 {
            proof {
                if e + 1 < aa_level {
                    lemma_pow2_strictly_increases((e + 1) as nat, aa_level as nat);
                }
            }
            return None;
        }
        f = f * 2;
        e = e + 1;
    }
    if f > limit {
        return None;
    }
    Some(f)
}

/// The output cell `(bx, by)` of downsampling `full` by `f`.
fn block_average(full: &MappingResult, f: usize, bx: usize, by: usize) -> (c: MappedCellIntensity)
    requires
        full.wf(),
        0 < f,
        bx < full.width / f,
        by < full.height / f,
    ensures
        c == block_value(full.values@, full.width as nat, f as nat, bx as nat, by as nat),
        intensity_ok(c),
{
    let ghost vals = full.values@;
    let width = full.width;
    let height = full.height;
    assert(full.values.len() == width * height);
    proof {
        lemma_block_index(
            width as nat,
            height as nat,
            f as nat,
            bx as nat,
            by as nat,
            (f - 1) as nat,
            (f - 1) as nat,
        );
        assert(bx as nat * f as nat >= 0 && by as nat * f as nat >= 0) by (nonlinear_arith);
        assert(f as nat * f as nat <= usize::MAX) by (nonlinear_arith)
            requires
                f <= width,
                f <= height,
                width * height <= usize::MAX,
        ;
        assert(usize::MAX as nat * INTENSITY_ONE as nat <= u128::MAX) by (nonlinear_arith);
        lemma_block_index(width as nat, height as nat, f as nat, bx as nat, by as nat, 0, 0);
    }
    let x0 = bx * f;
    let y0 = by * f;
    // total weight and whether all cells are bounded, over the rows so far
    let mut sum: u128 = 0;
    let mut all_bounded = true;
    let mut j: usize = 0;
    while j < f
        invariant
            full.wf(),
            vals == full.values@,
            width == full.width,
            height == full.height,
            width * height <= usize::MAX,
            0 < f,
            f as nat * f as nat <= usize::MAX,
            bx < width / f,
            by < height / f,
            x0 == bx * f,
            y0 == by * f,
            j <= f,
            sum == block_weight(vals, width as nat, x0 as nat, y0 as nat, f as nat, j as nat),
            sum <= j * f * INTENSITY_ONE,
            all_bounded == (forall|jj: nat, kk: nat|
                jj < j && kk < f ==> #[trigger] block_cell(
                    vals,
                    width as nat,
                    x0 as nat,
                    y0 as nat,
                    jj,
                    kk,
                ) == MappedCellIntensity::BoundedValue),
        decreases f - j,
    {
        let ghost before = sum;
        let ghost bounded_before = all_bounded;
        let mut k: usize = 0;
        while k < f
            invariant
                full.wf(),
                vals == full.values@,
                width == full.width,
                height == full.height,
                width * height <= usize::MAX,
                0 < f,
                f as nat * f as nat <= usize::MAX,
                bx < width / f,
                by < height / f,
                x0 == bx * f,
                y0 == by * f,
                j < f,
                k <= f,
                before == block_weight(vals, width as nat, x0 as nat, y0 as nat, f as nat, j as nat),
                before <= j * f * INTENSITY_ONE,
                sum == before + row_weight(
                    vals,
                    width as nat,
                    x0 as nat,
                    y0 as nat,
                    j as nat,
                    k as nat,
                ),
                sum <= j * f * INTENSITY_ONE + k * INTENSITY_ONE,
                bounded_before == (forall|jj: nat, kk: nat|
                    jj < j && kk < f ==> #[trigger] block_cell(
                        vals,
                        width as nat,
                        x0 as nat,
                        y0 as nat,
                        jj,
                        kk,
                    ) == MappedCellIntensity::BoundedValue),
                all_bounded == (bounded_before && forall|kk: nat|
                    kk < k ==> #[trigger] block_cell(
                        vals,
                        width as nat,
                        x0 as nat,
                        y0 as nat,
                        j as nat,
                        kk,
                    ) == MappedCellIntensity::BoundedValue),
            decreases f - k,
        {
            proof {
                lemma_block_index(
                    width as nat,
                    height as nat,
                    f as nat,
                    bx as nat,
                    by as nat,
                    j as nat,
                    k as nat,
                );
                assert(j * f * INTENSITY_ONE + k * INTENSITY_ONE + INTENSITY_ONE <= usize::MAX
                    * INTENSITY_ONE) by (nonlinear_arith)
                    requires
                        j < f,
                        k < f,
                        f as nat * f as nat <= usize::MAX,
                ;
            }
            let c = full.values[(x0 + k) + (y0 + j) * width];
            assert(c == block_cell(vals, width as nat, x0 as nat, y0 as nat, j as nat, k as nat));
            assert(intensity_ok(c));
            match c {
                MappedCellIntensity::EscapedValue(v) => {
                    sum = sum + v as u128;
                    all_bounded = false;
                },
                MappedCellIntensity::BoundedValue => {
                    sum = sum + INTENSITY_ONE as u128;
                },
            }
            k = k + 1;
        }
        proof {
            assert(j * f * INTENSITY_ONE + f * INTENSITY_ONE == (j + 1) * f * INTENSITY_ONE)
                by (nonlinear_arith);
            if !all_bounded && bounded_before {
                let kk = choose|kk: nat|
                    kk < f && #[trigger] block_cell(
                        vals,
                        width as nat,
                        x0 as nat,
                        y0 as nat,
                        j as nat,
                        kk,
                    ) != MappedCellIntensity::BoundedValue;
                assert(block_cell(vals, width as nat, x0 as nat, y0 as nat, j as nat, kk)
                    != MappedCellIntensity::BoundedValue);
            }
        }
        j = j + 1;
    }
    if all_bounded {
        MappedCellIntensity::BoundedValue
    } else {
        let ff = (f as u128) * (f as u128);
        proof {
            assert(ff > 0) by (nonlinear_arith)
                requires
                    ff == f * f,
                    f > 0,
            ;
            assert(sum as nat / (f as nat * f as nat) <= INTENSITY_ONE) by (nonlinear_arith)
                requires
                    sum <= f as nat * f as nat * INTENSITY_ONE,
                    f > 0,
            ;
        }
        MappedCellIntensity::EscapedValue((sum / ff) as u64)
    }
}

/// Downsamples `full` by `2^aa_level` in each direction, averaging each block of
/// cells; a block maps to the bounded marker exactly when all its cells are.
pub fn downsample(full: &MappingResult, aa_level: u32) -> (r: MappingResult)
    requires
        full.wf(),
    ensures
        r@ == downsample_spec(full@, aa_level as nat),
        r.wf(),
{
    let limit = if full.width >= full.height { full.width } else { full.height };
    let f = match reduction_factor(aa_level, limit) {
        Some(f) => f,
        None => {
            let r = MappingResult { values: Vec::new(), width: 0, height: 0 };
            proof {
                let p = pow2(aa_level as nat);
                assert(full.width as nat / p == 0) by (nonlinear_arith)
                    requires
                        full.width < p,
                ;
                assert(full.height as nat / p == 0) by (nonlinear_arith)
                    requires
                        full.height < p,
                ;
                assert(r.values@ =~= downsample_spec(full@, aa_level as nat).2);
            }
            return r;
        },
    };
    proof {
        vstd::arithmetic::power2::lemma_pow2_pos(aa_level as nat);
    }
    let sw = full.width / f;
    let sh = full.height / f;
    let ghost vals = full.values@;
    proof {
        assert(sw * sh <= full.width * full.height) by (nonlinear_arith)
            requires
                sw <= full.width,
                sh <= full.height,
        ;
    }
    let mut out: Vec<MappedCellIntensity> = Vec::new();
    let mut by: usize = 0;
    while by < sh
        invariant
            full.wf(),
            vals == full.values@,
            0 < f,
            sw == full.width / f,
            sh == full.height / f,
            by <= sh,
            out@.len() == by * sw,
            forall|i: int|
                0 <= i < out@.len() ==> out@[i] == block_value(
                    vals,
                    full.width as nat,
                    f as nat,
                    (i % sw as int) as nat,
                    (i / sw as int) as nat,
                ),
            forall|i: int| 0 <= i < out@.len() ==> intensity_ok(#[trigger] out@[i]),
        decreases sh - by,
    {
        let mut bx: usize = 0;
        while bx < sw
            invariant
                full.wf(),
                vals == full.values@,
                0 < f,
                sw == full.width / f,
                sh == full.height / f,
                by < sh,
                bx <= sw,
                out@.len() == by * sw + bx,
                forall|i: int|
                    0 <= i < out@.len() ==> out@[i] == block_value(
                        vals,
                        full.width as nat,
                        f as nat,
                        (i % sw as int) as nat,
                        (i / sw as int) as nat,
                    ),
                forall|i: int| 0 <= i < out@.len() ==> intensity_ok(#[trigger] out@[i]),
            decreases sw - bx,
        {
            let cell = block_average(full, f, bx, by);
            proof {
                lemma_cell_index(sw as nat, by as nat, bx as nat);
            }
            out.push(cell);
            bx = bx + 1;
        }
        proof {
            assert(by * sw + sw == (by + 1) * sw) by (nonlinear_arith);
        }
        by = by + 1;
    }
    let r = MappingResult { values: out, width: sw, height: sh };
    proof {
        assert(sh * sw == sw * sh) by (nonlinear_arith);
        assert(r.values@ =~= downsample_spec(full@, aa_level as nat).2);
    }
    r
}

/// The mapping `m` of `vals` has the same size and turns each bounded
/// classification into the bounded marker.
pub open spec fn keeps_bounded(
    width: nat,
    height: nat,
    vals: Seq<FractalOrbit>,
    m: (nat, nat, Seq<MappedCellIntensity>),
) -> bool {
    &&& m.0 == width
    &&& m.1 == height
    &&& m.2.len() == vals.len()
    &&& forall|i: int|
        0 <= i < vals.len() && vals[i] == FractalOrbit::Bounded ==> #[trigger] m.2[i]
            == MappedCellIntensity::BoundedValue
}

/// Linear and histogram mapping keep bounded cells as the bounded marker.
pub proof fn lemma_mappers_keep_bounded(
    linear: LinearMapper,
    histogram: HistogramLinearMapper,
    width: nat,
    height: nat,
    vals: Seq<FractalOrbit>,
)
    ensures
        keeps_bounded(width, height, vals, linear.mapping(width, height, vals)),
        keeps_bounded(width, height, vals, histogram.mapping(width, height, vals)),
{
}

/// Antialiasing yields `floor(width / 2^level)` by `floor(height / 2^level)` cells,
/// and a block made only of bounded classifications yields the bounded marker,
/// whenever the wrapped mapping keeps bounded cells.
pub proof fn lemma_antialias_bounded_block<T: OrbitMapper>(
    mapper: AntialiasMapper<T>,
    width: nat,
    height: nat,
    vals: Seq<FractalOrbit>,
    bx: nat,
    by: nat,
)
    requires
        vals.len() == width * height,
        keeps_bounded(width, height, vals, mapper.mapper.mapping(width, height, vals)),
        bx < width / pow2(mapper.aa_level as nat),
        by < height / pow2(mapper.aa_level as nat),
        forall|j: nat, k: nat|
            j < pow2(mapper.aa_level as nat) && k < pow2(mapper.aa_level as nat) ==> #[trigger] vals[((
            bx * pow2(mapper.aa_level as nat) + k) + (by * pow2(mapper.aa_level as nat) + j)
                * width) as int] == FractalOrbit::Bounded,
    ensures
        mapper.mapping(width, height, vals).0 == width / pow2(mapper.aa_level as nat),
        mapper.mapping(width, height, vals).1 == height / pow2(mapper.aa_level as nat),
        mapper.mapping(width, height, vals).2[(by * (width / pow2(mapper.aa_level as nat)) + bx) as int]
            == MappedCellIntensity::BoundedValue,
{
    let level = mapper.aa_level as nat;
    let f = pow2(level);
    let m = mapper.mapper.mapping(width, height, vals);
    vstd::arithmetic::power2::lemma_pow2_pos(level);
    assert forall|j: nat, k: nat| j < f && k < f implies #[trigger] block_cell(
        m.2,
        width,
        bx * f,
        by * f,
        j,
        k,
    ) == MappedCellIntensity::BoundedValue by {
        lemma_block_index(width, height, f, bx, by, j, k);
        assert(vals[((bx * f + k) + (by * f + j) * width) as int] == FractalOrbit::Bounded);
    }
    lemma_downsample_shape(m, level, bx, by);
}

impl<T: OrbitMapper> AntialiasMapper<T> {
    pub fn new(aa_level: u32, mapper: T) -> (r: Self)
        ensures
            r.aa_level == aa_level,
            r.mapper == mapper,
    {
        AntialiasMapper { aa_level, mapper }
    }
}

impl<T: OrbitMapper> OrbitMapper for AntialiasMapper<T> {
    open spec fn accepts(&self, width: nat, height: nat, vals: Seq<FractalOrbit>) -> bool {
        &&& self.mapper.accepts(width, height, vals)
    }

    open spec fn mapping(&self, width: nat, height: nat, vals: Seq<FractalOrbit>) -> (
        nat,
        nat,
        Seq<MappedCellIntensity>,
    ) {
        downsample_spec(self.mapper.mapping(width, height, vals), self.aa_level as nat)
    }

    fn map(&self, width: usize, height: usize, vals: &[FractalOrbit]) -> (r: MappingResult) {
        let full = self.mapper.map(width, height, vals);
        downsample(&full, self.aa_level)
    }
}

} // verus!
