use vstd::prelude::*;
use crate::fractal::FractalOrbit;

verus! {

/// The escape test of the Mandelbrot family, `z <- z^2 + c` from `z = 0`, with an
/// iteration limit.
///
/// The arithmetic on `z` is floating point and is supplied by the caller as one
/// step; this type runs the steps and decides when the orbit is classified.
#[derive(Clone, Copy, Debug, PartialEq, Eq, Structural)]
pub struct Mandelbrot {
    pub iter_limit: i32,
}

/// The classification of an orbit from its escape record: `escaped[k]` tells whether
/// `|z_k|^2 >= 4` after step `k`. The first step `k` below `limit` whose iterate
/// escaped gives `Escaped(k)`; an orbit with none is `Bounded`.
pub open spec fn orbit_class(limit: int, escaped: Seq<bool>, k: int) -> FractalOrbit
    decreases limit - k,
{
    if k >= limit || k >= escaped.len() {
        FractalOrbit::Bounded
    } else if k >= 1 && escaped[k] {
        FractalOrbit::Escaped(k as u32)
    } else {
        orbit_class(limit, escaped, k + 1)
    }
}

/// `states` and `escaped` record steps of `advance` from `states[0]`: step `k`
/// (`k >= 1`) turns `states[k - 1]` into `states[k]`, with `escaped[k]` telling
/// whether the new iterate left the escape radius.
pub open spec fn is_trace<S, F: Fn(S) -> (S, bool)>(
    advance: F,
    states: Seq<S>,
    escaped: Seq<bool>,
) -> bool {
    &&& states.len() >= 1
    &&& escaped.len() == states.len()
    &&& forall|k: int|
        1 <= k < states.len() ==> advance.ensures((states[k - 1],), (#[trigger] states[k], escaped[k]))
}

impl Mandelbrot {
    pub fn new(iter_limit: i32) -> (r: Self)
        requires
            iter_limit >= 1,
        ensures
            r.iter_limit == iter_limit,
    {
        Mandelbrot { iter_limit }
    }

    /// Decision after step `i` of the orbit (`i >= 1`), given whether `|z_i|^2 >= 4`:
    /// at the iteration limit the point counts as bounded; before it, an escaped
    /// iterate classifies the point as `Escaped(i)`; otherwise iteration goes on.
    pub fn step_outcome(&self, i: i32, escaped: bool) -> (r: Option<FractalOrbit>)
        requires
            1 <= i,
        ensures
            i >= self.iter_limit ==> r == Some(FractalOrbit::Bounded),
            i < self.iter_limit && escaped ==> r == Some(FractalOrbit::Escaped(i as u32)),
            i < self.iter_limit && !escaped ==> r is None,
    {
        if i >= self.iter_limit {
            Some(FractalOrbit::Bounded)
        } else if escaped {
            Some(FractalOrbit::Escaped(i as u32))
        } else {
            None
        }
    }

    /// Iterates from `start` with `advance`, which makes one step (`z <- z^2 + c`) and
    /// tells whether the new iterate escaped, until `step_outcome` decides. The steps
    /// taken, one per iteration and at most `iter_limit` of them, classify the orbit.
    pub fn run_iterations<S, F: Fn(S) -> (S, bool)>(&self, start: S, advance: &F) -> (r:
        FractalOrbit)
        requires
            self.iter_limit >= 1,
            forall|z: S| advance.requires((z,)),
        ensures
            ran(self.iter_limit as int, start, *advance, r),
    {
        let ghost mut states: Seq<S> = seq![start];
        let ghost mut escaped: Seq<bool> = seq![false];
        let mut z = start;
        let mut i: i32 = 0;
        loop
            invariant
                self.iter_limit >= 1,
                forall|z: S| advance.requires((z,)),
                0 <= i < self.iter_limit,
                states.len() == i + 1,
                states[0] == start,
                states[i as int] == z,
                is_trace(*advance, states, escaped),
                forall|k: int| 1 <= k <= i ==> !#[trigger] escaped[k],
            decreases self.iter_limit - i,
        {
            i = i + 1;
            let (next, out) = advance(z);
            proof {
                states = states.push(next);
                escaped = escaped.push(out);
                assert(states[i as int] == next);
                assert forall|k: int| 1 <= k < states.len() implies advance.ensures(
                    (states[k - 1],),
                    (#[trigger] states[k], escaped[k]),
                ) by {
                    if k < i {
                        assert(states[k] == states.drop_last()[k]);
                    }
                }
            }
            z = next;
            match self.step_outcome(i, out) {
                Some(orbit) => {
                    proof {
                        assert forall|j: int| 1 <= j < i implies !#[trigger] escaped[j] by {
                            assert(escaped[j] == escaped.drop_last()[j]);
                        }
                        lemma_outcome_is_class(self.iter_limit as int, escaped, i as int, 0);
                        assert(states.len() == steps_of(self.iter_limit as int, orbit) + 1);
                        assert(states[0] == start && is_trace(*advance, states, escaped)
                            && states.len() == steps_of(self.iter_limit as int, orbit) + 1
                            && orbit == orbit_class(self.iter_limit as int, escaped, 0));
                    }
                    return orbit;
                },
                None => {
                    proof {
                        assert forall|k: int| 1 <= k <= i implies !#[trigger] escaped[k] by {
                            if k < i {
                                assert(escaped[k] == escaped.drop_last()[k]);
                            }
                        }
                    }
                },
            }
        }
    }
}

/// The number of steps a run takes before it returns `r`: the escape time, or the
/// iteration limit for a bounded orbit.
pub open spec fn steps_of(limit: int, r: FractalOrbit) -> int {
    match r {
        FractalOrbit::Escaped(t) => t as int,
        FractalOrbit::Bounded => limit,
    }
}

/// A run from `start` with `advance` and iteration limit `limit` can return `r`:
/// some trace of exactly `steps_of(limit, r)` steps from `start` classifies as `r`.
pub open spec fn ran<S, F: Fn(S) -> (S, bool)>(limit: int, start: S, advance: F, r: FractalOrbit) -> bool {
    exists|states: Seq<S>, escaped: Seq<bool>|
        #[trigger] is_trace(advance, states, escaped) && states[0] == start && states.len()
            == steps_of(limit, r) + 1 && r == orbit_class(limit, escaped, 0)
}

/// `advance` gives one answer for each state.
pub open spec fn deterministic<S, F: Fn(S) -> (S, bool)>(advance: F) -> bool {
    forall|z: S, a: (S, bool), b: (S, bool)|
        #[trigger] advance.ensures((z,), a) && #[trigger] advance.ensures((z,), b) ==> a == b
}

/// What `orbit_class` from step `k` says of the record: an escape at `t` is the
/// first escaped step from `max(1, k)` on, below the limit and the record's end; a
/// bounded result means no step in that range escaped.
proof fn lemma_class_facts(limit: int, escaped: Seq<bool>, k: int)
    requires
        0 <= k,
        limit <= u32::MAX,
    ensures
        orbit_class(limit, escaped, k) matches FractalOrbit::Escaped(t) ==> {
            &&& 1 <= t
            &&& k <= t
            &&& t < limit
            &&& t < escaped.len()
            &&& escaped[t as int]
            &&& forall|j: int| 1 <= j < t && k <= j ==> !#[trigger] escaped[j]
        },
        orbit_class(limit, escaped, k) is Bounded ==> forall|j: int|
            1 <= j < limit && j < escaped.len() && k <= j ==> !#[trigger] escaped[j],
    decreases limit - k,
{
    if k < limit && k < escaped.len() && !(k >= 1 && escaped[k]) {
        lemma_class_facts(limit, escaped, k + 1);
    }
}

/// Two traces of a deterministic step from one state agree as far as both go.
proof fn lemma_traces_agree<S, F: Fn(S) -> (S, bool)>(
    advance: F,
    s1: Seq<S>,
    e1: Seq<bool>,
    s2: Seq<S>,
    e2: Seq<bool>,
    k: int,
)
    requires
        deterministic(advance),
        is_trace(advance, s1, e1),
        is_trace(advance, s2, e2),
        s1[0] == s2[0],
        0 <= k < s1.len(),
        k < s2.len(),
    ensures
        s1[k] == s2[k],
        k >= 1 ==> e1[k] == e2[k],
    decreases k,
{
    if k > 0 {
        lemma_traces_agree(advance, s1, e1, s2, e2, k - 1);
        assert(advance.ensures((s1[k - 1],), (s1[k], e1[k])));
        assert(advance.ensures((s2[k - 1],), (s2[k], e2[k])));
    }
}

/// Classification is a function of the starting state when the step is: two runs
/// from one state with one deterministic step return the same classification.
pub proof fn lemma_run_deterministic<S, F: Fn(S) -> (S, bool)>(
    limit: int,
    start: S,
    advance: F,
    r1: FractalOrbit,
    r2: FractalOrbit,
)
    requires
        1 <= limit <= i32::MAX,
        deterministic(advance),
        ran(limit, start, advance, r1),
        ran(limit, start, advance, r2),
    ensures
        r1 == r2,
{
    let (s1, e1) = choose|states: Seq<S>, escaped: Seq<bool>|
        #[trigger] is_trace(advance, states, escaped) && states[0] == start && states.len()
            == steps_of(limit, r1) + 1 && r1 == orbit_class(limit, escaped, 0);
    let (s2, e2) = choose|states: Seq<S>, escaped: Seq<bool>|
        #[trigger] is_trace(advance, states, escaped) && states[0] == start && states.len()
            == steps_of(limit, r2) + 1 && r2 == orbit_class(limit, escaped, 0);
    lemma_class_facts(limit, e1, 0);
    lemma_class_facts(limit, e2, 0);
    match (r1, r2) {
        (FractalOrbit::Escaped(t1), FractalOrbit::Escaped(t2)) => {
            if t1 < t2 {
                lemma_traces_agree(advance, s1, e1, s2, e2, t1 as int);
            } else if t2 < t1 {
                lemma_traces_agree(advance, s1, e1, s2, e2, t2 as int);
            }
        },
        (FractalOrbit::Escaped(t1), FractalOrbit::Bounded) => {
            lemma_traces_agree(advance, s1, e1, s2, e2, t1 as int);
        },
        (FractalOrbit::Bounded, FractalOrbit::Escaped(t2)) => {
            lemma_traces_agree(advance, s1, e1, s2, e2, t2 as int);
        },
        _ => {},
    }
}

/// A run whose first step escapes (as for `|c| > 2`) returns `Escaped(1)` when the
/// limit allows a step; a run whose steps never escape (as for `c = 0`) returns
/// `Bounded`.
pub proof fn lemma_run_outcomes<S, F: Fn(S) -> (S, bool)>(
    limit: int,
    start: S,
    advance: F,
    r: FractalOrbit,
)
    requires
        1 <= limit <= i32::MAX,
        ran(limit, start, advance, r),
    ensures
        limit >= 2 && (forall|z: S, b: bool| #[trigger] advance.ensures((start,), (z, b)) ==> b)
            ==> r == FractalOrbit::Escaped(1),
        (forall|y: S, z: S, b: bool| #[trigger] advance.ensures((y,), (z, b)) ==> !b) ==> r
            == FractalOrbit::Bounded,
{
    let (s, e) = choose|states: Seq<S>, escaped: Seq<bool>|
        #[trigger] is_trace(advance, states, escaped) && states[0] == start && states.len()
            == steps_of(limit, r) + 1 && r == orbit_class(limit, escaped, 0);
    lemma_class_facts(limit, e, 0);
    if s.len() >= 2 {
        assert(advance.ensures((s[0],), (s[1], e[1])));
    }
    if let FractalOrbit::Escaped(t) = r {
        assert(advance.ensures((s[t - 1],), (s[t as int], e[t as int])));
    }
}

/// Once steps `1 .. i - 1` have not escaped, the decision at step `i` is the
/// classification of the record.
proof fn lemma_outcome_is_class(limit: int, escaped: Seq<bool>, i: int, k: int)
    requires
        1 <= i,
        escaped.len() == i + 1,
        0 <= k <= i,
        forall|j: int| 1 <= j < i ==> !#[trigger] escaped[j],
    ensures
        orbit_class(limit, escaped, k) == (if i >= limit {
            FractalOrbit::Bounded
        } else if escaped[i] {
            FractalOrbit::Escaped(i as u32)
        } else {
            orbit_class(limit, escaped, i + 1)
        }),
    decreases i - k,
{
    if k < i && k < limit {
        lemma_outcome_is_class(limit, escaped, i, k + 1);
    }
}

} // verus!
