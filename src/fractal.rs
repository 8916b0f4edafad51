use vstd::prelude::*;
use crate::cycle::CycleDetector;

verus! {

/// Escape time of an orbit: the iteration count at which it left the escape radius.
pub type EscapeTimeType = u32;

/// Classification of one sample point.
#[derive(Copy, Clone, Debug, PartialEq, Eq, Structural)]
pub enum FractalOrbit {
    Escaped(EscapeTimeType),
    Bounded,
}

/// A classifier together with a cycle detector for its orbits.
#[derive(Clone)]
pub struct FractalExecutor<T> {
    fractal_impl: T,
    cycle_detector: CycleDetector,
}

impl<T> FractalExecutor<T> {
    pub closed spec fn spec_fractal_impl(&self) -> T {
        self.fractal_impl
    }

    pub closed spec fn spec_cycle_detector(&self) -> CycleDetector {
        self.cycle_detector
    }

    pub fn new(fractal_impl: T, cycle_detector: CycleDetector) -> (r: Self)
        ensures
            r.spec_fractal_impl() == fractal_impl,
            r.spec_cycle_detector() == cycle_detector,
    {
        FractalExecutor { fractal_impl, cycle_detector }
    }

    pub fn fractal_impl(&self) -> (r: &T)
        ensures
            *r == self.spec_fractal_impl(),
    {
        &self.fractal_impl
    }

    pub fn cycle_detector(&self) -> (r: &CycleDetector)
        ensures
            *r == self.spec_cycle_detector(),
    {
        &self.cycle_detector
    }
}

} // verus!
