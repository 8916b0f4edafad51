use escape_render::cycle::CycleDetector;
use escape_render::fractal::FractalExecutor;
use escape_render::fractal::FractalOrbit::{Bounded, Escaped};
use escape_render::mandelbrot::Mandelbrot;

#[test]
fn step_outcome_decides() {
    let m = Mandelbrot::new(5);
    assert_eq!(m.iter_limit, 5);
    assert_eq!(m.step_outcome(1, true), Some(Escaped(1)));
    assert_eq!(m.step_outcome(3, false), None);
    assert_eq!(m.step_outcome(4, true), Some(Escaped(4)));
    assert_eq!(m.step_outcome(5, true), Some(Bounded));
    assert_eq!(m.step_outcome(5, false), Some(Bounded));
}

#[test]
fn step_outcome_limit_one_is_bounded() {
    let m = Mandelbrot::new(1);
    assert_eq!(m.step_outcome(1, true), Some(Bounded));
}

#[test]
fn cycle_detector_finds_repeats() {
    let mut d = CycleDetector::new(2);
    assert_eq!(d.backlog_len(), 2);
    assert!(!d.check_pt((0, 0)));
    assert!(!d.check_pt((1, 2)));
    assert!(d.check_pt((1, 2)));
    // (0, 0) has been overwritten by now
    assert!(!d.check_pt((0, 0)));
    assert!(!d.check_pt((3, 3)));
    assert!(!d.check_pt((1, 2)));
}

#[test]
fn new_cycle_detector_reports_no_match() {
    let mut d = CycleDetector::new(4);
    assert!(!d.check_pt((0, 0)));
    assert!(d.check_pt((0, 0)));
    assert_eq!(d.backlog_len(), 4);
}

#[test]
fn cycle_detector_forgets_oldest_point() {
    let mut d = CycleDetector::new(3);
    for p in [(1, 1), (2, 2), (3, 3), (4, 4)] {
        assert!(!d.check_pt(p));
    }
    // (1, 1) was evicted by (4, 4)
    assert!(!d.check_pt((1, 1)));
    assert!(d.check_pt((4, 4)));
}

#[test]
fn cycle_detector_without_slots_never_matches() {
    let mut d = CycleDetector::new(0);
    assert!(!d.check_pt((0, 0)));
    assert!(!d.check_pt((0, 0)));
    assert_eq!(d.backlog_len(), 0);
}

#[test]
fn executor_holds_classifier_and_detector() {
    let e = FractalExecutor::new(Mandelbrot::new(9), CycleDetector::new(3));
    assert_eq!(e.fractal_impl().iter_limit, 9);
    assert_eq!(e.cycle_detector().backlog_len(), 3);
}

#[test]
fn run_iterations_counts_steps() {
    let m = Mandelbrot::new(10);
    // escapes on the fourth step
    assert_eq!(m.run_iterations(0u32, &|n: u32| (n + 1, n + 1 >= 4)), Escaped(4));
    // never escapes
    assert_eq!(m.run_iterations(0u32, &|n: u32| (n + 1, false)), Bounded);
    // would escape only at the limit
    assert_eq!(m.run_iterations(0u32, &|n: u32| (n + 1, n + 1 >= 10)), Bounded);
    assert_eq!(m.run_iterations(0u32, &|n: u32| (n + 1, n + 1 >= 9)), Escaped(9));
}
