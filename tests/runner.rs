use escape_render::fractal::FractalOrbit::{self, Bounded, Escaped};
use escape_render::grid::{Grid, GridStrip};
use escape_render::mandelbrot::Mandelbrot;
use escape_render::runner::{
    assemble, evaluate_strip, run_sequential, FractalRunner, MultiThreadedRunner, RunnerError,
    SyncronousRunner,
};

fn by_position(x: u32, y: u32) -> FractalOrbit {
    if (x + y) % 3 == 0 { Bounded } else { Escaped(x * 10 + y) }
}

/// The Mandelbrot escape test on the plane, iterated by the library.
fn mandelbrot_at(m: &Mandelbrot, re: f64, im: f64) -> FractalOrbit {
    let q = (re - 0.25) * (re - 0.25) + im * im;
    if q * (q + re - 0.25) < 0.25 * im * im || (re + 1.0) * (re + 1.0) + im * im < 1.0 / 16.0 {
        return Bounded;
    }
    let step = |(zr, zi): (f64, f64)| {
        let next = (zr * zr - zi * zi + re, 2.0 * zr * zi + im);
        (next, next.0 * next.0 + next.1 * next.1 >= 4.0)
    };
    m.run_iterations((0.0, 0.0), &step)
}

/// Plane position of a cell centre of a grid over `[left, right] x [bottom, top]`.
fn plane(g: &Grid, bounds: (f64, f64, f64, f64), x: u32, y: u32) -> (f64, f64) {
    let (left, top, right, bottom) = bounds;
    let dx = (right - left) / g.cells_x as f64;
    let dy = -(top - bottom) / g.cells_y as f64;
    (left + (x as f64 + 0.5) * dx, top + (y as f64 + 0.5) * dy)
}

/// Runs strips as a pool of `workers` would: round-robin dispatch, then results
/// arriving worker by worker.
fn pooled<F: Fn(u32, u32) -> FractalOrbit>(g: &Grid, workers: usize, f: &F) -> Result<Vec<FractalOrbit>, RunnerError> {
    let runner = MultiThreadedRunner::new((), workers);
    let strips = g.iter_strips(1);
    let plan = runner.dispatch_plan(strips.len());
    let mut results: Vec<(GridStrip, Vec<FractalOrbit>)> = Vec::new();
    for w in (0..workers).rev() {
        for (k, s) in strips.iter().enumerate() {
            if plan[k] == w {
                results.push((*s, evaluate_strip(g, s, f)));
            }
        }
    }
    assemble(g, &results)
}

#[test]
fn sequential_follows_row_major_order() {
    let g = Grid::new(3, 2).unwrap();
    let v = run_sequential(&g, &by_position);
    assert_eq!(v, vec![Bounded, Escaped(10), Escaped(20), Escaped(1), Escaped(11), Bounded]);
}

#[test]
fn synchronous_runner_runs_the_classifier() {
    let g = Grid::new(2, 2).unwrap();
    let r = SyncronousRunner::new(by_position);
    assert_eq!(r.run(&g).unwrap(), run_sequential(&g, &by_position));
}

#[test]
fn dispatch_is_round_robin() {
    let r = MultiThreadedRunner::new(0u8, 3);
    assert_eq!(r.num_threads(), 3);
    assert_eq!(r.dispatch_plan(7), vec![0, 1, 2, 0, 1, 2, 0]);
    assert_eq!(MultiThreadedRunner::new(0u8, 1).dispatch_plan(3), vec![0, 0, 0]);
}

#[test]
fn pooled_equals_sequential_for_any_worker_count() {
    let g = Grid::new(5, 7).unwrap();
    let seq = run_sequential(&g, &by_position);
    for workers in 1..10 {
        assert_eq!(pooled(&g, workers, &by_position).unwrap(), seq);
    }
}

#[test]
fn assemble_places_strips_by_identity() {
    let g = Grid::new(2, 3).unwrap();
    let results = vec![
        (GridStrip::new(2, 1), vec![Escaped(5), Escaped(6)]),
        (GridStrip::new(0, 2), vec![Bounded, Escaped(1), Escaped(2), Escaped(3)]),
    ];
    let v = assemble(&g, &results).unwrap();
    assert_eq!(v, vec![Bounded, Escaped(1), Escaped(2), Escaped(3), Escaped(5), Escaped(6)]);
}

#[test]
fn assemble_rejects_missing_row() {
    let g = Grid::new(1, 2).unwrap();
    let results = vec![(GridStrip::new(0, 1), vec![Bounded])];
    assert!(matches!(assemble(&g, &results), Err(RunnerError::RunnerError(_))));
}

#[test]
fn assemble_rejects_shared_row() {
    let g = Grid::new(1, 2).unwrap();
    let results = vec![
        (GridStrip::new(0, 2), vec![Bounded, Bounded]),
        (GridStrip::new(1, 1), vec![Bounded]),
    ];
    assert!(matches!(assemble(&g, &results), Err(RunnerError::RunnerError(_))));
}

#[test]
fn assemble_rejects_wrong_length_and_outside_strip() {
    let g = Grid::new(2, 2).unwrap();
    let short = vec![(GridStrip::new(0, 2), vec![Bounded, Bounded, Bounded])];
    assert!(matches!(assemble(&g, &short), Err(RunnerError::RunnerError(_))));
    let outside = vec![(GridStrip::new(1, 2), vec![Bounded; 4])];
    assert!(matches!(assemble(&g, &outside), Err(RunnerError::RunnerError(_))));
}

#[test]
fn end_to_end_mandelbrot_sequential_equals_four_workers() {
    let g = Grid::new(4, 4).unwrap();
    let m = Mandelbrot::new(50);
    let bounds = (-1.5, 1.0, 1.0, -1.0);
    let classify = |x: u32, y: u32| {
        let (re, im) = plane(&g, bounds, x, y);
        mandelbrot_at(&m, re, im)
    };
    let seq = run_sequential(&g, &classify);
    let par = pooled(&g, 4, &classify).unwrap();
    assert_eq!(seq.len(), 16);
    assert_eq!(seq, par);
    assert!(seq.iter().any(|o| *o == Bounded));
    assert!(seq.iter().any(|o| matches!(o, Escaped(_))));
}

#[test]
fn mandelbrot_reference_points() {
    let m = Mandelbrot::new(50);
    assert_eq!(mandelbrot_at(&m, 0.0, 0.0), Bounded);
    assert_eq!(mandelbrot_at(&m, -1.0, 0.0), Bounded);
    assert_eq!(mandelbrot_at(&m, 2.5, 0.0), Escaped(1));
    assert_eq!(mandelbrot_at(&m, 0.0, -3.0), Escaped(1));
}
