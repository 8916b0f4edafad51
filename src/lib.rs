pub mod cycle;
pub mod fractal;
pub mod grid;
pub mod mandelbrot;
pub mod map;
pub mod render;
pub mod runner;
