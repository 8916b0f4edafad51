use escape_render::fractal::FractalOrbit::{Bounded, Escaped};
use escape_render::grid::Grid;
use escape_render::map::{AntialiasMapper, LinearMapper, MappedCellIntensity, MappingResult, INTENSITY_ONE};
use escape_render::render::{
    grayscale_pixels, BwFractalRenderer, FractalRenderer, GrayscaleFractalRenderer, RenderError,
};

#[test]
fn bw_pixels_scale_counts() {
    let g = Grid::new(5, 1).unwrap();
    let r = BwFractalRenderer::new(10);
    assert_eq!(r.pixels(&g, &[0, 5, 10, 20, -3]).unwrap(), vec![0, 127, 255, 255, 0]);
}

#[test]
fn bw_rejects_mismatched_counts() {
    let g = Grid::new(2, 2).unwrap();
    let r = BwFractalRenderer::new(10);
    assert!(matches!(r.pixels(&g, &[1, 2, 3]), Err(RenderError::OtherError(_))));
    assert!(matches!(r.render(&g, &[1, 2, 3]), Err(RenderError::OtherError(_))));
}

#[test]
fn bw_render_builds_gray_image() {
    let g = Grid::new(2, 1).unwrap();
    let r = BwFractalRenderer::new(4);
    let img = r.render(&g, &[1, 4]).unwrap();
    let gray = img.as_luma8().unwrap();
    assert_eq!((gray.width(), gray.height()), (2, 1));
    assert_eq!(gray.as_raw(), &vec![63u8, 255]);
}

#[test]
fn grayscale_pixels_of_intensities() {
    let m = MappingResult {
        values: vec![
            MappedCellIntensity::EscapedValue(INTENSITY_ONE),
            MappedCellIntensity::EscapedValue(INTENSITY_ONE / 2),
            MappedCellIntensity::BoundedValue,
            MappedCellIntensity::EscapedValue(0),
        ],
        width: 2,
        height: 2,
    };
    assert_eq!(grayscale_pixels(&m), vec![255, 127, 0, 0]);
}

#[test]
fn grayscale_renderer_maps_and_draws() {
    let g = Grid::new(2, 1).unwrap();
    let r = GrayscaleFractalRenderer::new(LinearMapper::new(10));
    let (w, h, p) = r.pixels(&g, &[Escaped(10), Bounded]).unwrap();
    assert_eq!((w, h), (2, 1));
    assert_eq!(p, vec![255, 0]);
    let img = r.render(&g, &[Escaped(5), Bounded]).unwrap();
    assert_eq!(img.as_luma8().unwrap().as_raw(), &vec![127u8, 0]);
}

#[test]
fn grayscale_renderer_antialiased_size() {
    let g = Grid::new(4, 2).unwrap();
    let r = GrayscaleFractalRenderer::new(AntialiasMapper::new(1, LinearMapper::new(2)));
    let vals = [Bounded, Bounded, Escaped(0), Escaped(2), Bounded, Bounded, Escaped(0), Escaped(2)];
    let img = r.render(&g, &vals).unwrap();
    let gray = img.as_luma8().unwrap();
    assert_eq!((gray.width(), gray.height()), (2, 1));
    assert_eq!(gray.as_raw(), &vec![0u8, 127]);
}

#[test]
fn grayscale_renderer_rejects_mismatch() {
    let g = Grid::new(2, 2).unwrap();
    let r = GrayscaleFractalRenderer::new(LinearMapper::new(10));
    assert!(matches!(r.render(&g, &[Bounded]), Err(RenderError::OtherError(_))));
}

#[test]
fn render_mapping_draws_the_pixels() {
    let m = MappingResult {
        values: vec![MappedCellIntensity::EscapedValue(INTENSITY_ONE), MappedCellIntensity::BoundedValue],
        width: 1,
        height: 2,
    };
    let img = escape_render::render::render_mapping(&m).unwrap();
    let gray = img.as_luma8().unwrap();
    assert_eq!((gray.width(), gray.height()), (1, 2));
    assert_eq!(gray.as_raw(), &vec![255u8, 0]);
}
