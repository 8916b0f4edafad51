use vstd::prelude::*;
use crate::fractal::FractalOrbit;
use crate::grid::Grid;
use crate::map::{INTENSITY_ONE, MappedCellIntensity, MappingResult, OrbitMapper, intensity_ok};

verus! {

#[verifier::external_type_specification]
#[verifier::external_body]
pub struct ExImageError(image::ImageError);

#[verifier::external_type_specification]
#[verifier::external_body]
pub struct ExDynamicImage(image::DynamicImage);

/// Why an image could not be produced.
#[derive(Debug)]
pub enum RenderError {
    /// The image library failed.
    ImageError(image::ImageError),
    /// The input does not fit the grid or the image.
    OtherError(String),
}

/// The one-channel 8-bit image `width` by `height` made from the row-major bytes `pixels`.
pub uninterp spec fn gray_image_of(width: u32, height: u32, pixels: Seq<u8>) -> image::DynamicImage;

/// Relies on `image::ImageBuffer::from_raw` for one-channel `u8` pixels: it returns
/// an image exactly when the buffer holds at least `width * height` bytes, and the
/// image is made from the dimensions and the bytes alone.
#[verifier::external_body]
fn luma_image(width: u32, height: u32, pixels: Vec<u8>) -> (r: Option<image::DynamicImage>)
    ensures
        r is Some <==> width as nat * height as nat <= pixels@.len(),
        r matches Some(img) ==> img == gray_image_of(width, height, pixels@),
{
    image::ImageBuffer::<image::Luma<u8>, Vec<u8>>::from_raw(width, height, pixels).map(
        image::DynamicImage::ImageLuma8,
    )
}

/// Turns row-major intensities into a `width` by `height` gray image, or reports a size
/// that does not fit.
fn image_of(width: usize, height: usize, pixels: Vec<u8>) -> (r: Result<
    image::DynamicImage,
    RenderError,
>)
    requires
        pixels@.len() == width as nat * height as nat,
    ensures
        r is Ok <==> width <= u32::MAX && height <= u32::MAX,
        r matches Ok(img) ==> img == gray_image_of(width as u32, height as u32, pixels@),
        r matches Err(e) ==> e is OtherError,
{
    if width > u32::MAX as usize || height > u32::MAX as usize {
        return Err(RenderError::OtherError("image dimensions exceed u32".to_string()));
    }
    match luma_image(width as u32, height as u32, pixels) {
        Some(img) => Ok(img),
        None => Err(RenderError::OtherError("pixel buffer too small".to_string())),
    }
}

/// Draws classifications (or counts) on a grid as a gray image.
pub trait FractalRenderer<Input> {
    /// The inputs on which rendering is defined.
    spec fn renders_on(&self, grid: Grid, intensities: Seq<Input>) -> bool;

    /// The inputs on which rendering succeeds.
    spec fn succeeds_on(&self, grid: Grid, intensities: Seq<Input>) -> bool;

    /// The image rendered from the inputs.
    spec fn rendered(&self, grid: Grid, intensities: Seq<Input>) -> image::DynamicImage;

    fn render(&self, grid: &Grid, intensities: &[Input]) -> (r: Result<
        image::DynamicImage,
        RenderError,
    >)
        requires
            grid.wf(),
            self.renders_on(*grid, intensities@),
        ensures
            r is Ok <==> self.succeeds_on(*grid, intensities@),
            r matches Ok(img) ==> img == self.rendered(*grid, intensities@),
            r matches Err(e) ==> e is OtherError,
    ;
}

/// Gray level of an iteration count `i` out of `max_iter`: `floor(255 * i / max_iter)`,
/// held to `[0, 255]`.
pub open spec fn count_pixel(i: int, max_iter: int) -> u8 {
    if i <= 0 {
        0
    } else if i >= max_iter {
        255
    } else {
        (i * 255 / max_iter) as u8
    }
}

/// Renders iteration counts linearly, from black at 0 to white at `max_iter`.
pub struct BwFractalRenderer {
    pub max_iter: i32,
}

impl BwFractalRenderer {
    pub fn new(max_iter: i32) -> (r: Self)
        ensures
            r.max_iter == max_iter,
    {
        BwFractalRenderer { max_iter }
    }

    /// The gray level of each count, or an error when the counts do not match the grid.
    pub fn pixels(&self, grid: &Grid, intensities: &[i32]) -> (r: Result<Vec<u8>, RenderError>)
        requires
            grid.wf(),
            self.max_iter > 0,
        ensures
            r is Ok <==> intensities@.len() == grid.spec_num_cells(),
            r matches Ok(p) ==> p@ == intensities@.map_values(
                |i: i32| count_pixel(i as int, self.max_iter as int),
            ),
            r matches Err(e) ==> e is OtherError,
    {
        if grid.num_cells() != intensities.len() {
            return Err(
                RenderError::OtherError("Grid and intensities dimensions don't match".to_string()),
            );
        }
        let mut out: Vec<u8> = Vec::new();
        let mut k: usize = 0;
        while k < intensities.len()
            invariant
                self.max_iter > 0,
                k <= intensities@.len(),
                out@.len() == k,
                forall|j: int|
                    0 <= j < k ==> out@[j] == count_pixel(
                        intensities@[j] as int,
                        self.max_iter as int,
                    ),
            decreases intensities@.len() - k,
        {
            let i = intensities[k];
            let p: u8 = if i <= 0 {
                0
            } else if i >= self.max_iter {
                255
            } else {
                proof {
                    assert(i as int * 255 / self.max_iter as int <= 255) by (nonlinear_arith)
                        requires
                            0 < i < self.max_iter,
                    ;
                    assert(i as int * 255 <= i64::MAX) by (nonlinear_arith)
                        requires
                            0 < i <= i32::MAX,
                    ;
                }
                ((i as i64) * 255 / (self.max_iter as i64)) as u8
            };
            out.push(p);
            k = k + 1;
        }
        assert(out@ =~= intensities@.map_values(
            |i: i32| count_pixel(i as int, self.max_iter as int),
        ));
        Ok(out)
    }
}

impl FractalRenderer<i32> for BwFractalRenderer {
    open spec fn renders_on(&self, grid: Grid, intensities: Seq<i32>) -> bool {
        self.max_iter > 0
    }

    open spec fn succeeds_on(&self, grid: Grid, intensities: Seq<i32>) -> bool {
        intensities.len() == grid.spec_num_cells()
    }

    open spec fn rendered(&self, grid: Grid, intensities: Seq<i32>) -> image::DynamicImage {
        gray_image_of(
            grid.cells_x,
            grid.cells_y,
            intensities.map_values(|i: i32| count_pixel(i as int, self.max_iter as int)),
        )
    }

    fn render(&self, grid: &Grid, intensities: &[i32]) -> (r: Result<
        image::DynamicImage,
        RenderError,
    >) {
        let pixels = self.pixels(grid, intensities)?;
        image_of(grid.cells_x as usize, grid.cells_y as usize, pixels)
    }
}

/// Gray level of one intensity: `floor(255 * v)` for a value `v`, black for the
/// bounded marker.
pub open spec fn intensity_pixel(c: MappedCellIntensity) -> u8 {
    match c {
        MappedCellIntensity::EscapedValue(v) => (v as nat * 255 / INTENSITY_ONE as nat) as u8,
        MappedCellIntensity::BoundedValue => 0,
    }
}

/// The gray level of each cell of a mapped field.
pub fn grayscale_pixels(mapped: &MappingResult) -> (r: Vec<u8>)
    requires
        mapped.wf(),
    ensures
        r@ == mapped.values@.map_values(|c: MappedCellIntensity| intensity_pixel(c)),
{
    let mut out: Vec<u8> = Vec::new();
    let mut k: usize = 0;
    while k < mapped.values.len()
        invariant
            mapped.wf(),
            k <= mapped.values@.len(),
            out@.len() == k,
            forall|j: int| 0 <= j < k ==> out@[j] == intensity_pixel(mapped.values@[j]),
        decreases mapped.values@.len() - k,
    {
        let c = mapped.values[k];
        assert(intensity_ok(mapped.values@[k as int]));
        let p: u8 = match c {
            MappedCellIntensity::BoundedValue => 0,
            MappedCellIntensity::EscapedValue(v) => {
                proof {
                    assert(v as nat * 255 / INTENSITY_ONE as nat <= 255) by (nonlinear_arith)
                        requires
                            v <= INTENSITY_ONE,
                    ;
                }
                ((v as u128) * 255 / (INTENSITY_ONE as u128)) as u8
            },
        };
        out.push(p);
        k = k + 1;
    }
    assert(out@ =~= mapped.values@.map_values(|c: MappedCellIntensity| intensity_pixel(c)));
    out
}

/// Draws a mapped field as a gray image, bounded cells in black.
pub fn render_mapping(mapped: &MappingResult) -> (r: Result<image::DynamicImage, RenderError>)
    requires
        mapped.wf(),
    ensures
        r is Ok <==> mapped.width <= u32::MAX && mapped.height <= u32::MAX,
        r matches Ok(img) ==> img == gray_image_of(
            mapped.width as u32,
            mapped.height as u32,
            mapped.values@.map_values(|c: MappedCellIntensity| intensity_pixel(c)),
        ),
        r matches Err(e) ==> e is OtherError,
{
    let pixels = grayscale_pixels(mapped);
    image_of(mapped.width, mapped.height, pixels)
}

/// Renders classifications through an intensity mapper, bounded cells in black.
pub struct GrayscaleFractalRenderer<T> {
    pub mapper: T,
}

impl<T: OrbitMapper> GrayscaleFractalRenderer<T> {
    pub fn new(mapper: T) -> (r: Self)
        ensures
            r.mapper == mapper,
    {
        GrayscaleFractalRenderer { mapper }
    }

    /// The mapped field's size and gray levels, or an error when the classifications
    /// do not match the grid.
    pub fn pixels(&self, grid: &Grid, intensities: &[FractalOrbit]) -> (r: Result<
        (usize, usize, Vec<u8>),
        RenderError,
    >)
        requires
            grid.wf(),
            intensities@.len() == grid.spec_num_cells() ==> self.mapper.accepts(
                grid.cells_x as nat,
                grid.cells_y as nat,
                intensities@,
            ),
        ensures
            r is Ok <==> intensities@.len() == grid.spec_num_cells(),
            r matches Ok(p) ==> {
                let m = self.mapper.mapping(grid.cells_x as nat, grid.cells_y as nat, intensities@);
                &&& p.0 == m.0
                &&& p.1 == m.1
                &&& p.2@ == m.2.map_values(|c: MappedCellIntensity| intensity_pixel(c))
                &&& p.2@.len() == p.0 as nat * p.1 as nat
            },
            r matches Err(e) ==> e is OtherError,
    {
        if grid.num_cells() != intensities.len() {
            return Err(
                RenderError::OtherError("Grid and intensities dimensions don't match".to_string()),
            );
        }
        let mapped = self.mapper.map(grid.cells_x as usize, grid.cells_y as usize, intensities);
        let pixels = grayscale_pixels(&mapped);
        Ok((mapped.width, mapped.height, pixels))
    }
}

impl<T: OrbitMapper> FractalRenderer<FractalOrbit> for GrayscaleFractalRenderer<T> {
    open spec fn renders_on(&self, grid: Grid, intensities: Seq<FractalOrbit>) -> bool {
        intensities.len() == grid.spec_num_cells() ==> self.mapper.accepts(
            grid.cells_x as nat,
            grid.cells_y as nat,
            intensities,
        )
    }

    open spec fn succeeds_on(&self, grid: Grid, intensities: Seq<FractalOrbit>) -> bool {
        let m = self.mapper.mapping(grid.cells_x as nat, grid.cells_y as nat, intensities);
        &&& intensities.len() == grid.spec_num_cells()
        &&& m.0 <= u32::MAX
        &&& m.1 <= u32::MAX
    }

    open spec fn rendered(&self, grid: Grid, intensities: Seq<FractalOrbit>) -> image::DynamicImage {
        let m = self.mapper.mapping(grid.cells_x as nat, grid.cells_y as nat, intensities);
        gray_image_of(
            m.0 as u32,
            m.1 as u32,
            m.2.map_values(|c: MappedCellIntensity| intensity_pixel(c)),
        )
    }

    fn render(&self, grid: &Grid, intensities: &[FractalOrbit]) -> (r: Result<
        image::DynamicImage,
        RenderError,
    >) {
        let (width, height, pixels) = self.pixels(grid, intensities)?;
        image_of(width, height, pixels)
    }
}

} // verus!
