//! Rasters of RGBA pixels, and the bridge from the `image` crate.

use image::DynamicImage;
use image::GenericImageView;
use vstd::prelude::*;

verus! {

/// The decoded picture type of the `image` crate, opaque to the verifier.
#[verifier::external_type_specification]
#[verifier::external_body]
pub struct ExDynamicImage(image::DynamicImage);

/// The width that `DynamicImage::width` reports for `img`.
pub uninterp spec fn image_width(img: DynamicImage) -> u32;

/// The height that `DynamicImage::height` reports for `img`.
pub uninterp spec fn image_height(img: DynamicImage) -> u32;

/// The RGBA value that `GenericImageView::get_pixel` reads at `(x, y)` of `img`.
pub uninterp spec fn image_pixel(img: DynamicImage, x: u32, y: u32) -> (u8, u8, u8, u8);

/// Calls `DynamicImage::width`. Trusted: the result is the image's width.
#[verifier::external_body]
fn width_of(img: &DynamicImage) -> (w: u32)
    ensures
        w == image_width(*img),
{
    img.width()
}

/// Calls `DynamicImage::height`. Trusted: the result is the image's height.
#[verifier::external_body]
fn height_of(img: &DynamicImage) -> (h: u32)
    ensures
        h == image_height(*img),
{
    img.height()
}

/// Calls `GenericImageView::get_pixel` on a `DynamicImage`, which converts the
/// stored pixel to 8-bit RGBA. Trusted: the four channels are those of the
/// pixel at `(x, y)`. The call panics outside the image, hence the bounds.
#[verifier::external_body]
fn pixel_of(img: &DynamicImage, x: u32, y: u32) -> (p: (u8, u8, u8, u8))
    requires
        x < image_width(*img),
        y < image_height(*img),
    ensures
        p == image_pixel(*img, x, y),
{
    let rgba = img.get_pixel(x, y);
    (rgba.0[0], rgba.0[1], rgba.0[2], rgba.0[3])
}

/// A picture held as plain bytes: four per pixel (red, green, blue, alpha),
/// rows from top to bottom, each row from left to right.
#[derive(Debug)]
pub struct Raster {
    width: u32,
    height: u32,
    data: Vec<u8>,
}

impl View for Raster {
    type V = Seq<u8>;

    /// The bytes of the raster in storage order.
    closed spec fn view(&self) -> Seq<u8> {
        self.data@
    }
}

/// Position of channel `c` of pixel `(x, y)` in a raster `width` pixels wide.
pub open spec fn offset(width: int, x: int, y: int, c: int) -> int {
    4 * (y * width + x) + c
}

/// Every channel of every pixel inside a `width` by `height` raster has its
/// own position below `4 * width * height`.
pub proof fn lemma_offset_bounds(width: int, height: int, x: int, y: int, c: int)
    requires
        0 <= x < width,
        0 <= y < height,
        0 <= c < 4,
    ensures
        0 <= offset(width, x, y, c) < 4 * width * height,
        0 <= y * width <= y * width + x < width * height,
{
    assert(y * width + x < height * width) by (nonlinear_arith)
        requires
            0 <= x < width,
            0 <= y < height,
    ;
    assert(0 <= y * width) by (nonlinear_arith)
        requires
            0 <= y,
            0 <= width,
    ;
    assert(4 * (height * width) == 4 * width * height && height * width == width * height)
        by (nonlinear_arith);
}

/// The four bytes that `data` holds for pixel `(x, y)` of a raster `width`
/// pixels wide.
pub open spec fn pixel_in(data: Seq<u8>, width: int, x: int, y: int) -> (u8, u8, u8, u8) {
    (
        data[offset(width, x, y, 0)],
        data[offset(width, x, y, 1)],
        data[offset(width, x, y, 2)],
        data[offset(width, x, y, 3)],
    )
}

impl Raster {
    /// Width in pixels.
    pub closed spec fn spec_width(&self) -> u32 {
        self.width
    }

    /// Height in pixels.
    pub closed spec fn spec_height(&self) -> u32 {
        self.height
    }

    /// The byte count matches the dimensions.
    pub open spec fn wf(&self) -> bool {
        self@.len() == 4 * self.spec_width() * self.spec_height()
    }

    /// Channel `c` (0 red, 1 green, 2 blue, 3 alpha) of the pixel at `(x, y)`.
    pub open spec fn channel(&self, x: int, y: int, c: int) -> u8 {
        self@[offset(self.spec_width() as int, x, y, c)]
    }

    /// The four channels of the pixel at `(x, y)`.
    pub open spec fn pixel(&self, x: int, y: int) -> (u8, u8, u8, u8) {
        pixel_in(self@, self.spec_width() as int, x, y)
    }

    /// Whether `(x, y)` lies inside the raster.
    pub open spec fn holds(&self, x: int, y: int) -> bool {
        0 <= x < self.spec_width() && 0 <= y < self.spec_height()
    }

    #[verifier::when_used_as_spec(spec_width)]
    pub fn width(&self) -> (w: u32)
        ensures
            w == self.spec_width(),
    {
        self.width
    }

    #[verifier::when_used_as_spec(spec_height)]
    pub fn height(&self) -> (h: u32)
        ensures
            h == self.spec_height(),
    {
        self.height
    }

    /// Wraps `data` as a raster of the given size, if it has exactly four
    /// bytes per pixel.
    pub fn new(width: u32, height: u32, data: Vec<u8>) -> (r: Option<Raster>)
        ensures
            r is Some <==> data@.len() == 4 * width * height,
            r is Some ==> {
                &&& r.unwrap().wf()
                &&& r.unwrap().spec_width() == width
                &&& r.unwrap().spec_height() == height
                &&& r.unwrap()@ == data@
            },
    {
        assert(0 <= width * height <= 0xffff_ffff * 0xffff_ffff) by (nonlinear_arith)
            requires
                0 <= width <= 0xffff_ffff,
                0 <= height <= 0xffff_ffff,
        ;
        assert(4 * (width * height) == 4 * width * height) by (nonlinear_arith);
        let pixels: u64 = (width as u64) * (height as u64);
        if (data.len() as u128) == 4 * (pixels as u128) {
            Some(Raster { width, height, data })
        } else {
            None
        }
    }

    /// Copies a decoded picture pixel by pixel, each converted to 8-bit RGBA.
    pub fn from_image(img: &DynamicImage) -> (r: Raster)
        ensures
            r.wf(),
            r.spec_width() == image_width(*img),
            r.spec_height() == image_height(*img),
            forall|x: u32, y: u32|
                x < image_width(*img) && y < image_height(*img) ==> r.pixel(x as int, y as int)
                    == #[trigger] image_pixel(*img, x, y),
    {
        let width = width_of(img);
        let height = height_of(img);
        let mut data: Vec<u8> = Vec::new();
        let mut y: u32 = 0;
        while y < height
            invariant
                width == image_width(*img),
                height == image_height(*img),
                y <= height,
                data@.len() == 4 * (y * width),
                forall|i: u32, j: u32|
                    i < width && j < y ==> pixel_in(data@, width as int, i as int, j as int)
                        == #[trigger] image_pixel(*img, i, j),
            decreases height - y,
        {
            let mut x: u32 = 0;
            while x < width
                invariant
                    width == image_width(*img),
                    height == image_height(*img),
                    y < height,
                    x <= width,
                    data@.len() == 4 * (y * width + x),
                    forall|i: u32, j: u32|
                        i < width && (j < y || (j == y && i < x)) ==> pixel_in(
                            data@,
                            width as int,
                            i as int,
                            j as int,
                        ) == #[trigger] image_pixel(*img, i, j),
                decreases width - x,
            {
                let p = pixel_of(img, x, y);
                let ghost before = data@;
                data.push(p.0);
                data.push(p.1);
                data.push(p.2);
                data.push(p.3);
                proof {
                    assert forall|i: u32, j: u32|
                        i < width && (j < y || (j == y && i < x + 1)) implies pixel_in(
                        data@,
                        width as int,
                        i as int,
                        j as int,
                    ) == #[trigger] image_pixel(*img, i, j) by {
                        if j == y && i == x {
                            assert(offset(width as int, i as int, j as int, 0) == before.len());
                        } else {
                            lemma_offset_bounds(width as int, y as int + 1, i as int, j as int, 3);
                            assert(j * width + i < y * width + x) by (nonlinear_arith)
                                requires
                                    0 <= i < width,
                                    0 <= x < width,
                                    j < y || (j == y && i < x),
                                    0 <= j,
                            ;
                            assert(pixel_in(before, width as int, i as int, j as int)
                                == image_pixel(*img, i, j));
                        }
                    }
                }
                x = x + 1;
            }
            proof {
                assert(4 * (y * width + width) == 4 * ((y + 1) * width)) by (nonlinear_arith);
            }
            y = y + 1;
        }
        proof {
            assert(4 * (height * width) == 4 * width * height) by (nonlinear_arith);
        }
        Raster { width, height, data }
    }

    /// Gives the bytes back.
    pub fn into_raw(self) -> (data: Vec<u8>)
        ensures
            data@ == self@,
    {
        self.data
    }

    /// Channel `c` of the pixel at `(x, y)`.
    pub(crate) fn sample(&self, x: u32, y: u32, c: usize) -> (v: u8)
        requires
            self.wf(),
            self.holds(x as int, y as int),
            c < 4,
        ensures
            v == self.channel(x as int, y as int, c as int),
    {
        proof {
            lemma_offset_bounds(self.width as int, self.height as int, x as int, y as int, c as int);
            assert(self.data.len() == 4 * self.width * self.height);
        }
        let row: usize = (y as usize) * (self.width as usize);
        let at: usize = 4 * (row + x as usize) + c;
        self.data[at]
    }

    /// The pixel at `(x, y)`, or `None` outside the raster.
    pub fn get(&self, x: u32, y: u32) -> (p: Option<(u8, u8, u8, u8)>)
        requires
            self.wf(),
        ensures
            p == if self.holds(x as int, y as int) {
                Some(self.pixel(x as int, y as int))
            } else {
                None
            },
    {
        if x < self.width && y < self.height {
            Some((self.sample(x, y, 0), self.sample(x, y, 1), self.sample(x, y, 2), self.sample(x, y, 3)))
        } else {
            None
        }
    }
}

} // verus!
