//! Grayscale rasters. The pixels are kept by the `image` crate; what is
//! stated of them here is taken on trust from that crate.

use image::{GenericImageView, ImageBuffer, Luma};
use imageproc::distance_transform::Norm;
use imageproc::morphology::dilate;
use imageproc::region_labelling::{connected_components, Connectivity};
use vstd::prelude::*;

verus! {

/// An 8-bit grayscale raster, held as an `image::ImageBuffer<Luma<u8>, Vec<u8>>`.
#[verifier::external_body]
pub struct GrayImage {
    inner: ImageBuffer<Luma<u8>, Vec<u8>>,
}

/// The rows of a raster from top to bottom, each from left to right.
pub uninterp spec fn gray_rows(img: GrayImage) -> Seq<Seq<u8>>;

/// The number of pixels in each row of a raster.
pub uninterp spec fn gray_width(img: GrayImage) -> nat;

/// The labels that `imageproc::region_labelling::connected_components`
/// gives the pixels of a raster under 4-connectivity, with white (255) as
/// background: 0 for a white pixel, and for any other the number of its
/// component.
pub uninterp spec fn dark_components(rows: Seq<Seq<u8>>) -> Seq<Seq<u32>>;

/// The rows of a grid of labels.
pub open spec fn grid(labels: Seq<Vec<u32>>) -> Seq<Seq<u32>> {
    labels.map_values(|row: Vec<u32>| row@)
}

/// A raster as a value: its rows from top to bottom, and their length.
pub struct Raster {
    pub rows: Seq<Seq<u8>>,
    pub width: nat,
}

impl Raster {
    pub open spec fn height(self) -> nat {
        self.rows.len()
    }

    pub open spec fn contains(self, x: int, y: int) -> bool {
        0 <= x < self.width && 0 <= y < self.height()
    }

    /// The gray value at `(x, y)`.
    pub open spec fn at(self, x: int, y: int) -> u8 {
        self.rows[y][x]
    }

    /// The pixel `(x, y)` lies in the raster and is not black.
    pub open spec fn lit(self, x: int, y: int) -> bool {
        self.contains(x, y) && self.at(x, y) > 0
    }

    /// No pixel of the lowest row is lit.
    pub open spec fn bottom_dark(self) -> bool {
        forall|x: int| 0 <= x < self.width ==> !#[trigger] self.lit(x, self.height() - 1)
    }

    /// A raster of this size can be scanned for components: its pixels and
    /// the labels of its components can be counted in 32 bits, and its
    /// moments fit in 64.
    pub open spec fn scannable(self) -> bool {
        &&& self.width <= 0xff_ffff
        &&& self.height() <= 0xff_ffff
        &&& self.width * self.height() + self.width + 10 < u32::MAX
    }

    /// The rows of the window of `width` by `height` pixels whose upper left
    /// corner is `(x, y)`.
    pub open spec fn window(self, x: int, y: int, width: nat, height: nat) -> Seq<Seq<u8>> {
        Seq::new(height, |j: int| Seq::new(width, |i: int| self.at(x + i, y + j)))
    }

    /// The pixel `(x, y)` is white, or has the gray value of the pixel to
    /// its left or of the pixel above it.
    pub open spec fn repeats(self, x: int, y: int) -> bool {
        ||| self.at(x, y) == 255
        ||| x > 0 && self.at(x - 1, y) == self.at(x, y)
        ||| y > 0 && self.at(x, y - 1) == self.at(x, y)
    }

    /// Every pixel is black (0) or white (255).
    pub open spec fn black_and_white(self) -> bool {
        forall|x: int, y: int| self.contains(x, y) ==> #[trigger] self.at(x, y) == 0 || self.at(x, y) == 255
    }

    /// The components of the raster can be labelled: it is empty, or one of
    /// its pixels is white or repeats a neighbor. In any other raster every
    /// pixel starts a component of its own.
    pub open spec fn labelable(self) -> bool {
        self.width == 0 || self.height() == 0 || exists|x: int, y: int|
            self.contains(x, y) && #[trigger] self.repeats(x, y)
    }
}

impl View for GrayImage {
    type V = Raster;

    open spec fn view(&self) -> Raster {
        Raster { rows: gray_rows(*self), width: gray_width(*self) }
    }
}

impl GrayImage {
    pub open spec fn width(self) -> nat {
        gray_width(self)
    }

    pub open spec fn height(self) -> nat {
        gray_rows(self).len()
    }

    /// Every row is as long as the raster is wide, and both dimensions fit
    /// in 32 bits.
    pub open spec fn wf(self) -> bool {
        &&& self.width() <= u32::MAX
        &&& self.height() <= u32::MAX
        &&& forall|y: int| 0 <= y < self.height() ==> (#[trigger] gray_rows(self)[y]).len() == self.width()
    }

    pub open spec fn contains(self, x: int, y: int) -> bool {
        self@.contains(x, y)
    }

    /// The gray value at `(x, y)`.
    pub open spec fn at(self, x: int, y: int) -> u8 {
        self@.at(x, y)
    }

    /// The pixel `(x, y)` lies in the raster and is not black.
    pub open spec fn lit(self, x: int, y: int) -> bool {
        self@.lit(x, y)
    }

    /// A lit pixel lies at `(x, y)` or next to it, diagonals counted.
    pub open spec fn lit_near(self, x: int, y: int) -> bool {
        exists|a: int, b: int| x - 1 <= a <= x + 1 && y - 1 <= b <= y + 1 && #[trigger] self.lit(a, b)
    }

    /// The rows of the window of `width` by `height` pixels whose upper left
    /// corner is `(x, y)`.
    pub open spec fn window(self, x: int, y: int, width: nat, height: nat) -> Seq<Seq<u8>> {
        self@.window(x, y, width, height)
    }

    /// No pixel of the lowest row is lit.
    pub open spec fn bottom_dark(self) -> bool {
        self@.bottom_dark()
    }

    /// The rows of a raster of the given width whose pixels are `data`, row
    /// after row.
    pub open spec fn rows_of(width: nat, height: nat, data: Seq<u8>) -> Seq<Seq<u8>> {
        Seq::new(height, |y: int| Seq::new(width, |x: int| data[y * width + x]))
    }

    /// A raster of `width` by `height` pixels out of `data`, which holds the
    /// rows one after another; `None` unless `data` has exactly that many
    /// entries.
    pub fn from_raw(width: u32, height: u32, data: Vec<u8>) -> (r: Option<GrayImage>)
        ensures
            r.is_some() <==> data.len() == width * height,
            r matches Some(img) ==> img.wf() && img.width() == width && img.height() == height
                && gray_rows(img) == Self::rows_of(width as nat, height as nat, data@),
    {
        assert(width * height <= 0xffff_ffff * 0xffff_ffff) by (nonlinear_arith)
            requires
                width <= 0xffff_ffff,
                height <= 0xffff_ffff,
        ;
        let fits = (data.len() as u128) == (width as u128) * (height as u128);
        if fits {
            raw_buffer(width, height, data)
        } else {
            None
        }
    }

    /// A black raster.
    pub fn blank(width: u32, height: u32) -> (img: GrayImage)
        requires
            width * height <= usize::MAX,
        ensures
            img.wf(),
            img.width() == width,
            img.height() == height,
            forall|x: int, y: int| img.contains(x, y) ==> img.at(x, y) == 0,
    {
        zeroed_buffer(width, height)
    }

    /// Width and height.
    pub fn dimensions(&self) -> (d: (u32, u32))
        ensures
            self.wf(),
            d.0 == self.width(),
            d.1 == self.height(),
    {
        buffer_dimensions(self)
    }

    /// The gray value at `(x, y)`; `None` outside the raster.
    pub fn get(&self, x: u32, y: u32) -> (v: Option<u8>)
        ensures
            v == (if self.contains(x as int, y as int) {
                Some(self.at(x as int, y as int))
            } else {
                None
            }),
    {
        let (w, h) = buffer_dimensions(self);
        if x < w && y < h {
            Some(pixel(self, x, y))
        } else {
            None
        }
    }

    /// Sets the gray value at `(x, y)` and returns `true`; outside the raster
    /// it changes nothing and returns `false`.
    pub fn set(&mut self, x: u32, y: u32, value: u8) -> (done: bool)
        ensures
            done == old(self).contains(x as int, y as int),
            final(self).wf(),
            final(self).width() == old(self).width(),
            final(self).height() == old(self).height(),
            done ==> gray_rows(*final(self)) == gray_rows(*old(self)).update(
                y as int,
                gray_rows(*old(self))[y as int].update(x as int, value),
            ),
            !done ==> gray_rows(*final(self)) == gray_rows(*old(self)),
    {
        let (w, h) = buffer_dimensions(self);
        if x < w && y < h {
            set_pixel(self, x, y, value);
            true
        } else {
            false
        }
    }
}

/// `ImageBuffer::from_raw`: succeeds where the buffer holds at least
/// `width * height` samples; the image is then made of the first that many,
/// row after row.
#[verifier::external_body]
fn raw_buffer(width: u32, height: u32, data: Vec<u8>) -> (r: Option<GrayImage>)
    ensures
        r.is_some() <==> width * height <= data.len(),
        r matches Some(img) ==> img.wf() && img.width() == width && img.height() == height
            && gray_rows(img) == GrayImage::rows_of(width as nat, height as nat, data@),
{
    ImageBuffer::from_raw(width, height, data).map(|inner| GrayImage { inner })
}

/// `ImageBuffer::new`: an image of the given size with every sample zero. It
/// panics where the number of samples does not fit in `usize`.
#[verifier::external_body]
pub(crate) fn zeroed_buffer(width: u32, height: u32) -> (img: GrayImage)
    requires
        width * height <= usize::MAX,
    ensures
        img.wf(),
        img.width() == width,
        img.height() == height,
        forall|x: int, y: int| img.contains(x, y) ==> img.at(x, y) == 0,
{
    GrayImage { inner: ImageBuffer::new(width, height) }
}

/// `ImageBuffer::dimensions`: width and height, which every row and the
/// number of rows agree with. The samples of an image lie in one buffer, so
/// their number fits in `usize`.
#[verifier::external_body]
pub(crate) fn buffer_dimensions(img: &GrayImage) -> (d: (u32, u32))
    ensures
        d.0 == gray_width(*img),
        d.1 == gray_rows(*img).len(),
        d.0 * d.1 <= usize::MAX,
        forall|y: int| 0 <= y < d.1 ==> (#[trigger] gray_rows(*img)[y]).len() == d.0,
{
    img.inner.dimensions()
}

/// `ImageBuffer::get_pixel`: the sample at `(x, y)`. It panics outside the
/// image.
#[verifier::external_body]
pub(crate) fn pixel(img: &GrayImage, x: u32, y: u32) -> (v: u8)
    requires
        img.contains(x as int, y as int),
    ensures
        v == img.at(x as int, y as int),
{
    img.inner.get_pixel(x, y).0[0]
}

/// `ImageBuffer::put_pixel`: overwrites the sample at `(x, y)` and no other.
/// It panics outside the image.
#[verifier::external_body]
pub(crate) fn set_pixel(img: &mut GrayImage, x: u32, y: u32, value: u8)
    requires
        old(img).contains(x as int, y as int),
    ensures
        gray_width(*final(img)) == gray_width(*old(img)),
        gray_rows(*final(img)) == gray_rows(*old(img)).update(
            y as int,
            gray_rows(*old(img))[y as int].update(x as int, value),
        ),
{
    img.inner.put_pixel(x, y, Luma([value]))
}

/// `GenericImageView::view` and `SubImage::to_image`: a copy of the window
/// of `width` by `height` pixels whose upper left corner is `(x, y)`. It
/// panics where the window leaves the image.
#[verifier::external_body]
pub(crate) fn crop(img: &GrayImage, x: u32, y: u32, width: u32, height: u32) -> (part: GrayImage)
    requires
        x + width <= img.width(),
        y + height <= img.height(),
    ensures
        gray_width(part) == width,
        gray_rows(part) == img.window(x as int, y as int, width as nat, height as nat),
{
    GrayImage { inner: img.inner.view(x, y, width, height).to_image() }
}

/// `imageproc::region_labelling::connected_components` with
/// `Connectivity::Four` and white as background: a label for every pixel,
/// row by row, which is 0 for the white pixels and for no other. It panics
/// on an image of 2^32 pixels or more, and it counts the components, from 1
/// on, in 32 bits: an image has to hold fewer than 2^32 - 1 pixels. It
/// hands out a label, from 1 on, to each pixel that is not white and
/// repeats neither the pixel to its left nor the pixel above it, and has
/// room for one label less than the image has pixels: it panics on an
/// image, not empty, in which every pixel is such a pixel.
#[verifier::external_body]
pub(crate) fn label_dark(img: &GrayImage) -> (labels: Vec<Vec<u32>>)
    requires
        img.width() * img.height() < u32::MAX,
        img@.labelable(),
    ensures
        grid(labels@) == dark_components(gray_rows(*img)),
        labels.len() == gray_rows(*img).len(),
        forall|j: int| 0 <= j < labels.len() ==> (#[trigger] labels[j]).len() == gray_width(*img),
        forall|i: int, j: int|
            img.contains(i, j) ==> ((#[trigger] labels[j][i]) == 0 <==> img.at(i, j) == 255),
{
    let found = connected_components(&img.inner, Connectivity::Four, Luma([255u8]));
    (0..found.height()).map(|y| (0..found.width()).map(|x| found.get_pixel(x, y).0[0]).collect()).collect()
}

/// `imageproc::morphology::dilate` with `Norm::LInf` and distance 1: white
/// (255) where a pixel that is not black lies at most one step away,
/// diagonals counted, and black elsewhere. It adds width and height in 32
/// bits, so their sum has to fit.
#[verifier::external_body]
pub(crate) fn dilate_one(img: &GrayImage) -> (out: GrayImage)
    requires
        img.width() + img.height() <= u32::MAX,
    ensures
        gray_width(out) == gray_width(*img),
        gray_rows(out).len() == gray_rows(*img).len(),
        forall|j: int| 0 <= j < gray_rows(out).len() ==> (#[trigger] gray_rows(out)[j]).len() == gray_width(out),
        forall|i: int, j: int|
            out.contains(i, j) ==> #[trigger] out.at(i, j) == (if img.lit_near(i, j) {
                255u8
            } else {
                0u8
            }),
{
    GrayImage { inner: dilate(&img.inner, Norm::LInf, 1) }
}

} // verus!
