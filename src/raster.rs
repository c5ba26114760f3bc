//! Pixel buffers: an RGBA image of the `image` crate, held behind a type of
//! this library, with a mathematical model of its pixels.

use vstd::prelude::*;

verus! {

use image::GenericImage;

/// The error of the `image` crate, which `GenericImage::copy_from` returns;
/// carried through, never looked into.
#[verifier::external_type_specification]
#[verifier::external_body]
pub struct ExImageError(image::ImageError);

/// One RGBA pixel: red, green, blue, alpha.
pub type Px = (u8, u8, u8, u8);

/// The fully transparent pixel that a new buffer is filled with.
pub open spec fn clear_px() -> Px {
    (0u8, 0u8, 0u8, 0u8)
}

/// The model of a pixel buffer: `rows[y][x]` is the pixel in column `x` of row `y`.
pub ghost struct Raster {
    pub width: nat,
    pub rows: Seq<Seq<Px>>,
}

impl Raster {
    pub open spec fn height(self) -> nat {
        self.rows.len()
    }

    /// Every row holds exactly `width` pixels.
    pub open spec fn wf(self) -> bool {
        forall|y: int| 0 <= y < self.rows.len() ==> #[trigger] self.rows[y].len() == self.width
    }

    pub open spec fn px(self, x: int, y: int) -> Px {
        self.rows[y][x]
    }

    /// A pixel with a nonzero alpha channel.
    pub open spec fn visible(self, x: int, y: int) -> bool {
        self.rows[y][x].3 > 0
    }

    /// A `w` by `h` buffer of transparent pixels.
    pub open spec fn transparent(w: nat, h: nat) -> Raster {
        Raster { width: w, rows: Seq::new(h, |y: int| Seq::new(w, |x: int| clear_px())) }
    }

    /// The rectangle `[x, x + w) × [y, y + h)` lies inside the buffer.
    pub open spec fn holds_rect(self, x: int, y: int, w: int, h: int) -> bool {
        0 <= x && 0 <= y && 0 <= w && 0 <= h && x + w <= self.width && y + h <= self.height()
    }

    /// The sub-buffer of `w` by `h` pixels whose top-left corner is at `(x, y)`.
    pub open spec fn region(self, x: int, y: int, w: int, h: int) -> Raster {
        Raster {
            width: w as nat,
            rows: Seq::new(h as nat, |j: int| Seq::new(w as nat, |i: int| self.rows[y + j][x + i])),
        }
    }

    /// This buffer with `src` written over it, its top-left corner at `(x, y)`.
    pub open spec fn paste(self, src: Raster, x: int, y: int) -> Raster {
        Raster {
            width: self.width,
            rows: Seq::new(
                self.height(),
                |j: int|
                    Seq::new(
                        self.width,
                        |i: int|
                            if x <= i < x + src.width && y <= j < y + src.height() {
                                src.rows[j - y][i - x]
                            } else {
                                self.rows[j][i]
                            },
                    ),
            ),
        }
    }

    /// The buffer that `data` holds, four bytes per pixel, row after row.
    pub open spec fn from_bytes(w: nat, h: nat, data: Seq<u8>) -> Raster {
        Raster {
            width: w,
            rows: Seq::new(
                h,
                |y: int|
                    Seq::new(
                        w,
                        |x: int|
                            {
                                let k = 4 * (y * w + x);
                                (data[k], data[k + 1], data[k + 2], data[k + 3])
                            },
                    ),
            ),
        }
    }
}

/// An RGBA image with eight bits per channel: an `image::RgbaImage`, which
/// the verifier cannot read, known through its model `Raster` alone. Every
/// operation on it is one of the functions below.
#[verifier::external_body]
pub struct Bitmap {
    inner: image::RgbaImage,
}

/// The pixels that a bitmap holds.
pub uninterp spec fn pixels_of(b: Bitmap) -> Seq<Seq<Px>>;

/// The width that a bitmap was made with.
pub uninterp spec fn width_of(b: Bitmap) -> nat;

impl View for Bitmap {
    type V = Raster;

    open spec fn view(&self) -> Raster {
        Raster { width: width_of(*self), rows: pixels_of(*self) }
    }
}

/// A buffer of `w` by `h` pixels, four bytes each, can be allocated.
pub open spec fn fits_memory(w: int, h: int) -> bool {
    4 * (w * h) <= isize::MAX
}

/// The working buffer of resampling, `w` by `h` pixels of four 32-bit floats
/// each, can be allocated.
pub open spec fn fits_resample(w: int, h: int) -> bool {
    16 * (w * h) <= isize::MAX
}

/// Relies on `ImageBuffer::new`: a buffer of the given size, every pixel zero.
/// It panics where the byte length overflows `usize` or exceeds `isize::MAX`.
#[verifier::external_body]
pub(crate) fn blank_bitmap(w: u32, h: u32) -> (r: Bitmap)
    requires
        fits_memory(w as int, h as int),
    ensures
        r@ == Raster::transparent(w as nat, h as nat),
{
    Bitmap { inner: image::RgbaImage::new(w, h) }
}

/// Relies on `ImageBuffer::dimensions`: the width and the height of the buffer,
/// which holds `height` rows of `width` pixels.
#[verifier::external_body]
pub(crate) fn bitmap_dimensions(b: &Bitmap) -> (r: (u32, u32))
    ensures
        r.0 as nat == width_of(*b),
        r.1 as nat == pixels_of(*b).len(),
        forall|y: int| 0 <= y < r.1 ==> #[trigger] pixels_of(*b)[y].len() == r.0 as nat,
        fits_memory(r.0 as int, r.1 as int),
{
    b.inner.dimensions()
}

/// Relies on `ImageBuffer::get_pixel`, which panics outside the buffer.
#[verifier::external_body]
pub(crate) fn bitmap_pixel(b: &Bitmap, x: u32, y: u32) -> (r: Px)
    requires
        x < b@.width,
        y < b@.height(),
    ensures
        r == b@.px(x as int, y as int),
{
    let p = b.inner.get_pixel(x, y);
    (p[0], p[1], p[2], p[3])
}

/// Relies on `GenericImage::copy_from`: it fails, changing nothing, where `src`
/// placed at `(x, y)` would not fit; else it writes every pixel of `src` there.
#[verifier::external_body]
pub(crate) fn bitmap_copy_from(dst: &mut Bitmap, src: &Bitmap, x: u32, y: u32) -> (r: Result<(), image::ImageError>)
    ensures
        r is Ok <==> old(dst)@.holds_rect(x as int, y as int, src@.width as int, src@.height() as int),
        r is Ok ==> final(dst)@ == old(dst)@.paste(src@, x as int, y as int),
        r is Err ==> final(dst)@ == old(dst)@,
{
    dst.inner.copy_from(&src.inner, x, y)
}

/// Relies on `imageops::crop_imm` and `SubImage::to_image`: a copy of the
/// rectangle, which lies inside the buffer.
#[verifier::external_body]
pub(crate) fn bitmap_crop(b: &Bitmap, x: u32, y: u32, w: u32, h: u32) -> (r: Bitmap)
    requires
        b@.holds_rect(x as int, y as int, w as int, h as int),
    ensures
        r@ == b@.region(x as int, y as int, w as int, h as int),
{
    Bitmap { inner: image::imageops::crop_imm(&b.inner, x, y, w, h).to_image() }
}

/// Relies on `imageops::resize` with the Lanczos3 filter: a buffer of the
/// requested size. Its pixels come from floating-point arithmetic whose
/// precision std leaves open, so only two cases are fixed: a source of the
/// requested size is copied, and an empty source gives a zeroed buffer. It
/// first resamples the rows into a float buffer of the source width and the
/// new height.
#[verifier::external_body]
pub(crate) fn bitmap_resize(b: &Bitmap, w: u32, h: u32) -> (r: Bitmap)
    requires
        fits_memory(w as int, h as int),
        fits_resample(b@.width as int, h as int),
    ensures
        r@.width == w as nat,
        r@.height() == h as nat,
        r@.wf(),
        b@.width == 0 || b@.height() == 0 ==> r@ == Raster::transparent(w as nat, h as nat),
        b@.width > 0 && b@.height() > 0 && b@.width == w && b@.height() == h ==> r@ == b@,
{
    Bitmap {
        inner: image::imageops::resize(&b.inner, w, h, image::imageops::FilterType::Lanczos3),
    }
}

/// Relies on `ImageBuffer::from_raw`: it takes the bytes as they are, four per
/// pixel, where they are enough for the size.
#[verifier::external_body]
fn bitmap_from_raw(w: u32, h: u32, data: Vec<u8>) -> (r: Option<Bitmap>)
    ensures
        r is Some <==> 4 * ((w as int) * (h as int)) <= data@.len(),
        r is Some ==> r->0@ == Raster::from_bytes(w as nat, h as nat, data@),
{
    image::RgbaImage::from_raw(w, h, data).map(|inner| Bitmap { inner })
}

/// Relies on `ImageBuffer::into_raw`: the bytes of the buffer, four per pixel.
#[verifier::external_body]
fn bitmap_into_raw(b: Bitmap) -> (r: Vec<u8>)
    ensures
        4 * ((b@.width as int) * (b@.height() as int)) <= r@.len(),
        Raster::from_bytes(b@.width, b@.height(), r@) == b@,
{
    b.inner.into_raw()
}

pub(crate) proof fn lemma_u32_product(w: u32, h: u32)
    ensures
        0 <= (w as int) * (h as int) <= 0xffff_ffff * 0xffff_ffff,
{
    assert(0 <= (w as int) * (h as int) <= 0xffff_ffff * 0xffff_ffff) by (nonlinear_arith)
        requires
            w <= 0xffff_ffff,
            h <= 0xffff_ffff,
    ;
}

/// A buffer of `w` by `h` pixels can be allocated (checked in exact arithmetic).
pub fn fits_memory_exec(w: u32, h: u32) -> (r: bool)
    ensures
        r == fits_memory(w as int, h as int),
{
    proof {
        lemma_u32_product(w, h);
    }
    4u128 * ((w as u128) * (h as u128)) <= isize::MAX as u128
}

/// The working buffer of resampling to `w` by `h` pixels can be allocated.
pub fn fits_resample_exec(w: u32, h: u32) -> (r: bool)
    ensures
        r == fits_resample(w as int, h as int),
{
    proof {
        lemma_u32_product(w, h);
    }
    16u128 * ((w as u128) * (h as u128)) <= isize::MAX as u128
}

impl Bitmap {
    /// The bitmap of `width` by `height` pixels whose bytes, four per pixel
    /// (red, green, blue, alpha), row after row, are `data`; `None` where
    /// `data` does not hold exactly that many bytes.
    pub fn from_rgba8(width: u32, height: u32, data: Vec<u8>) -> (r: Option<Bitmap>)
        ensures
            r is Some <==> data@.len() == 4 * ((width as int) * (height as int)),
            r matches Some(b) ==> b@ == Raster::from_bytes(width as nat, height as nat, data@),
    {
        proof {
            lemma_u32_product(width, height);
        }
        if data.len() as u128 == 4u128 * ((width as u128) * (height as u128)) {
            bitmap_from_raw(width, height, data)
        } else {
            None
        }
    }

    /// The bytes of the bitmap, four per pixel (red, green, blue, alpha), row
    /// after row.
    pub fn into_rgba8(self) -> (r: Vec<u8>)
        ensures
            4 * ((self@.width as int) * (self@.height() as int)) <= r@.len(),
            Raster::from_bytes(self@.width, self@.height(), r@) == self@,
    {
        bitmap_into_raw(self)
    }

    pub fn width(&self) -> (r: u32)
        ensures
            r as nat == self@.width,
    {
        bitmap_dimensions(self).0
    }

    pub fn height(&self) -> (r: u32)
        ensures
            r as nat == self@.height(),
    {
        bitmap_dimensions(self).1
    }

    /// The pixel in column `x` of row `y`.
    pub fn pixel(&self, x: u32, y: u32) -> (r: Px)
        requires
            x < self@.width,
            y < self@.height(),
        ensures
            r == self@.px(x as int, y as int),
    {
        bitmap_pixel(self, x, y)
    }
}

} // verus!
