//! The packing run: its configuration, the resizing and validation of the
//! source images, and the sheets it produces.

use vstd::prelude::*;

use crate::layout::{
    all_wf, clip_offset, disjoint, group_ok, groups, lemma_groups_in_order, lemma_render, placed, render,
    sizes_fit, sizes_of,
};
use crate::pack::{
    expected_sheet, frame_inside, frame_shows, lemma_groups_ok, lemma_sheet, pack_fitting, views,
};
use crate::raster::{
    bitmap_dimensions, bitmap_resize, fits_memory, fits_memory_exec, fits_resample,
    fits_resample_exec, lemma_u32_product, Bitmap, Raster,
};
use crate::sprite::Sprite;
use crate::trim::{edges_visible, lemma_trim_minimal, trim, trim_window, trimmed};

verus! {

/// Why a packing run produced no sheets.
#[derive(Debug, Clone, Copy, PartialEq, Eq, Structural)]
pub enum PackError {
    /// No image was given.
    EmptyInput,
    /// The image at this index, of this width and height, exceeds the sheet
    /// size and no resize target was set.
    ImageTooLarge(usize, u32, u32),
    /// The image at this index, once resized, cannot be placed on a sheet.
    PlacementFailure(usize),
}

/// The size of an image of `w` by `h` pixels after resizing to the targets:
/// both given, they are taken as they are; one given, the other follows the
/// source's aspect ratio, rounded down; none given, the size stays. `None`
/// where the ratio is undefined (a source side of zero).
pub open spec fn target_size(tw: Option<u32>, th: Option<u32>, w: int, h: int) -> Option<(int, int)> {
    match (tw, th) {
        (Some(a), Some(b)) => Some((a as int, b as int)),
        (Some(a), None) => if w == 0 {
            None
        } else {
            Some((a as int, h * a / w))
        },
        (None, Some(b)) => if h == 0 {
            None
        } else {
            Some((w * b / h, b as int))
        },
        (None, None) => Some((w, h)),
    }
}

/// A generator of sprite sheets: the sheet size, and the size that every
/// image is resized to before packing, where one is set.
#[derive(Debug)]
pub struct Spriterator {
    pub dir_path: String,
    pub max_width: u32,
    pub max_height: u32,
    pub image_width: Option<u32>,
    pub image_height: Option<u32>,
}

impl Spriterator {
    pub open spec fn resizes(&self) -> bool {
        self.image_width is Some || self.image_height is Some
    }

    /// The size of `src` after resizing.
    pub open spec fn resized_size(&self, src: Raster) -> Option<(int, int)> {
        target_size(self.image_width, self.image_height, src.width as int, src.height() as int)
    }

    /// `src` can be resized: its new size is defined, and where resizing
    /// takes place, the buffers that it makes can be allocated.
    pub open spec fn resizable(&self, src: Raster) -> bool {
        match self.resized_size(src) {
            Some((a, b)) => 0 <= a <= u32::MAX && 0 <= b <= u32::MAX && (!self.resizes() || (
            fits_memory(a, b) && fits_resample(src.width as int, b))),
            None => false,
        }
    }

    /// `r` is what resizing may make of `src`: a well-formed buffer of the
    /// resized size, and `src` itself where no target is set. Which pixels the
    /// resampling gives is left open: it uses floating-point functions whose
    /// precision std does not fix.
    pub open spec fn resizes_to(&self, src: Raster, r: Raster) -> bool {
        &&& r.wf()
        &&& self.resized_size(src) == Some((r.width as int, r.height() as int))
        &&& !self.resizes() ==> r == src
    }

    /// `src` passes validation: with no resize target, it fits the sheet.
    pub open spec fn admits(&self, src: Raster) -> bool {
        self.resizes() || (src.width <= self.max_width && src.height() <= self.max_height)
    }

    /// `src` can be resized and then placed on a sheet.
    pub open spec fn places(&self, src: Raster) -> bool {
        &&& self.resizable(src)
        &&& match self.resized_size(src) {
            Some((a, b)) => a <= self.max_width && b <= self.max_height,
            None => false,
        }
    }

    /// `ps` holds one resized image for each source image of `srcs`.
    pub open spec fn prepares(&self, srcs: Seq<Raster>, ps: Seq<Raster>) -> bool {
        &&& ps.len() == srcs.len()
        &&& forall|i: int| 0 <= i < srcs.len() ==> self.resizes_to(srcs[i], #[trigger] ps[i])
    }

    /// `sheets` is the packing of the resized images `ps`: one sheet for each
    /// group of the shelf layout, each the trimmed canvas of its group, with
    /// the frames of its images in input order. A frame is its image's
    /// rectangle clipped to the trimmed part of the canvas and moved to its
    /// origin, so where trimming cuts into an image's transparent margin the
    /// frame is smaller than the image, and shows the part of it that is left.
    pub open spec fn packs(&self, ps: Seq<Raster>, sheets: Seq<Sprite>) -> bool {
        let mw = self.max_width as int;
        let mh = self.max_height as int;
        let gs = groups(sizes_of(ps), mw, mh);
        &&& sheets.len() == gs.len()
        &&& forall|k: int| 0 <= k < sheets.len() ==> (#[trigger] sheets[k])@ == expected_sheet(ps, mw, mh, gs[k])
        // every image appears once, sheet after sheet, in input order
        &&& gs.flatten() == Seq::new(ps.len(), |i: int| i)
        // no sheet is emitted without an image
        &&& forall|k: int| 0 <= k < sheets.len() ==> (#[trigger] sheets[k])@.frames.len() > 0
        // the frames of a sheet do not overlap
        &&& forall|k: int, a: int, b: int|
            0 <= k < sheets.len() && 0 <= a < sheets[k]@.frames.len() && 0 <= b < sheets[k]@.frames.len()
                && a != b ==> disjoint(#[trigger] sheets[k]@.frames[a], #[trigger] sheets[k]@.frames[b])
        // each frame lies inside its sheet
        &&& forall|k: int, a: int|
            0 <= k < sheets.len() && 0 <= a < sheets[k]@.frames.len() ==> frame_inside(
                sheets[k]@,
                #[trigger] sheets[k]@.frames[a],
            )
        // each frame shows its image's pixels, from the offset that clipping cut away
        &&& forall|k: int, a: int|
            0 <= k < sheets.len() && 0 <= a < sheets[k]@.frames.len() ==> frame_shows(
                sheets[k]@,
                #[trigger] sheets[k]@.frames[a],
                ps[gs[k][a]],
                clip_offset(placed(sizes_of(ps), mw, mh, gs[k][a]), trim_window(render(ps, mw, mh, gs[k]))),
            )
        // no edge row or column of a sheet is wholly transparent, but for the
        // single transparent pixel of a canvas with no visible pixel
        &&& forall|k: int|
            0 <= k < sheets.len() ==> (#[trigger] sheets[k])@.image == Raster::transparent(1, 1)
                || edges_visible(sheets[k]@.image)
        // a sheet is no larger than the maximum, where that admits a pixel
        &&& forall|k: int|
            0 <= k < sheets.len() && 1 <= mw && 1 <= mh ==> (#[trigger] sheets[k])@.image.width <= mw
                && sheets[k]@.image.height() <= mh
    }

    pub fn new(
        dir_path: &str,
        max_width: u32,
        max_height: u32,
        image_width: Option<u32>,
        image_height: Option<u32>,
    ) -> (r: Self)
        ensures
            r.dir_path@ == dir_path@,
            r.max_width == max_width,
            r.max_height == max_height,
            r.image_width == image_width,
            r.image_height == image_height,
    {
        proof {
            broadcast use vstd::string::to_string_from_display_ensures_for_str;
        }
        Self { dir_path: dir_path.to_string(), max_width, max_height, image_width, image_height }
    }

    /// The size of an image of `w` by `h` pixels after resizing, where it is
    /// defined and each side fits a `u32`.
    fn resize_target(&self, w: u32, h: u32) -> (r: Option<(u32, u32)>)
        ensures
            r is Some <==> (target_size(self.image_width, self.image_height, w as int, h as int) matches Some(
                t,
            ) && t.0 <= u32::MAX && t.1 <= u32::MAX),
            r matches Some(t) ==> target_size(self.image_width, self.image_height, w as int, h as int)
                == Some((t.0 as int, t.1 as int)),
    {
        match (self.image_width, self.image_height) {
            (Some(a), Some(b)) => Some((a, b)),
            (Some(a), None) => {
                if w == 0 {
                    None
                } else {
                    proof {
                        lemma_u32_product(h, a);
                    }
                    let d = (h as u64) * (a as u64) / (w as u64);
                    if d <= u32::MAX as u64 {
                        Some((a, d as u32))
                    } else {
                        None
                    }
                }
            },
            (None, Some(b)) => {
                if h == 0 {
                    None
                } else {
                    proof {
                        lemma_u32_product(w, b);
                    }
                    let d = (w as u64) * (b as u64) / (h as u64);
                    if d <= u32::MAX as u64 {
                        Some((d as u32, b))
                    } else {
                        None
                    }
                }
            },
            (None, None) => Some((w, h)),
        }
    }

    /// Scales `img` to the target size: to both targets where both are set,
    /// to one keeping the aspect ratio where one is set, not at all where none
    /// is. The scaling is Lanczos3 resampling.
    pub fn resize_image(&self, img: Bitmap) -> (r: Bitmap)
        requires
            self.resizable(img@),
        ensures
            self.resizes_to(img@, r@),
    {
        let (w, h) = bitmap_dimensions(&img);
        if self.image_width.is_none() && self.image_height.is_none() {
            img
        } else {
            match self.resize_target(w, h) {
                Some((a, b)) => bitmap_resize(&img, a, b),
                None => img,
            }
        }
    }

    /// `img` cut down to the tight box of its non-transparent pixels, and the
    /// position of that box in `img`; one transparent pixel at the origin
    /// where `img` is wholly transparent.
    pub fn trim_transparent(&self, image: &Bitmap) -> (r: (Bitmap, u32, u32))
        ensures
            r.0@ == trimmed(image@),
            r.1 as int == trim_window(image@).0,
            r.2 as int == trim_window(image@).1,
    {
        trim(image)
    }

    /// Packs `images`, in order, into sheets of at most `max_width` by
    /// `max_height` pixels. Each image is resized first; a canvas that cannot
    /// take the next image is trimmed and emitted, with its frames moved to the
    /// trimmed buffer. A frame that the trim cuts into (an image with a
    /// transparent margin at the edge of the canvas's visible pixels) is
    /// clipped to the trimmed buffer and is then smaller than its image. With
    /// no resize target, an image larger than a sheet aborts the run.
    pub fn generate(&self, images: Vec<Bitmap>) -> (r: Result<Vec<Sprite>, PackError>)
        requires
            fits_memory(self.max_width as int, self.max_height as int),
        ensures
            r == Err::<Vec<Sprite>, PackError>(PackError::EmptyInput) <==> images@.len() == 0,
            r is Ok <==> images@.len() > 0 && forall|i: int|
                0 <= i < images@.len() ==> self.places(#[trigger] views(images@)[i]),
            r matches Err(PackError::ImageTooLarge(i, w, h)) ==> {
                &&& i < images@.len()
                &&& !self.admits(views(images@)[i as int])
                &&& forall|j: int| 0 <= j < i ==> self.admits(#[trigger] views(images@)[j])
                &&& w == views(images@)[i as int].width && h == views(images@)[i as int].height()
            },
            r matches Err(PackError::PlacementFailure(i)) ==> {
                &&& i < images@.len()
                &&& forall|j: int| 0 <= j < images@.len() ==> self.admits(#[trigger] views(images@)[j])
                &&& !self.places(views(images@)[i as int])
                &&& forall|j: int| 0 <= j < i ==> self.places(#[trigger] views(images@)[j])
            },
            r matches Ok(sheets) ==> exists|ps: Seq<Raster>|
                #[trigger] self.prepares(views(images@), ps) && self.packs(ps, sheets@),
    {
        let ghost srcs = views(images@);
        let n = images.len();
        if n == 0 {
            return Err(PackError::EmptyInput);
        }
        let resizes = self.image_width.is_some() || self.image_height.is_some();
        let mut i: usize = 0;
        while i < n
            invariant
                n == images@.len(),
                srcs == views(images@),
                resizes == self.resizes(),
                i <= n,
                forall|j: int| 0 <= j < i ==> self.admits(#[trigger] srcs[j]),
            decreases n - i,
        {
            let (w, h) = bitmap_dimensions(&images[i]);
            if !resizes && (w > self.max_width || h > self.max_height) {
                proof {
                    assert(srcs[i as int] == images@[i as int]@);
                    assert(!self.places(srcs[i as int]));
                }
                return Err(PackError::ImageTooLarge(i, w, h));
            }
            i = i + 1;
        }
        let mut rest = images;
        let mut prepared: Vec<Bitmap> = Vec::new();
        let mut i: usize = 0;
        while i < n
            invariant
                n == srcs.len(),
                srcs == views(images@),
                resizes == self.resizes(),
                0 < n,
                i <= n,
                rest@.len() == n - i,
                forall|j: int| 0 <= j < n - i ==> (#[trigger] rest@[j])@ == srcs[i + j],
                forall|j: int| 0 <= j < n ==> self.admits(#[trigger] srcs[j]),
                forall|j: int| 0 <= j < i ==> self.places(#[trigger] srcs[j]),
                prepared@.len() == i,
                forall|j: int| 0 <= j < i ==> self.resizes_to(srcs[j], #[trigger] views(prepared@)[j]),
                all_wf(views(prepared@)),
                sizes_fit(sizes_of(views(prepared@)), self.max_width as int, self.max_height as int),
            decreases n - i,
        {
            let ghost rest_before = rest@;
            let img = rest.remove(0);
            let (w, h) = bitmap_dimensions(&img);
            let fits = match self.resize_target(w, h) {
                Some((a, b)) => a <= self.max_width && b <= self.max_height && (!resizes || (
                fits_memory_exec(a, b) && fits_resample_exec(w, b))),
                None => false,
            };
            proof {
                assert(img@ == srcs[i as int]);
                assert(fits == self.places(srcs[i as int]));
            }
            if !fits {
                return Err(PackError::PlacementFailure(i));
            }
            let ghost before = prepared@;
            let resized = self.resize_image(img);
            prepared.push(resized);
            proof {
                assert(views(prepared@)[i as int] == resized@);
                assert(resized@.width <= self.max_width && resized@.height() <= self.max_height);
                assert forall|j: int| 0 <= j < sizes_of(views(prepared@)).len() implies #[trigger] sizes_of(
                    views(prepared@),
                )[j].0 <= self.max_width && sizes_of(views(prepared@))[j].1 <= self.max_height by {
                    if j < i {
                        assert(views(prepared@)[j] == views(before)[j]);
                        assert(sizes_of(views(before))[j].0 <= self.max_width);
                    }
                }
                assert forall|j: int| 0 <= j < i + 1 implies self.resizes_to(
                    srcs[j],
                    #[trigger] views(prepared@)[j],
                ) by {
                    if j < i {
                        assert(views(prepared@)[j] == views(before)[j]);
                    }
                }
                assert forall|j: int| 0 <= j < i + 1 implies (#[trigger] views(prepared@)[j]).wf() by {
                    assert(self.resizes_to(srcs[j], views(prepared@)[j]));
                }
                assert forall|j: int| 0 <= j < n - (i + 1) implies (#[trigger] rest@[j])@ == srcs[i + 1 + j] by {
                    assert(rest@[j] == rest_before[j + 1]);
                }
            }
            i = i + 1;
        }
        let sheets = pack_fitting(&prepared, self.max_width, self.max_height);
        proof {
            let ps = views(prepared@);
            let mw = self.max_width as int;
            let mh = self.max_height as int;
            let gs = groups(sizes_of(ps), mw, mh);
            assert(self.prepares(srcs, ps));
            lemma_groups_ok(ps, mw, mh);
            lemma_groups_in_order(sizes_of(ps), mw, mh);
            assert forall|k: int| 0 <= k < sheets@.len() implies {
                let v = (#[trigger] sheets@[k])@;
                &&& forall|a: int, b: int|
                    0 <= a < v.frames.len() && 0 <= b < v.frames.len() && a != b ==> disjoint(
                        #[trigger] v.frames[a],
                        #[trigger] v.frames[b],
                    )
                &&& forall|a: int| 0 <= a < v.frames.len() ==> frame_inside(v, #[trigger] v.frames[a])
                &&& forall|a: int|
                    0 <= a < v.frames.len() ==> frame_shows(
                        v,
                        #[trigger] v.frames[a],
                        ps[gs[k][a]],
                        clip_offset(placed(sizes_of(ps), mw, mh, gs[k][a]), trim_window(render(ps, mw, mh, gs[k]))),
                    )
                &&& v.image == Raster::transparent(1, 1) || edges_visible(v.image)
                &&& v.frames.len() > 0
                &&& 1 <= mw && 1 <= mh ==> v.image.width <= mw && v.image.height() <= mh
            } by {
                assert(group_ok(ps, mw, mh, gs[k]));
                lemma_sheet(ps, mw, mh, gs[k]);
                lemma_render(ps, mw, mh, gs[k]);
                lemma_trim_minimal(render(ps, mw, mh, gs[k]));
            }
            assert(self.packs(ps, sheets@));
        }
        Ok(sheets)
    }
}

} // verus!
