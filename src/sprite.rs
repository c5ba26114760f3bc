//! A packed sheet: its pixel buffer and the frames of the images packed into it.

use vstd::prelude::*;

use crate::frame::Frame;
use crate::raster::{Bitmap, Raster};
use crate::trim::Rect;

verus! {

/// The model of a sheet: its pixels and its frames, in packing order.
pub ghost struct SheetView {
    pub image: Raster,
    pub frames: Seq<Rect>,
}

/// A sprite sheet: one packed, trimmed buffer and the ordered list of frames in it.
pub struct Sprite {
    image: Bitmap,
    frames: Vec<Frame>,
}

impl View for Sprite {
    type V = SheetView;

    closed spec fn view(&self) -> SheetView {
        SheetView { image: self.image@, frames: self.frames@.map_values(|f: Frame| f@) }
    }
}

impl Sprite {
    /// A sheet with the given buffer and no frame yet.
    pub fn new(image: Bitmap) -> (r: Self)
        ensures
            r@.image == image@,
            r@.frames == Seq::<Rect>::empty(),
    {
        let r = Self { image, frames: Vec::new() };
        assert(r@.frames =~= Seq::<Rect>::empty());
        r
    }

    pub fn get_image(&self) -> (r: &Bitmap)
        ensures
            r@ == self@.image,
    {
        &self.image
    }

    pub fn get_frames(&self) -> (r: &Vec<Frame>)
        ensures
            r@.map_values(|f: Frame| f@) == self@.frames,
    {
        &self.frames
    }

    /// Appends the frame `(x, y, width, height)`, which lies inside the image.
    pub fn add_frame(&mut self, x: u32, y: u32, width: u32, height: u32)
        requires
            x + width <= old(self)@.image.width,
            y + height <= old(self)@.image.height(),
        ensures
            final(self)@.image == old(self)@.image,
            final(self)@.frames == old(self)@.frames.push((x as int, y as int, width as int, height as int)),
    {
        let f = Frame::new(x, y, width, height);
        self.frames.push(f);
        assert(self@.frames =~= old(self)@.frames.push(f@));
    }
}

} // verus!
