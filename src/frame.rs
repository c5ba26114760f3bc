//! The rectangle that one packed image occupies in its sheet.

use vstd::prelude::*;

use crate::trim::Rect;

verus! {

/// A placement rectangle in sheet-local pixel coordinates.
#[derive(Debug, Clone, Copy, PartialEq, Eq)]
pub struct Frame {
    x: u32,
    y: u32,
    width: u32,
    height: u32,
}

impl View for Frame {
    type V = Rect;

    /// The rectangle as `(x, y, width, height)`.
    closed spec fn view(&self) -> Rect {
        (self.x as int, self.y as int, self.width as int, self.height as int)
    }
}

impl Frame {
    pub fn new(x: u32, y: u32, width: u32, height: u32) -> (r: Self)
        ensures
            r@ == (x as int, y as int, width as int, height as int),
    {
        Self { x, y, width, height }
    }

    pub fn get_x(&self) -> (r: u32)
        ensures
            r as int == self@.0,
    {
        self.x
    }

    pub fn get_y(&self) -> (r: u32)
        ensures
            r as int == self@.1,
    {
        self.y
    }

    pub fn get_width(&self) -> (r: u32)
        ensures
            r as int == self@.2,
    {
        self.width
    }

    pub fn get_height(&self) -> (r: u32)
        ensures
            r as int == self@.3,
    {
        self.height
    }
}

} // verus!
