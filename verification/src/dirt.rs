//! Dirt splashes: round patches of tinted ground painted over provinces.
use vstd::prelude::*;
use crate::render::Rect;

verus! {

/// A splash of dirt: its centre, radius, tint, where it stands in the
/// painting cursor, and whether it lies on winter ground.
#[derive(Clone, Copy, Debug)]
pub struct Disk {
    pub x: i32,
    pub y: i32,
    pub r: i32,
    pub rgb: [i32; 3],
    pub cursor: usize,
    pub winter: bool,
}

impl Disk {
    /// The square of pixels around the splash.
    pub fn rect(&self) -> (b: Rect)
        requires
            i32::MIN <= self.x - self.r <= i32::MAX,
            i32::MIN <= self.x + self.r <= i32::MAX,
            i32::MIN <= self.y - self.r <= i32::MAX,
            i32::MIN <= self.y + self.r <= i32::MAX,
        ensures
            b.x0 == self.x - self.r,
            b.y0 == self.y - self.r,
            b.x1 == self.x + self.r,
            b.y1 == self.y + self.r,
    {
        Rect { x0: self.x - self.r, y0: self.y - self.r, x1: self.x + self.r, y1: self.y + self.r }
    }
}

} // verus!
