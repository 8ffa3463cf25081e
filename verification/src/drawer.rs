//! The pure part of the view state: scale, pan offset and window size.
//! The canvas itself and everything that touches the window system live
//! outside this crate; they read and adjust this context through the
//! methods below.

use vstd::prelude::*;

verus! {

/// View parameters for mapping world space to screen space.
#[derive(Clone, Copy, Debug)]
pub struct DrawerContext {
    pub scale: u32,
    pub x_center: i32,
    pub y_center: i32,
    pub window_size: (i32, i32),
}

impl DrawerContext {
    /// Pans the view center by the given screen-space delta.
    pub fn offset(&mut self, x: i32, y: i32)
        requires
            -0x8000_0000 <= old(self).x_center + x <= 0x7fff_ffff,
            -0x8000_0000 <= old(self).y_center + y <= 0x7fff_ffff,
        ensures
            final(self).x_center == old(self).x_center + x,
            final(self).y_center == old(self).y_center + y,
            final(self).scale == old(self).scale,
            final(self).window_size == old(self).window_size,
    {
        self.x_center += x;
        self.y_center += y;
    }

    /// Adjusts the zoom scale by a signed delta, clamped to `[10, 1000]`.
    pub fn adjust_scale(&mut self, scale_diff: i32)
        requires
            old(self).scale <= 0x7fff_ffff,
            old(self).scale + scale_diff <= 0x7fff_ffff,
        ensures
            final(self).scale == if old(self).scale + scale_diff < 10 {
                10int
            } else if old(self).scale + scale_diff > 1000 {
                1000int
            } else {
                old(self).scale + scale_diff
            },
            10 <= final(self).scale <= 1000,
            final(self).x_center == old(self).x_center,
            final(self).y_center == old(self).y_center,
            final(self).window_size == old(self).window_size,
    {
        let new_scale = self.scale as i32 + scale_diff;
        if new_scale < 10 {
            self.scale = 10;
        } else if new_scale > 1000 {
            self.scale = 1000;
        } else {
            self.scale = new_scale as u32;
        }
    }

    /// Records a new window size.
    pub fn resize(&mut self, x: i32, y: i32)
        ensures
            final(self).window_size == (x, y),
            final(self).scale == old(self).scale,
            final(self).x_center == old(self).x_center,
            final(self).y_center == old(self).y_center,
    {
        self.window_size = (x, y);
    }
}

} // verus!
