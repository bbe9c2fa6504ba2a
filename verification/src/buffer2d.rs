//! The pixel-buffer capabilities: read/write access to a rectangular grid
//! of grey values, and, separately, growing in place while preserving the
//! contents. They are split so that a fixed-size buffer type can still be
//! packed against without offering a resize.

use vstd::prelude::*;

use crate::bitmap::Bitmap;

verus! {

/// A mutable rectangular grid of single-byte grey values.
pub trait Buffer2d: Sized {
    /// The buffer's bytes form a coherent grid.
    spec fn wf(self) -> bool;

    /// Width in pixels.
    spec fn spec_width(self) -> int;

    /// Height in pixels.
    spec fn spec_height(self) -> int;

    /// The grey value at `(x, y)`, for coordinates inside the buffer.
    spec fn pixel(self, x: int, y: int) -> u8;

    /// The buffer's width and height in pixels.
    fn size(&self) -> (r: (usize, usize))
        requires
            self.wf(),
        ensures
            r.0 == self.spec_width(),
            r.1 == self.spec_height(),
    ;

    /// Copy all of `other`'s pixels in, with `other`'s top-left corner at
    /// `(ox, oy)`; parts of `other` that would land outside are dropped.
    fn patch(&mut self, ox: u32, oy: u32, other: &Bitmap)
        requires
            old(self).wf(),
            other.wf(),
            other.spec_width() <= u32::MAX,
            other.spec_height() <= u32::MAX,
            ox + other.spec_width() <= u32::MAX,
            oy + other.spec_height() <= u32::MAX,
        ensures
            final(self).wf(),
            final(self).spec_width() == old(self).spec_width(),
            final(self).spec_height() == old(self).spec_height(),
            forall|i: int, j: int|
                0 <= i < old(self).spec_width() && 0 <= j < old(self).spec_height() && !(ox <= i < ox
                    + other.spec_width() && oy <= j < oy + other.spec_height())
                    ==> final(self).pixel(i, j) == old(self).pixel(i, j),
            forall|i: int, j: int|
                0 <= i < other.spec_width() && 0 <= j < other.spec_height()
                    && ox + i < old(self).spec_width() && oy + j < old(self).spec_height()
                    ==> final(self).pixel(ox + i, oy + j) == other.pixel(i, j),
    ;
}

/// The growable variant: the buffer can be replaced in place by a larger
/// one whose top-left region is a bit-for-bit copy of the old contents.
/// Buffers only ever grow: shrinking is ruled out by precondition.
pub trait ResizeBuffer: Buffer2d {
    /// Grow to `width x height`, preserving every pixel and zeroing the
    /// fresh space.
    fn resize(&mut self, width: u32, height: u32)
        requires
            old(self).wf(),
            old(self).spec_width() <= width,
            old(self).spec_height() <= height,
            width * height <= usize::MAX,
        ensures
            final(self).wf(),
            final(self).spec_width() == width,
            final(self).spec_height() == (if width == 0 { 0int } else { height as int }),
            forall|i: int, j: int|
                0 <= i < old(self).spec_width() && 0 <= j < old(self).spec_height()
                    ==> final(self).pixel(i, j) == old(self).pixel(i, j),
            forall|i: int, j: int|
                0 <= i < final(self).spec_width() && 0 <= j < final(self).spec_height()
                    && !(0 <= i < old(self).spec_width() && 0 <= j < old(self).spec_height())
                    ==> final(self).pixel(i, j) == 0u8,
    ;
}

impl Buffer2d for Bitmap {
    open spec fn wf(self) -> bool {
        Bitmap::wf(self)
    }

    open spec fn spec_width(self) -> int {
        Bitmap::spec_width(self)
    }

    open spec fn spec_height(self) -> int {
        Bitmap::spec_height(self)
    }

    open spec fn pixel(self, x: int, y: int) -> u8 {
        Bitmap::pixel(self, x, y)
    }

    fn size(&self) -> (r: (usize, usize)) {
        (Bitmap::width(self), Bitmap::height(self))
    }

    fn patch(&mut self, ox: u32, oy: u32, other: &Bitmap) {
        Bitmap::patch(self, ox, oy, other);
    }
}

impl ResizeBuffer for Bitmap {
    fn resize(&mut self, width: u32, height: u32) {
        Bitmap::resize(self, width, height);
    }
}

} // verus!
