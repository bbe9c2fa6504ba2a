//! The concrete pixel buffer: a flat row-major sequence of single-byte grey
//! values (0 = empty, 255 = fully covered) with a stored width.

use vstd::prelude::*;

verus! {

/// A rectangular 2d-array of `u8` where the values 0 through 255 represent
/// shades of grey. Pixels are stored row-major; the height is the number of
/// whole rows the byte vector holds.
pub struct Bitmap {
    bytes: Vec<u8>,
    width: usize,
}

impl Bitmap {
    /// The bytes form whole rows of length `width`; a bitmap of width 0
    /// holds no bytes at all.
    pub closed spec fn wf(self) -> bool {
        if self.width == 0 {
            self.bytes@.len() == 0
        } else {
            (self.bytes@.len() as int) % (self.width as int) == 0
        }
    }

    /// Width in pixels.
    pub closed spec fn spec_width(self) -> int {
        self.width as int
    }

    /// Height in pixels: the number of whole rows stored.
    pub closed spec fn spec_height(self) -> int {
        if self.width == 0 {
            0
        } else {
            (self.bytes@.len() as int) / (self.width as int)
        }
    }

    /// The grey value at `(x, y)`, for `0 <= x < width`, `0 <= y < height`.
    pub closed spec fn pixel(self, x: int, y: int) -> u8 {
        self.bytes@[y * self.spec_width() + x]
    }

    /// `(x, y)` lies inside the bitmap.
    pub open spec fn in_bounds(self, x: int, y: int) -> bool {
        0 <= x < self.spec_width() && 0 <= y < self.spec_height()
    }

    /// An in-bounds coordinate indexes into the byte vector.
    proof fn lemma_index_in_range(self, x: int, y: int)
        requires
            self.wf(),
            self.in_bounds(x, y),
        ensures
            0 <= y * self.spec_width() + x < self.bytes@.len(),
    {
        let w = self.spec_width();
        let h = self.spec_height();
        assert(self.bytes@.len() == w * h) by (nonlinear_arith)
            requires w > 0, h == (self.bytes@.len() as int) / w, (self.bytes@.len() as int) % w == 0;
        assert(0 <= y * w + x < w * h) by (nonlinear_arith)
            requires 0 <= x < w, 0 <= y < h;
    }

    /// Construct a new empty (all zeros) bitmap of the given dimensions.
    pub fn new(w: usize, h: usize) -> (r: Bitmap)
        requires
            w * h <= usize::MAX,
        ensures
            r.wf(),
            r.spec_width() == w,
            r.spec_height() == (if w == 0 { 0int } else { h as int }),
            forall|x: int, y: int| r.in_bounds(x, y) ==> r.pixel(x, y) == 0u8,
    {
        let n: usize = w * h;
        let mut bytes: Vec<u8> = Vec::new();
        let mut i: usize = 0;
        while i < n
            invariant
                i <= n,
                bytes@.len() == i,
                forall|k: int| 0 <= k < i ==> bytes@[k] == 0u8,
            decreases n - i,
        {
            bytes.push(0);
            i = i + 1;
        }
        let r = Bitmap { bytes, width: w };
        proof {
            if w != 0 {
                assert((r.bytes@.len() as int) % (w as int) == 0 && (r.bytes@.len() as int) / (w as int) == h as int)
                    by (nonlinear_arith)
                    requires r.bytes@.len() == w * h, w > 0;
            }
            assert forall|x: int, y: int| r.in_bounds(x, y) implies r.pixel(x, y) == 0u8 by {
                r.lemma_index_in_range(x, y);
            }
        }
        r
    }

    /// The width of this bitmap.
    pub fn width(&self) -> (r: usize)
        ensures
            r == self.spec_width(),
    {
        self.width
    }

    /// The height of this bitmap.
    pub fn height(&self) -> (r: usize)
        ensures
            r == self.spec_height(),
    {
        if self.width == 0 {
            0
        } else {
            self.bytes.len() / self.width
        }
    }

    /// The bytes of the bitmap as one flat row-major sequence.
    pub open spec fn flat(self) -> Seq<u8> {
        Seq::new(
            (self.spec_width() * self.spec_height()) as nat,
            |k: int| self.pixel(k % self.spec_width(), k / self.spec_width()),
        )
    }

    /// The stored bytes are exactly the flat row-major pixel sequence.
    proof fn lemma_bytes_are_flat(self)
        requires
            self.wf(),
        ensures
            self.bytes@ == self.flat(),
    {
        let w = self.spec_width();
        let h = self.spec_height();
        if self.width == 0 {
            assert(self.bytes@ =~= self.flat());
        } else {
            assert(self.bytes@.len() == w * h) by (nonlinear_arith)
                requires
                    w > 0,
                    h == (self.bytes@.len() as int) / w,
                    (self.bytes@.len() as int) % w == 0;
            assert forall|k: int| 0 <= k < self.bytes@.len() implies self.bytes@[k] == self.flat()[k] by {
                assert(0 <= k % w < w && 0 <= k / w < h && (k / w) * w + k % w == k)
                    by (nonlinear_arith)
                    requires w > 0, 0 <= k < w * h;
            }
            assert(self.bytes@ =~= self.flat());
        }
    }

    /// Gain access to the underlying bytes, row-major.
    pub fn raw(&self) -> (r: &[u8])
        requires
            self.wf(),
        ensures
            r@ == self.flat(),
    {
        proof {
            self.lemma_bytes_are_flat();
        }
        self.bytes.as_slice()
    }

    /// Get the underlying byte vector, row-major.
    pub fn into_raw(self) -> (r: Vec<u8>)
        requires
            self.wf(),
        ensures
            r@ == self.flat(),
    {
        proof {
            self.lemma_bytes_are_flat();
        }
        self.bytes
    }

    /// The rows of the bitmap, from top to bottom.
    pub fn lines(&self) -> (r: Vec<Vec<u8>>)
        requires
            self.wf(),
        ensures
            r@.len() == self.spec_height(),
            forall|y: int| 0 <= y < r@.len() ==> r@[y]@.len() == self.spec_width(),
            forall|y: int, x: int|
                0 <= y < r@.len() && 0 <= x < self.spec_width() ==> r@[y]@[x] == self.pixel(x, y),
    {
        let h = self.height();
        let mut out: Vec<Vec<u8>> = Vec::new();
        let mut y: usize = 0;
        while y < h
            invariant
                self.wf(),
                h == self.spec_height(),
                y <= h,
                out@.len() == y,
                forall|r: int| 0 <= r < y ==> out@[r]@.len() == self.spec_width(),
                forall|r: int, x: int|
                    0 <= r < y && 0 <= x < self.spec_width() ==> out@[r]@[x] == self.pixel(x, r),
            decreases h - y,
        {
            let w = self.width();
            let mut row: Vec<u8> = Vec::new();
            let mut x: usize = 0;
            while x < w
                invariant
                    self.wf(),
                    w == self.spec_width(),
                    h == self.spec_height(),
                    y < h,
                    x <= w,
                    row@.len() == x,
                    forall|k: int| 0 <= k < x ==> row@[k] == self.pixel(k, y as int),
                decreases w - x,
            {
                let total: usize = self.bytes.len();
                proof {
                    self.lemma_index_in_range(x as int, y as int);
                }
                let idx: usize = y * self.width + x;
                row.push(self.bytes[idx]);
                x = x + 1;
            }
            out.push(row);
            y = y + 1;
        }
        out
    }

    /// The grey value at `(x, y)`, or `None` when the coordinate lies
    /// outside the bitmap.
    pub fn get(&self, x: u32, y: u32) -> (r: Option<u8>)
        requires
            self.wf(),
        ensures
            r == (if self.in_bounds(x as int, y as int) {
                Some(self.pixel(x as int, y as int))
            } else {
                None::<u8>
            }),
    {
        if (x as usize) < self.width && self.width != 0 && (y as usize) < self.bytes.len()
            / self.width {
            proof {
                self.lemma_index_in_range(x as int, y as int);
            }
            let idx: usize = (y as usize) * self.width + (x as usize);
            Some(self.bytes[idx])
        } else {
            None
        }
    }

    /// Set the pixel at `(x, y)` to `val`; out-of-bounds writes are ignored.
    pub fn set(&mut self, x: u32, y: u32, val: u8)
        requires
            old(self).wf(),
        ensures
            final(self).wf(),
            final(self).spec_width() == old(self).spec_width(),
            final(self).spec_height() == old(self).spec_height(),
            forall|i: int, j: int|
                old(self).in_bounds(i, j) && !(i == x as int && j == y as int)
                    ==> final(self).pixel(i, j) == old(self).pixel(i, j),
            old(self).in_bounds(x as int, y as int)
                ==> final(self).pixel(x as int, y as int) == val,
    {
        if (x as usize) < self.width && self.width != 0 && (y as usize) < self.bytes.len()
            / self.width {
            proof {
                self.lemma_index_in_range(x as int, y as int);
            }
            let idx: usize = (y as usize) * self.width + (x as usize);
            self.bytes.set(idx, val);
            proof {
                let w = old(self).spec_width();
                assert forall|i: int, j: int|
                    old(self).in_bounds(i, j) && !(i == x as int && j == y as int)
                    implies final(self).pixel(i, j) == old(self).pixel(i, j) by {
                    old(self).lemma_index_in_range(i, j);
                    assert(j * w + i != y * w + x) by (nonlinear_arith)
                        requires
                            0 <= i < w,
                            0 <= x < w,
                            0 <= j,
                            0 <= y,
                            !(i == x && j == y);
                }
            }
        }
    }

    /// Copy all of `other`'s pixels into `self`, with `other`'s top-left
    /// corner at `(ox, oy)`. Parts of `other` that would land outside
    /// `self` are dropped.
    pub fn patch(&mut self, ox: u32, oy: u32, other: &Bitmap)
        requires
            old(self).wf(),
            other.wf(),
            other.spec_width() <= u32::MAX,
            other.spec_height() <= u32::MAX,
            ox + other.spec_width() <= u32::MAX,
            oy + other.spec_height() <= u32::MAX,
        ensures
            final(self).wf(),
            final(self).spec_width() == old(self).spec_width(),
            final(self).spec_height() == old(self).spec_height(),
            forall|i: int, j: int|
                old(self).in_bounds(i, j) && !(ox <= i < ox + other.spec_width() && oy <= j < oy
                    + other.spec_height()) ==> final(self).pixel(i, j) == old(self).pixel(i, j),
            forall|i: int, j: int|
                0 <= i < other.spec_width() && 0 <= j < other.spec_height()
                    && old(self).in_bounds(ox + i, oy + j)
                    ==> final(self).pixel(ox + i, oy + j) == other.pixel(i, j),
    {
        let w: usize = other.width();
        let h: usize = other.height();
        let mut j: usize = 0;
        while j < h
            invariant
                self.wf(),
                other.wf(),
                w == other.spec_width(),
                h == other.spec_height(),
                w <= u32::MAX,
                h <= u32::MAX,
                ox + w <= u32::MAX,
                oy + h <= u32::MAX,
                j <= h,
                self.spec_width() == old(self).spec_width(),
                self.spec_height() == old(self).spec_height(),
                forall|i: int, jj: int|
                    old(self).in_bounds(i, jj) && !(ox <= i < ox + w && oy <= jj < oy
                        + j) ==> self.pixel(i, jj) == old(self).pixel(i, jj),
                forall|i: int, jj: int|
                    0 <= i < w && 0 <= jj < j && old(self).in_bounds(ox + i, oy + jj)
                        ==> self.pixel(ox + i, oy + jj) == other.pixel(i, jj),
            decreases h - j,
        {
            let mut i: usize = 0;
            while i < w
                invariant
                    self.wf(),
                    other.wf(),
                    w == other.spec_width(),
                    h == other.spec_height(),
                    w <= u32::MAX,
                    h <= u32::MAX,
                    ox + w <= u32::MAX,
                    oy + h <= u32::MAX,
                    j < h,
                    i <= w,
                    self.spec_width() == old(self).spec_width(),
                    self.spec_height() == old(self).spec_height(),
                    forall|ii: int, jj: int|
                        old(self).in_bounds(ii, jj) && !(ox <= ii < ox + w && oy <= jj < oy + j)
                            && !(ox <= ii < ox + i && jj == oy + j) ==> self.pixel(ii, jj) == old(
                            self,
                        ).pixel(ii, jj),
                    forall|ii: int, jj: int|
                        0 <= ii < w && 0 <= jj < j && old(self).in_bounds(ox + ii, oy + jj)
                            ==> self.pixel(ox + ii, oy + jj) == other.pixel(ii, jj),
                    forall|ii: int|
                        0 <= ii < i && old(self).in_bounds(ox + ii, oy + j) ==> self.pixel(
                            ox + ii,
                            oy + j,
                        ) == other.pixel(ii, j as int),
                decreases w - i,
            {
                let total: usize = other.bytes.len();
                proof {
                    other.lemma_index_in_range(i as int, j as int);
                }
                let idx: usize = j * w + i;
                let v: u8 = other.bytes[idx];
                assert(other.pixel(i as int, j as int) == v);
                self.set((ox as usize + i) as u32, (oy as usize + j) as u32, v);
                i = i + 1;
            }
            j = j + 1;
        }
    }

    /// Replace this bitmap with a larger one whose top-left region is a
    /// bit-for-bit copy of the old contents; the new space is zeroed.
    /// Buffers only ever grow: shrinking is ruled out by precondition.
    pub fn resize(&mut self, width: u32, height: u32)
        requires
            old(self).wf(),
            old(self).spec_width() <= width,
            old(self).spec_height() <= height,
            width * height <= usize::MAX,
        ensures
            final(self).wf(),
            final(self).spec_width() == width,
            final(self).spec_height() == (if width == 0 { 0int } else { height as int }),
            forall|i: int, j: int|
                old(self).in_bounds(i, j) ==> final(self).pixel(i, j) == old(self).pixel(i, j),
            forall|i: int, j: int|
                final(self).in_bounds(i, j) && !old(self).in_bounds(i, j)
                    ==> final(self).pixel(i, j) == 0u8,
    {
        let mut grown = Bitmap::new(width as usize, height as usize);
        grown.patch(0, 0, self);
        *self = grown;
    }
}

} // verus!
