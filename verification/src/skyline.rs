//! The skyline rectangle packer: places a sequence of rectangular bitmaps
//! into a larger target bitmap with no overlaps, growing the target when
//! necessary.
//!
//! The packer keeps a "skyline": an ordered sequence of horizontal segments,
//! each giving the lowest free y-coordinate across one x-range of the
//! buffer's width. A bitmap of size `w x h` packed with margin `m` reserves
//! an expanded region of `(w + 2m) x (h + 2m)`; the returned rectangle is
//! the interior drawable area, offset by `m` from the reserved corner.

use vstd::arithmetic::power2::pow2;
use vstd::prelude::*;

use crate::bitmap::Bitmap;
use crate::buffer2d::Buffer2d;
use crate::buffer2d::ResizeBuffer;
use crate::rect::Rect;

verus! {

/// One horizontal segment of the skyline: the x-range `[x, x + w)` is free
/// from height `y` downwards (towards larger y).
#[derive(Clone, Copy)]
struct Segment {
    x: u32,
    y: u32,
    w: u32,
}

/// The packer could not place the rectangle within the current buffer
/// bounds (or, for the growing entry point, within the largest buffer the
/// growth policy can reach).
#[derive(Clone, Copy, Debug, PartialEq, Eq, Structural)]
pub struct NoFit;

/// The skyline height at coordinate `x`: the `y` of the segment whose
/// x-range contains `x`, searching from index `i` on.
spec fn sky_at_from(s: Seq<Segment>, i: int, x: int) -> int
    decreases s.len() - i when 0 <= i <= s.len()
{
    if i >= s.len() {
        0
    } else if x < s[i].x + s[i].w {
        s[i].y as int
    } else {
        sky_at_from(s, i + 1, x)
    }
}

/// The skyline height at coordinate `x`.
spec fn sky_at(s: Seq<Segment>, x: int) -> int {
    sky_at_from(s, 0, x)
}

/// The greatest segment height among segments from index `i` on whose
/// start lies left of `x_end`.
spec fn span_max(s: Seq<Segment>, i: int, x_end: int) -> int
    decreases s.len() - i when 0 <= i <= s.len()
{
    if i >= s.len() || s[i].x >= x_end {
        0
    } else if s[i].y as int >= span_max(s, i + 1, x_end) {
        s[i].y as int
    } else {
        span_max(s, i + 1, x_end)
    }
}

/// The segments are non-empty, contiguous from 0 to `width`, and no higher
/// than `height`.
spec fn segs_wf(s: Seq<Segment>, width: int, height: int) -> bool {
    &&& s.len() > 0
    &&& s[0].x == 0
    &&& forall|i: int| 0 <= i < s.len() ==> s[i].w > 0 && s[i].y <= height
    &&& forall|i: int| 0 <= i < s.len() - 1 ==> s[i].x + s[i].w == s[i + 1].x
    &&& s[s.len() - 1].x + s[s.len() - 1].w == width
}

/// Every segment ends within the covered width.
proof fn lemma_seg_ends_le_width(s: Seq<Segment>, width: int, height: int, j: int)
    requires
        segs_wf(s, width, height),
        0 <= j < s.len(),
    ensures
        s[j].x + s[j].w <= width,
    decreases s.len() - j,
{
    if j < s.len() - 1 {
        lemma_seg_ends_le_width(s, width, height, j + 1);
    }
}

/// Segment starts are ordered: an earlier segment ends no later than a
/// later one starts.
proof fn lemma_seg_starts_ordered(s: Seq<Segment>, width: int, height: int, i: int, j: int)
    requires
        segs_wf(s, width, height),
        0 <= i <= j < s.len(),
    ensures
        i < j ==> s[i].x + s[i].w <= s[j].x,
        s[i].x <= s[j].x,
        s[j].x + s[j].w <= width,
    decreases j - i,
{
    if i < j {
        lemma_seg_starts_ordered(s, width, height, i + 1, j);
    } else {
        lemma_seg_ends_le_width(s, width, height, j);
    }
}

/// Every x in `[0, width)` lies inside exactly one segment; `sky_at` gives
/// that segment's height.
proof fn lemma_sky_at_seg(s: Seq<Segment>, width: int, height: int, i: int, x: int)
    requires
        segs_wf(s, width, height),
        0 <= i < s.len(),
        s[i].x <= x < s[i].x + s[i].w,
    ensures
        sky_at(s, x) == s[i].y,
{
    lemma_sky_at_seg_from(s, width, height, 0, i, x);
}

proof fn lemma_sky_at_seg_from(s: Seq<Segment>, width: int, height: int, k: int, i: int, x: int)
    requires
        segs_wf(s, width, height),
        0 <= k <= i < s.len(),
        s[i].x <= x < s[i].x + s[i].w,
    ensures
        sky_at_from(s, k, x) == s[i].y,
    decreases i - k,
{
    if k < i {
        lemma_seg_starts_ordered(s, width, height, k, i);
        assert(x >= s[k].x + s[k].w);
        lemma_sky_at_seg_from(s, width, height, k + 1, i, x);
    }
}

/// Each segment that starts left of `x_end` contributes to `span_max`.
proof fn lemma_span_max_ge(s: Seq<Segment>, width: int, height: int, i: int, j: int, x_end: int)
    requires
        segs_wf(s, width, height),
        0 <= i <= j < s.len(),
        s[j].x < x_end,
    ensures
        span_max(s, i, x_end) >= s[j].y,
        span_max(s, i, x_end) >= 0,
    decreases j - i,
{
    lemma_seg_starts_ordered(s, width, height, i, j);
    if i < j {
        lemma_span_max_ge(s, width, height, i + 1, j, x_end);
    }
}

/// `span_max` from `i` bounds the skyline over `[s[i].x, x_end)`.
proof fn lemma_sky_le_span_max(
    s: Seq<Segment>,
    width: int,
    height: int,
    i: int,
    x_end: int,
    x: int,
)
    requires
        segs_wf(s, width, height),
        0 <= i < s.len(),
        s[i].x <= x < x_end,
        x < width,
    ensures
        sky_at(s, x) <= span_max(s, i, x_end),
    decreases s.len(),
{
    let j = choose|j: int| 0 <= j < s.len() && (#[trigger] s[j].x) <= x < s[j].x + s[j].w;
    lemma_seg_containing(s, width, height, x);
    lemma_sky_at_seg(s, width, height, j, x);
    if j < i {
        lemma_seg_starts_ordered(s, width, height, j, i);
        assert(false);
    }
    lemma_span_max_ge(s, width, height, i, j, x_end);
}

/// Every x in `[0, width)` lies in some segment.
proof fn lemma_seg_containing(s: Seq<Segment>, width: int, height: int, x: int)
    requires
        segs_wf(s, width, height),
        0 <= x < width,
    ensures
        exists|j: int| 0 <= j < s.len() && (#[trigger] s[j].x) <= x < s[j].x + s[j].w,
    decreases s.len(),
{
    lemma_seg_containing_from(s, width, height, 0, x);
}

proof fn lemma_seg_containing_from(s: Seq<Segment>, width: int, height: int, k: int, x: int)
    requires
        segs_wf(s, width, height),
        0 <= k < s.len(),
        s[k].x <= x < width,
    ensures
        exists|j: int| k <= j < s.len() && (#[trigger] s[j].x) <= x < s[j].x + s[j].w,
    decreases s.len() - k,
{
    if x < s[k].x + s[k].w {
        assert(s[k].x <= x < s[k].x + s[k].w);
    } else {
        lemma_seg_starts_ordered(s, width, height, k, s.len() - 1);
        assert(k < s.len() - 1);
        lemma_seg_containing_from(s, width, height, k + 1, x);
    }
}

/// The covered extent of a partially built skyline: where its last segment
/// ends, or 0 when it is empty.
spec fn covered(out: Seq<Segment>) -> int {
    if out.len() == 0 {
        0
    } else {
        out[out.len() - 1].x + out[out.len() - 1].w
    }
}

/// The height the rebuilt skyline must have at `x`: `new_y` over the
/// raised range, the old skyline's height elsewhere.
spec fn expected_sky(s: Seq<Segment>, x0: int, x_end: int, new_y: int, x: int) -> int {
    if x0 <= x < x_end {
        new_y
    } else {
        sky_at(s, x)
    }
}

/// A partially rebuilt skyline: contiguous from 0 over its covered extent,
/// and at the expected height everywhere it reaches.
spec fn rebuilt_ok(
    out: Seq<Segment>,
    s: Seq<Segment>,
    x0: int,
    x_end: int,
    new_y: int,
    height: int,
) -> bool {
    &&& out.len() > 0 ==> segs_wf(out, covered(out), height)
    &&& forall|x: int|
        0 <= x < covered(out) ==> #[trigger] sky_at(out, x) == expected_sky(s, x0, x_end, new_y, x)
}

/// Appending a segment that starts where the rebuilt skyline ends, and
/// whose height is the expected one for its whole range, keeps the rebuild
/// well formed.
proof fn lemma_rebuilt_push(
    out: Seq<Segment>,
    seg: Segment,
    s: Seq<Segment>,
    x0: int,
    x_end: int,
    new_y: int,
    height: int,
)
    requires
        rebuilt_ok(out, s, x0, x_end, new_y, height),
        seg.w > 0,
        seg.y <= height,
        covered(out) == seg.x,
        out.len() == 0 ==> seg.x == 0,
        forall|x: int|
            seg.x <= x < seg.x + seg.w ==> seg.y as int == #[trigger] expected_sky(
                s,
                x0,
                x_end,
                new_y,
                x,
            ),
    ensures
        rebuilt_ok(out.push(seg), s, x0, x_end, new_y, height),
        covered(out.push(seg)) == seg.x + seg.w,
{
    let t = out.push(seg);
    let cov = covered(out);
    let covt = covered(t);
    assert(t[t.len() - 1] == seg);
    assert forall|k: int| 0 <= k < t.len() implies (#[trigger] t[k]).w > 0 && t[k].y
        <= height by {
        if k < out.len() {
            assert(t[k] == out[k]);
        }
    }
    assert forall|k: int| 0 <= k < t.len() - 1 implies (#[trigger] t[k]).x + t[k].w == t[k
        + 1].x by {
        if k < out.len() - 1 {
            assert(t[k] == out[k] && t[k + 1] == out[k + 1]);
        } else {
            assert(t[k] == out[k] && t[k + 1] == seg);
        }
    }
    assert(segs_wf(t, covt, height));
    assert forall|x: int| 0 <= x < covt implies #[trigger] sky_at(t, x) == expected_sky(
        s,
        x0,
        x_end,
        new_y,
        x,
    ) by {
        if x < cov {
            lemma_seg_containing(out, cov, height, x);
            let k = choose|k: int|
                0 <= k < out.len() && (#[trigger] out[k].x) <= x < out[k].x + out[k].w;
            lemma_sky_at_seg(out, cov, height, k, x);
            assert(t[k] == out[k]);
            lemma_sky_at_seg(t, covt, height, k, x);
        } else {
            lemma_sky_at_seg(t, covt, height, t.len() - 1, x);
        }
    }
}

/// Widening the rebuilt skyline's last segment over an adjacent range of
/// the same height keeps the rebuild well formed.
proof fn lemma_rebuilt_merge(
    out: Seq<Segment>,
    seg: Segment,
    merged: Segment,
    s: Seq<Segment>,
    x0: int,
    x_end: int,
    new_y: int,
    height: int,
)
    requires
        rebuilt_ok(out, s, x0, x_end, new_y, height),
        out.len() > 0,
        out[out.len() - 1].y == seg.y,
        covered(out) == seg.x,
        seg.w > 0,
        seg.y <= height,
        seg.x + seg.w <= u32::MAX,
        merged.x == out[out.len() - 1].x,
        merged.y == seg.y,
        merged.w == out[out.len() - 1].w + seg.w,
        forall|x: int|
            seg.x <= x < seg.x + seg.w ==> seg.y as int == #[trigger] expected_sky(
                s,
                x0,
                x_end,
                new_y,
                x,
            ),
    ensures
        rebuilt_ok(out.update(out.len() - 1, merged), s, x0, x_end, new_y, height),
        covered(out.update(out.len() - 1, merged)) == seg.x + seg.w,
{
    let last = out[out.len() - 1];
    let t = out.update(out.len() - 1, merged);
    let cov = covered(out);
    let covt = covered(t);
    assert(t[t.len() - 1] == merged);
    assert forall|k: int| 0 <= k < t.len() implies (#[trigger] t[k]).w > 0 && t[k].y
        <= height by {
        if k < out.len() - 1 {
            assert(t[k] == out[k]);
        }
    }
    assert forall|k: int| 0 <= k < t.len() - 1 implies (#[trigger] t[k]).x + t[k].w == t[k
        + 1].x by {
        if k < out.len() - 2 {
            assert(t[k] == out[k] && t[k + 1] == out[k + 1]);
        } else {
            assert(t[k] == out[k] && t[k + 1] == merged);
        }
    }
    assert(segs_wf(t, covt, height));
    assert forall|x: int| 0 <= x < covt implies #[trigger] sky_at(t, x) == expected_sky(
        s,
        x0,
        x_end,
        new_y,
        x,
    ) by {
        if x < last.x {
            lemma_seg_containing(out, cov, height, x);
            let k = choose|k: int|
                0 <= k < out.len() && (#[trigger] out[k].x) <= x < out[k].x + out[k].w;
            if k == out.len() - 1 {
                assert(false);
            }
            lemma_sky_at_seg(out, cov, height, k, x);
            assert(t[k] == out[k]);
            lemma_sky_at_seg(t, covt, height, k, x);
        } else {
            lemma_sky_at_seg(t, covt, height, t.len() - 1, x);
            if x < cov {
                lemma_sky_at_seg(out, cov, height, out.len() - 1, x);
            }
        }
    }
}

/// Append a segment to the skyline being rebuilt, merging it into the
/// last segment when the two share a height.
fn push_merged(
    out: &mut Vec<Segment>,
    seg: Segment,
    Ghost(s): Ghost<Seq<Segment>>,
    Ghost(x0): Ghost<int>,
    Ghost(x_end): Ghost<int>,
    Ghost(new_y): Ghost<int>,
    Ghost(height): Ghost<int>,
)
    requires
        rebuilt_ok(old(out)@, s, x0, x_end, new_y, height),
        seg.w > 0,
        seg.y <= height,
        covered(old(out)@) == seg.x,
        old(out)@.len() == 0 ==> seg.x == 0,
        seg.x + seg.w <= u32::MAX,
        forall|x: int|
            seg.x <= x < seg.x + seg.w ==> seg.y as int == #[trigger] expected_sky(
                s,
                x0,
                x_end,
                new_y,
                x,
            ),
    ensures
        rebuilt_ok(final(out)@, s, x0, x_end, new_y, height),
        covered(final(out)@) == seg.x + seg.w,
{
    let n: usize = out.len();
    if n > 0 && out[n - 1].y == seg.y {
        let last = out[n - 1];
        let merged = Segment { x: last.x, y: last.y, w: last.w + seg.w };
        proof {
            lemma_rebuilt_merge(out@, seg, merged, s, x0, x_end, new_y, height);
        }
        out.set(n - 1, merged);
    } else {
        proof {
            lemma_rebuilt_push(out@, seg, s, x0, x_end, new_y, height);
        }
        out.push(seg);
    }
}

/// After a placement: if the new skyline is the old one raised to the
/// reserved region's bottom edge over its span, every invariant of the
/// packer holds again with the region recorded.
proof fn lemma_placement_keeps_wf<B: Buffer2d>(pre: SkylinePacker<B>, cur: SkylinePacker<B>, e: Rect)
    requires
        pre.wf(),
        cur.buf.wf(),
        cur.buf.spec_width() == pre.buf.spec_width(),
        cur.buf.spec_height() == pre.buf.spec_height(),
        segs_wf(cur.skyline@, cur.width(), cur.height()),
        cur.placed@ == pre.placed@.push(e),
        e.w > 0,
        e.h > 0,
        e.within(pre.width(), pre.height()),
        forall|x: int| e.x <= x < e.right() ==> #[trigger] sky_at(pre.skyline@, x) <= e.y,
        forall|x: int|
            0 <= x < pre.width() ==> #[trigger] sky_at(cur.skyline@, x) == (if e.x <= x
                < e.right() {
                e.bottom()
            } else {
                sky_at(pre.skyline@, x)
            }),
    ensures
        cur.wf(),
{
    let s = pre.skyline@;
    let t = cur.skyline@;
    let ps = pre.placed@;
    assert forall|k: int, x: int|
        0 <= k < cur.placed@.len() && cur.placed@[k].x <= x < cur.placed@[k].right() implies (
    #[trigger] cur.placed@[k]).bottom() <= #[trigger] sky_at(t, x) by {
        if k < ps.len() {
            assert(cur.placed@[k] == ps[k]);
            assert(ps[k].bottom() <= sky_at(s, x));
        } else {
            assert(cur.placed@[k] == e);
        }
    }
    assert forall|k1: int, k2: int|
        0 <= k1 < cur.placed@.len() && 0 <= k2 < cur.placed@.len() && k1 != k2 implies !(
    #[trigger] cur.placed@[k1]).overlaps(#[trigger] cur.placed@[k2]) by {
        if k1 < ps.len() && k2 < ps.len() {
            assert(cur.placed@[k1] == ps[k1] && cur.placed@[k2] == ps[k2]);
        } else {
            let k = if k1 < ps.len() {
                k1
            } else {
                k2
            };
            assert(cur.placed@[k] == ps[k]);
            if ps[k].x < e.right() && e.x < ps[k].right() {
                let xx = if ps[k].x > e.x {
                    ps[k].x as int
                } else {
                    e.x as int
                };
                assert(ps[k].x <= xx < ps[k].right() && e.x <= xx < e.right());
                assert(ps[k].bottom() <= sky_at(s, xx));
                assert(sky_at(s, xx) <= e.y);
            }
        }
    }
}

/// Starting from a `w x h` buffer, `n` successive doublings stay within
/// the growing packer's representable sizes: each step keeps both
/// dimensions within `u32` and the pixel count within `usize`.
pub open spec fn growth_ok(w: int, h: int, n: nat) -> bool
    decreases n,
{
    n == 0 || (2 * w <= u32::MAX && 2 * h <= u32::MAX && 4 * w * h <= usize::MAX && growth_ok(
        2 * w,
        2 * h,
        (n - 1) as nat,
    ))
}

/// A doubling budget for larger dimensions covers smaller ones.
pub proof fn lemma_growth_ok_mono(w1: int, h1: int, w2: int, h2: int, n: nat)
    requires
        0 <= w1 <= w2,
        0 <= h1 <= h2,
        growth_ok(w2, h2, n),
    ensures
        growth_ok(w1, h1, n),
    decreases n,
{
    if n > 0 {
        assert(4 * w1 * h1 <= 4 * w2 * h2) by (nonlinear_arith)
            requires 0 <= w1 <= w2, 0 <= h1 <= h2;
        lemma_growth_ok_mono(2 * w1, 2 * h1, 2 * w2, 2 * h2, (n - 1) as nat);
    }
}

/// A doubling budget covers any smaller number of doublings.
pub proof fn lemma_growth_ok_step(w: int, h: int, n: nat)
    requires
        growth_ok(w, h, n),
        n >= 1,
    ensures
        growth_ok(w, h, (n - 1) as nat),
    decreases n,
{
    if n >= 2 {
        lemma_growth_ok_step(2 * w, 2 * h, (n - 1) as nat);
    }
}

/// The skyline bin-packing engine. Single-owner and single-use per atlas
/// bake: it is consumed by [`SkylinePacker::into_buf`] at the end.
#[verifier::reject_recursive_types(B)]
pub struct SkylinePacker<B> {
    buf: B,
    margin: u32,
    skyline: Vec<Segment>,
    placed: Ghost<Seq<Rect>>,
}

impl<B: Buffer2d> SkylinePacker<B> {
    /// The target buffer as packed so far.
    pub closed spec fn buffer(self) -> B {
        self.buf
    }

    /// Width of the target buffer.
    pub open spec fn width(self) -> int {
        self.buffer().spec_width()
    }

    /// Height of the target buffer.
    pub open spec fn height(self) -> int {
        self.buffer().spec_height()
    }

    /// The configured margin.
    pub closed spec fn spec_margin(self) -> u32 {
        self.margin
    }

    /// The margin-expanded regions reserved by every successful `pack` call
    /// of this packing session, in order.
    pub closed spec fn placements(self) -> Seq<Rect> {
        self.placed@
    }

    /// A rectangle of `w x h` (margin already included) could be placed on
    /// the current skyline: some segment start offers `w` contiguous pixels
    /// of width, and the lowest free line across that span leaves `h`
    /// pixels above the buffer's bottom edge.
    pub closed spec fn fits(self, w: int, h: int) -> bool {
        exists|i: int|
            0 <= i < self.skyline@.len() && #[trigger] self.skyline@[i].x + w <= self.width()
                && span_max(self.skyline@, i, self.skyline@[i].x + w) + h <= self.height()
    }

    /// The reserved region's corner `(x0, y0)` is the placement the
    /// packer must choose for an expanded rectangle of `w x h`: a segment
    /// start hosting it, whose hosting line is the lowest on offer, and
    /// leftmost among the lowest.
    #[verifier::opaque]
    pub closed spec fn is_lowest_leftmost(self, x0: int, y0: int, w: int, h: int) -> bool {
        &&& exists|i: int|
            0 <= i < self.skyline@.len() && #[trigger] self.skyline@[i].x + w <= self.width()
                && x0 == self.skyline@[i].x && y0 == span_max(
                self.skyline@,
                i,
                self.skyline@[i].x + w,
            )
        &&& y0 + h <= self.height()
        &&& forall|j: int|
            0 <= j < self.skyline@.len() && #[trigger] self.skyline@[j].x + w <= self.width()
                && span_max(self.skyline@, j, self.skyline@[j].x + w) + h <= self.height() ==> y0
                <= span_max(self.skyline@, j, self.skyline@[j].x + w) && (y0 == span_max(
                self.skyline@,
                j,
                self.skyline@[j].x + w,
            ) ==> x0 <= self.skyline@[j].x)
    }

    /// Internal invariant: the buffer is well formed, the skyline covers
    /// its width, and every reserved region lies in bounds, below the
    /// skyline, and apart from every other.
    pub closed spec fn wf(self) -> bool {
        &&& self.buf.wf()
        &&& 1 <= self.width() <= u32::MAX
        &&& 1 <= self.height() <= u32::MAX
        &&& segs_wf(self.skyline@, self.width(), self.height())
        &&& forall|k: int|
            0 <= k < self.placed@.len() ==> (#[trigger] self.placed@[k]).within(
                self.width(),
                self.height(),
            ) && self.placed@[k].w > 0 && self.placed@[k].h > 0
        &&& forall|k: int, x: int|
            0 <= k < self.placed@.len() && self.placed@[k].x <= x < self.placed@[k].right()
                ==> (#[trigger] self.placed@[k]).bottom() <= #[trigger] sky_at(self.skyline@, x)
        &&& forall|k1: int, k2: int|
            0 <= k1 < self.placed@.len() && 0 <= k2 < self.placed@.len() && k1 != k2 ==> !(
            #[trigger] self.placed@[k1]).overlaps(#[trigger] self.placed@[k2])
    }

    /// Start a packing session over `buf`. The initial skyline is a single
    /// segment spanning the full width at y = 0; the margin defaults to 0.
    /// On the fresh skyline every rectangle within the buffer's dimensions
    /// fits, and its placement corner is the origin.
    pub fn new(buf: B) -> (r: SkylinePacker<B>)
        requires
            buf.wf(),
            1 <= buf.spec_width() <= u32::MAX,
            1 <= buf.spec_height() <= u32::MAX,
        ensures
            r.wf(),
            r.buffer() == buf,
            r.spec_margin() == 0,
            r.placements() == Seq::<Rect>::empty(),
            forall|w: int, h: int|
                1 <= w <= buf.spec_width() && 0 <= h <= buf.spec_height() ==> #[trigger] r.fits(
                    w,
                    h,
                ) && r.is_lowest_leftmost(0, 0, w, h),
    {
        let w: usize = buf.size().0;
        let mut skyline: Vec<Segment> = Vec::new();
        skyline.push(Segment { x: 0, y: 0, w: w as u32 });
        let r = SkylinePacker { buf, margin: 0, skyline, placed: Ghost(Seq::empty()) };
        proof {
            let t = r.skyline@;
            assert forall|ww: int, hh: int|
                1 <= ww <= r.buffer().spec_width() && 0 <= hh
                    <= r.buffer().spec_height() implies #[trigger] r.fits(ww, hh)
                && r.is_lowest_leftmost(0, 0, ww, hh) by {
                reveal(SkylinePacker::is_lowest_leftmost);
                assert(span_max(t, 1, t[0].x + ww) == 0);
                assert(t[0].x + ww <= r.width());
                assert(span_max(t, 0, t[0].x + ww) == 0);
            }
        }
        r
    }

    /// The packer never offers two placement corners for one size: the
    /// lowest hosting line, leftmost among equals, is a single spot.
    pub proof fn lemma_lowest_leftmost_unique(
        self,
        x1: int,
        y1: int,
        x2: int,
        y2: int,
        w: int,
        h: int,
    )
        requires
            self.wf(),
            self.is_lowest_leftmost(x1, y1, w, h),
            self.is_lowest_leftmost(x2, y2, w, h),
        ensures
            x1 == x2,
            y1 == y2,
    {
        reveal(SkylinePacker::is_lowest_leftmost);
        let s = self.skyline@;
        let i1 = choose|i: int|
            0 <= i < s.len() && #[trigger] s[i].x + w <= self.width() && x1 == s[i].x && y1
                == span_max(s, i, s[i].x + w);
        let i2 = choose|i: int|
            0 <= i < s.len() && #[trigger] s[i].x + w <= self.width() && x2 == s[i].x && y2
                == span_max(s, i, s[i].x + w);
        assert(y1 <= span_max(s, i2, s[i2].x + w));
        assert(y2 <= span_max(s, i1, s[i1].x + w));
        assert(y1 == y2);
        assert(x1 <= s[i2].x);
        assert(x2 <= s[i1].x);
    }

    /// Configure the empty-space margin enforced around every packed
    /// rectangle, in pixels. The skyline is untouched: what fits, and
    /// where it lands, stays as it was.
    pub fn set_margin(&mut self, margin: u32)
        requires
            old(self).wf(),
        ensures
            final(self).wf(),
            final(self).spec_margin() == margin,
            final(self).buffer() == old(self).buffer(),
            final(self).placements() == old(self).placements(),
            forall|w: int, h: int| #[trigger] final(self).fits(w, h) == old(self).fits(w, h),
            forall|x0: int, y0: int, w: int, h: int|
                #[trigger] final(self).is_lowest_leftmost(x0, y0, w, h) == old(
                    self,
                ).is_lowest_leftmost(x0, y0, w, h),
    {
        self.margin = margin;
        proof {
            reveal(SkylinePacker::is_lowest_leftmost);
        }
    }

    /// The lowest y at which a rectangle of width `w` can sit when its left
    /// edge starts at segment `i`, or `None` when the span would run past
    /// the buffer's right edge.
    fn span_y(&self, i: usize, w: u32) -> (r: Option<u32>)
        requires
            self.wf(),
            i < self.skyline@.len(),
            w >= 1,
        ensures
            match r {
                Some(y) => self.skyline@[i as int].x + w <= self.width() && y == span_max(
                    self.skyline@,
                    i as int,
                    self.skyline@[i as int].x + w,
                ),
                None => self.skyline@[i as int].x + w > self.width(),
            },
    {
        let ghost s = self.skyline@;
        let ghost width = self.width();
        let ghost height = self.height();
        let x0: u32 = self.skyline[i].x;
        proof {
            lemma_seg_starts_ordered(s, width, height, i as int, i as int);
        }
        if w as u64 + x0 as u64 > self.buf.size().0 as u64 {
            return None;
        }
        let x_end: u32 = x0 + w;
        let mut best: u32 = 0;
        let mut j: usize = i;
        while j < self.skyline.len() && self.skyline[j].x < x_end
            invariant
                self.wf(),
                s == self.skyline@,
                width == self.width(),
                height == self.height(),
                i <= j <= s.len(),
                x_end == s[i as int].x + w,
                x_end <= width,
                span_max(s, i as int, x_end as int) == (if best >= span_max(
                    s,
                    j as int,
                    x_end as int,
                ) {
                    best as int
                } else {
                    span_max(s, j as int, x_end as int)
                }),
            decreases s.len() - j,
        {
            let y = self.skyline[j].y;
            if y > best {
                best = y;
            }
            j = j + 1;
        }
        Some(best)
    }

    /// Find the lowest placement for an expanded rectangle of `w x h`:
    /// among the segment starts that can host `w` contiguous pixels without
    /// the span's lowest free line pushing the rectangle past the buffer's
    /// bottom, pick the lowest y, and among equals the leftmost.
    fn find_placement(&self, w: u32, h: u32) -> (r: Option<(u32, u32)>)
        requires
            self.wf(),
            w >= 1,
            h >= 1,
        ensures
            match r {
                Some(p) => {
                    &&& exists|i: int|
                        0 <= i < self.skyline@.len() && #[trigger] self.skyline@[i].x + w
                            <= self.width() && p.0 == self.skyline@[i].x && p.1 == span_max(
                            self.skyline@,
                            i,
                            self.skyline@[i].x + w,
                        )
                    &&& p.1 + h <= self.height()
                    &&& p.0 + w <= self.width()
                    &&& forall|i: int|
                        0 <= i < self.skyline@.len() && #[trigger] self.skyline@[i].x + w
                            <= self.width() && span_max(self.skyline@, i, self.skyline@[i].x + w)
                            + h <= self.height() ==> p.1 <= span_max(
                            self.skyline@,
                            i,
                            self.skyline@[i].x + w,
                        ) && (p.1 == span_max(self.skyline@, i, self.skyline@[i].x + w) ==> p.0
                            <= self.skyline@[i].x)
                },
                None => !self.fits(w as int, h as int),
            },
            r is Some <==> self.fits(w as int, h as int),
    {
        let ghost s = self.skyline@;
        let mut best: Option<(u32, u32)> = None;
        let mut i: usize = 0;
        while i < self.skyline.len()
            invariant
                self.wf(),
                s == self.skyline@,
                w >= 1,
                h >= 1,
                i <= s.len(),
                match best {
                    Some(p) => {
                        &&& exists|k: int|
                            0 <= k < i && #[trigger] s[k].x + w <= self.width() && p.0 == s[k].x
                                && p.1 == span_max(s, k, s[k].x + w)
                        &&& p.1 + h <= self.height()
                        &&& p.0 + w <= self.width()
                        &&& forall|k: int|
                            0 <= k < i && #[trigger] s[k].x + w <= self.width() && span_max(
                                s,
                                k,
                                s[k].x + w,
                            ) + h <= self.height() ==> p.1 <= span_max(s, k, s[k].x + w) && (p.1
                            == span_max(s, k, s[k].x + w) ==> p.0 <= s[k].x)
                    },
                    None => forall|k: int|
                        0 <= k < i ==> !(#[trigger] s[k].x + w <= self.width() && span_max(
                            s,
                            k,
                            s[k].x + w,
                        ) + h <= self.height()),
                },
            decreases s.len() - i,
        {
            match self.span_y(i, w) {
                Some(y) => {
                    if y as u64 + h as u64 <= self.buf.size().1 as u64 {
                        let cand_x: u32 = self.skyline[i].x;
                        match best {
                            Some(p) => {
                                if y < p.1 {
                                    best = Some((cand_x, y));
                                } else {
                                    proof {
                                        if y == p.1 {
                                            let k0 = choose|k0: int|
                                                0 <= k0 < i && #[trigger] s[k0].x + w
                                                    <= self.width() && p.0 == s[k0].x && p.1
                                                    == span_max(s, k0, s[k0].x + w);
                                            lemma_seg_starts_ordered(
                                                s,
                                                self.width(),
                                                self.height(),
                                                k0,
                                                i as int,
                                            );
                                        }
                                    }
                                }
                            },
                            None => {
                                best = Some((cand_x, y));
                            },
                        }
                    }
                },
                None => {},
            }
            i = i + 1;
        }
        best
    }

    /// Raise the skyline to `new_y` over `[x0, x0 + w_span)`, splitting the
    /// segments at the range's edges and leaving every other height as it
    /// was.
    #[verifier::rlimit(60)]
    fn raise(&mut self, x0: u32, w_span: u32, new_y: u32)
        requires
            old(self).wf(),
            w_span >= 1,
            x0 + w_span <= old(self).width(),
            new_y <= old(self).height(),
        ensures
            final(self).buffer() == old(self).buffer(),
            final(self).spec_margin() == old(self).spec_margin(),
            final(self).placements() == old(self).placements(),
            segs_wf(final(self).skyline@, final(self).width(), final(self).height()),
            forall|x: int|
                0 <= x < old(self).width() ==> #[trigger] sky_at(final(self).skyline@, x) == (
                if x0 <= x < x0 + w_span {
                    new_y as int
                } else {
                    sky_at(old(self).skyline@, x)
                }),
    {
        let ghost s = old(self).skyline@;
        let ghost width = old(self).width();
        let ghost height = old(self).height();
        proof {
            assert forall|k: int| 0 <= k < s.len() implies #[trigger] s[k].x + s[k].w
                <= width by {
                lemma_seg_ends_le_width(s, width, height, k);
            }
        }
        let x_end: u32 = x0 + w_span;
        let n: usize = self.skyline.len();
        let mut out: Vec<Segment> = Vec::new();
        let mut j: usize = 0;
        // Segments wholly left of the raised range are kept as they are.
        while j < n && self.skyline[j].x + self.skyline[j].w <= x0
            invariant
                self == old(self),
                s == self.skyline@,
                segs_wf(s, width, height),
                forall|k: int| 0 <= k < s.len() ==> #[trigger] s[k].x + s[k].w <= width,
                n == s.len(),
                x_end == x0 + w_span,
                w_span >= 1,
                x_end <= width,
                width <= u32::MAX,
                new_y <= height,
                j <= n,
                rebuilt_ok(out@, s, x0 as int, x_end as int, new_y as int, height),
                covered(out@) == (if j < n { s[j as int].x as int } else { width }),
                covered(out@) <= x0,
            decreases n - j,
        {
            let seg = self.skyline[j];
            proof {
                assert forall|x: int| seg.x <= x < seg.x + seg.w implies seg.y as int
                    == #[trigger] expected_sky(s, x0 as int, x_end as int, new_y as int, x) by {
                    lemma_sky_at_seg(s, width, height, j as int, x);
                }
                if j + 1 < n {
                    assert(s[j as int].x + s[j as int].w == s[j as int + 1].x);
                }
            }
            push_merged(
                &mut out,
                seg,
                Ghost(s),
                Ghost(x0 as int),
                Ghost(x_end as int),
                Ghost(new_y as int),
                Ghost(height),
            );
            j = j + 1;
        }
        proof {
            if j == n {
                assert(covered(out@) == width);
                assert(x0 < width);
                assert(false);
            }
        }
        // The segment straddling the range's left edge keeps its left part.
        if self.skyline[j].x < x0 {
            let seg = self.skyline[j];
            let clip = Segment { x: seg.x, y: seg.y, w: x0 - seg.x };
            proof {
                assert forall|x: int| clip.x <= x < clip.x + clip.w implies clip.y as int
                    == #[trigger] expected_sky(s, x0 as int, x_end as int, new_y as int, x) by {
                    lemma_sky_at_seg(s, width, height, j as int, x);
                }
            }
            push_merged(
                &mut out,
                clip,
                Ghost(s),
                Ghost(x0 as int),
                Ghost(x_end as int),
                Ghost(new_y as int),
                Ghost(height),
            );
        }
        // The raised range becomes one segment at the new height.
        let lifted = Segment { x: x0, y: new_y, w: w_span };
        proof {
            assert forall|x: int| lifted.x <= x < lifted.x + lifted.w implies lifted.y as int
                == #[trigger] expected_sky(s, x0 as int, x_end as int, new_y as int, x) by {}
        }
        push_merged(
            &mut out,
            lifted,
            Ghost(s),
            Ghost(x0 as int),
            Ghost(x_end as int),
            Ghost(new_y as int),
            Ghost(height),
        );
        // Segments wholly inside the raised range are consumed.
        while j < n && self.skyline[j].x + self.skyline[j].w <= x_end
            invariant
                self == old(self),
                s == self.skyline@,
                segs_wf(s, width, height),
                forall|k: int| 0 <= k < s.len() ==> #[trigger] s[k].x + s[k].w <= width,
                n == s.len(),
                x_end == x0 + w_span,
                x_end <= width,
                width <= u32::MAX,
                j <= n,
                j < n ==> s[j as int].x <= x_end,
                j == n ==> x_end == width,
                rebuilt_ok(out@, s, x0 as int, x_end as int, new_y as int, height),
                covered(out@) == x_end,
            decreases n - j,
        {
            j = j + 1;
        }
        // The segment straddling the range's right edge keeps its right
        // part; segments past the range are kept as they are.
        while j < n
            invariant
                self == old(self),
                s == self.skyline@,
                segs_wf(s, width, height),
                forall|k: int| 0 <= k < s.len() ==> #[trigger] s[k].x + s[k].w <= width,
                n == s.len(),
                x_end == x0 + w_span,
                x_end <= width,
                width <= u32::MAX,
                j <= n,
                j < n ==> s[j as int].x + s[j as int].w > covered(out@),
                j < n ==> (s[j as int].x == covered(out@) || (covered(out@) == x_end
                    && s[j as int].x < x_end)),
                covered(out@) >= x_end,
                j == n ==> covered(out@) == width,
                rebuilt_ok(out@, s, x0 as int, x_end as int, new_y as int, height),
            decreases n - j,
        {
            let seg = self.skyline[j];
            let ghost cov = covered(out@);
            if seg.x < x_end {
                let clip = Segment { x: x_end, y: seg.y, w: seg.x + seg.w - x_end };
                proof {
                    assert(cov == x_end);
                    assert forall|x: int| clip.x <= x < clip.x + clip.w implies clip.y as int
                        == #[trigger] expected_sky(s, x0 as int, x_end as int, new_y as int, x) by {
                        lemma_sky_at_seg(s, width, height, j as int, x);
                    }
                }
                push_merged(
                    &mut out,
                    clip,
                    Ghost(s),
                    Ghost(x0 as int),
                    Ghost(x_end as int),
                    Ghost(new_y as int),
                    Ghost(height),
                );
            } else {
                proof {
                    assert(seg.x == cov);
                    assert forall|x: int| seg.x <= x < seg.x + seg.w implies seg.y as int
                        == #[trigger] expected_sky(s, x0 as int, x_end as int, new_y as int, x) by {
                        lemma_sky_at_seg(s, width, height, j as int, x);
                    }
                }
                push_merged(
                    &mut out,
                    seg,
                    Ghost(s),
                    Ghost(x0 as int),
                    Ghost(x_end as int),
                    Ghost(new_y as int),
                    Ghost(height),
                );
            }
            proof {
                if j + 1 < n {
                    assert(s[j as int].x + s[j as int].w == s[j as int + 1].x);
                }
            }
            j = j + 1;
        }
        self.skyline = out;
        proof {
            let t = self.skyline@;
            assert(segs_wf(t, width, height));
            assert forall|x: int| 0 <= x < width implies #[trigger] sky_at(t, x) == (if x0 <= x
                < x0 + w_span {
                new_y as int
            } else {
                sky_at(s, x)
            }) by {
                assert(covered(t) == width);
                assert(sky_at(t, x) == expected_sky(s, x0 as int, x_end as int, new_y as int, x));
            }
        }
    }

    /// Place `item` on the skyline. The search takes the segment start
    /// offering the lowest hosting line for `item`'s width plus a margin on
    /// each side, leftmost among equals; the reserved region's interior is
    /// returned, the margin is consumed but not drawn into, and the skyline
    /// over the reserved span rises to its bottom edge. Fails with `NoFit`
    /// exactly when no segment can host the expanded rectangle within the
    /// current buffer bounds.
    #[verifier::rlimit(100)]
    pub fn pack(&mut self, item: &Bitmap) -> (res: Result<Rect, NoFit>)
        requires
            old(self).wf(),
            item.wf(),
            1 <= item.spec_width(),
            1 <= item.spec_height(),
            item.spec_width() + 2 * old(self).spec_margin() <= u32::MAX,
            item.spec_height() + 2 * old(self).spec_margin() <= u32::MAX,
        ensures
            final(self).wf(),
            final(self).width() == old(self).width(),
            final(self).height() == old(self).height(),
            final(self).spec_margin() == old(self).spec_margin(),
            res is Ok <==> old(self).fits(
                item.spec_width() + 2 * old(self).spec_margin(),
                item.spec_height() + 2 * old(self).spec_margin(),
            ),
            match res {
                Ok(r) => {
                    &&& r.w == item.spec_width()
                    &&& r.h == item.spec_height()
                    &&& r.x >= old(self).spec_margin()
                    &&& r.y >= old(self).spec_margin()
                    &&& r.x + r.w + old(self).spec_margin() <= old(self).width()
                    &&& r.y + r.h + old(self).spec_margin() <= old(self).height()
                    &&& old(self).is_lowest_leftmost(
                        r.x - old(self).spec_margin(),
                        r.y - old(self).spec_margin(),
                        item.spec_width() + 2 * old(self).spec_margin(),
                        item.spec_height() + 2 * old(self).spec_margin(),
                    )
                    &&& final(self).placements() == old(self).placements().push(
                        (Rect {
                            x: (r.x - old(self).spec_margin()) as u32,
                            y: (r.y - old(self).spec_margin()) as u32,
                            w: (r.w + 2 * old(self).spec_margin()) as u32,
                            h: (r.h + 2 * old(self).spec_margin()) as u32,
                        }),
                    )
                    &&& forall|i: int, j: int|
                        0 <= i < item.spec_width() && 0 <= j < item.spec_height()
                            ==> final(self).buffer().pixel(r.x + i, r.y + j) == item.pixel(i, j)
                    &&& forall|i: int, j: int|
                        0 <= i < old(self).width() && 0 <= j < old(self).height() && !(r.x <= i
                            < r.x + r.w && r.y <= j < r.y + r.h) ==> final(self).buffer().pixel(
                            i,
                            j,
                        ) == old(self).buffer().pixel(i, j)
                },
                Err(_) => *final(self) == *old(self),
            },
    {
        let ghost s = old(self).skyline@;
        let ghost width = old(self).width();
        let ghost height = old(self).height();
        let m: u32 = self.margin;
        let iw: usize = item.width();
        let ih: usize = item.height();
        let w_exp: u32 = ((iw as u64) + 2 * (m as u64)) as u32;
        let h_exp: u32 = ((ih as u64) + 2 * (m as u64)) as u32;
        match self.find_placement(w_exp, h_exp) {
            None => Err(NoFit),
            Some(p) => {
                let x0: u32 = p.0;
                let y0: u32 = p.1;
                let ghost e = Rect { x: x0, y: y0, w: w_exp, h: h_exp };
                proof {
                    assert(old(self).is_lowest_leftmost(
                        x0 as int,
                        y0 as int,
                        w_exp as int,
                        h_exp as int,
                    )) by {
                        reveal(SkylinePacker::is_lowest_leftmost);
                    }
                    let i = choose|i: int|
                        0 <= i < s.len() && #[trigger] s[i].x + w_exp <= width && x0 == s[i].x
                            && y0 == span_max(s, i, s[i].x + w_exp);
                    assert forall|x: int| x0 <= x < x0 + w_exp implies #[trigger] sky_at(s, x)
                        <= y0 by {
                        lemma_sky_le_span_max(s, width, height, i, x0 as int + w_exp, x);
                    }
                }
                self.buf.patch(x0 + m, y0 + m, item);
                proof {
                    assert(self.wf());
                }
                self.raise(x0, w_exp, y0 + h_exp);
                self.placed = Ghost(self.placed@.push(e));
                proof {
                    lemma_placement_keeps_wf(*old(self), *self, e);
                }
                Ok(Rect { x: x0 + m, y: y0 + m, w: iw as u32, h: ih as u32 })
            },
        }
    }

}

impl<B: ResizeBuffer> SkylinePacker<B> {
    /// Grow the target buffer to `nw x nh`, preserving every pixel packed
    /// so far and every reserved region. The existing skyline stays a
    /// correct lower bound; the fresh width beyond the old right edge
    /// becomes one free segment at height 0.
    fn grow(&mut self, nw: u32, nh: u32)
        requires
            old(self).wf(),
            old(self).width() <= nw,
            old(self).height() <= nh,
            nw * nh <= usize::MAX,
        ensures
            final(self).wf(),
            final(self).width() == nw,
            final(self).height() == nh,
            final(self).spec_margin() == old(self).spec_margin(),
            final(self).placements() == old(self).placements(),
            forall|i: int, j: int|
                0 <= i < old(self).width() && 0 <= j < old(self).height()
                    ==> final(self).buffer().pixel(i, j) == old(self).buffer().pixel(i, j),
            forall|i: int, j: int|
                0 <= i < final(self).width() && 0 <= j < final(self).height() && !(0 <= i < old(
                    self,
                ).width() && 0 <= j < old(self).height()) ==> final(self).buffer().pixel(i, j)
                    == 0u8,
            forall|w: int, h: int|
                1 <= w <= nw - old(self).width() && 0 <= h <= nh ==> final(self).fits(w, h),
    {
        let ghost s = old(self).skyline@;
        let ghost ow = old(self).width();
        let ghost oh = old(self).height();
        let prev_w: usize = self.buf.size().0;
        self.buf.resize(nw, nh);
        if (prev_w as u64) < (nw as u64) {
            self.skyline.push(Segment { x: prev_w as u32, y: 0, w: nw - prev_w as u32 });
        }
        proof {
            let t = self.skyline@;
            if ow < nw {
                assert(t == s.push(Segment { x: ow as u32, y: 0, w: (nw - ow) as u32 }));
                assert forall|k: int| 0 <= k < t.len() - 1 implies (#[trigger] t[k]).x + t[k].w
                    == t[k + 1].x by {
                    if k < s.len() - 1 {
                        assert(t[k] == s[k] && t[k + 1] == s[k + 1]);
                    }
                }
                assert(segs_wf(t, nw as int, nh as int));
                assert forall|x: int| 0 <= x < ow implies #[trigger] sky_at(t, x) == sky_at(
                    s,
                    x,
                ) by {
                    lemma_seg_containing(s, ow, oh, x);
                    let k = choose|k: int|
                        0 <= k < s.len() && (#[trigger] s[k].x) <= x < s[k].x + s[k].w;
                    lemma_sky_at_seg(s, ow, oh, k, x);
                    assert(t[k] == s[k]);
                    lemma_sky_at_seg(t, nw as int, nh as int, k, x);
                }
                assert forall|k: int, x: int|
                    0 <= k < self.placed@.len() && self.placed@[k].x <= x
                        < self.placed@[k].right() implies (#[trigger] self.placed@[k]).bottom()
                    <= #[trigger] sky_at(t, x) by {
                    assert(self.placed@[k].bottom() <= sky_at(s, x));
                }
                assert forall|w: int, h: int|
                    1 <= w <= nw - ow && 0 <= h <= nh implies self.fits(w, h) by {
                    let i = t.len() - 1;
                    assert(t[i].x + w <= ow + (nw - ow));
                    assert(span_max(t, t.len() as int, t[i].x + w) == 0);
                    assert(span_max(t, i, t[i].x + w) == 0);
                }
            } else {
                assert(t == s);
                assert forall|k: int, x: int|
                    0 <= k < self.placed@.len() && self.placed@[k].x <= x
                        < self.placed@[k].right() implies (#[trigger] self.placed@[k]).bottom()
                    <= #[trigger] sky_at(t, x) by {
                    assert(self.placed@[k].bottom() <= sky_at(s, x));
                }
            }
            assert(self.wf());
        }
    }

    /// Pack `item`, growing the target buffer by doubling both dimensions
    /// and retrying whenever it does not fit. The buffer's width and height
    /// never shrink, grow only by whole synchronized doublings, and do not
    /// grow at all when the expanded item already fits — the placement is
    /// then the lowest-leftmost spot of the unchanged skyline. Fails with
    /// `NoFit` only when doubling would push a dimension past `u32::MAX`
    /// or the pixel count past `usize::MAX` before a fit appears; a
    /// placement within at most one doubling is guaranteed when the
    /// expanded item fits within the current dimensions and that doubling
    /// is representable.
    pub fn pack_resize(&mut self, item: &Bitmap) -> (res: Result<Rect, NoFit>)
        requires
            old(self).wf(),
            item.wf(),
            1 <= item.spec_width(),
            1 <= item.spec_height(),
            item.spec_width() + 2 * old(self).spec_margin() <= u32::MAX,
            item.spec_height() + 2 * old(self).spec_margin() <= u32::MAX,
        ensures
            final(self).wf(),
            final(self).spec_margin() == old(self).spec_margin(),
            final(self).width() >= old(self).width(),
            final(self).height() >= old(self).height(),
            match res {
                Ok(r) => {
                    &&& r.w == item.spec_width()
                    &&& r.h == item.spec_height()
                    &&& r.x >= old(self).spec_margin()
                    &&& r.y >= old(self).spec_margin()
                    &&& r.x + r.w + old(self).spec_margin() <= final(self).width()
                    &&& r.y + r.h + old(self).spec_margin() <= final(self).height()
                    &&& final(self).placements() == old(self).placements().push(
                        (Rect {
                            x: (r.x - old(self).spec_margin()) as u32,
                            y: (r.y - old(self).spec_margin()) as u32,
                            w: (r.w + 2 * old(self).spec_margin()) as u32,
                            h: (r.h + 2 * old(self).spec_margin()) as u32,
                        }),
                    )
                    &&& forall|i: int, j: int|
                        0 <= i < item.spec_width() && 0 <= j < item.spec_height()
                            ==> final(self).buffer().pixel(r.x + i, r.y + j) == item.pixel(i, j)
                    &&& forall|i: int, j: int|
                        0 <= i < old(self).width() && 0 <= j < old(self).height() && !(r.x <= i
                            < r.x + r.w && r.y <= j < r.y + r.h) ==> final(self).buffer().pixel(
                            i,
                            j,
                        ) == old(self).buffer().pixel(i, j)
                },
                Err(_) => {
                    &&& final(self).placements() == old(self).placements()
                    &&& forall|i: int, j: int|
                        0 <= i < old(self).width() && 0 <= j < old(self).height()
                            ==> final(self).buffer().pixel(i, j) == old(self).buffer().pixel(i, j)
                },
            },
            (item.spec_width() + 2 * old(self).spec_margin() <= old(self).width()
                && item.spec_height() + 2 * old(self).spec_margin() <= old(self).height() && 2
                * old(self).width() <= u32::MAX && 2 * old(self).height() <= u32::MAX && 4 * old(
                self,
            ).width() * old(self).height() <= usize::MAX) ==> (res is Ok && final(self).width()
                <= 2 * old(self).width() && final(self).height() <= 2 * old(self).height()),
            old(self).fits(
                item.spec_width() + 2 * old(self).spec_margin(),
                item.spec_height() + 2 * old(self).spec_margin(),
            ) ==> (res is Ok && final(self).width() == old(self).width() && final(self).height()
                == old(self).height() && (res matches Ok(r) ==> old(self).is_lowest_leftmost(
                r.x - old(self).spec_margin(),
                r.y - old(self).spec_margin(),
                item.spec_width() + 2 * old(self).spec_margin(),
                item.spec_height() + 2 * old(self).spec_margin(),
            ))),
            exists|k: nat|
                final(self).width() == old(self).width() * #[trigger] pow2(k)
                    && final(self).height() == old(self).height() * pow2(k),
    {
        let ghost wexp = item.spec_width() + 2 * old(self).spec_margin();
        let ghost hexp = item.spec_height() + 2 * old(self).spec_margin();
        let ghost easy = wexp <= old(self).width() && hexp <= old(self).height() && 2 * old(
            self,
        ).width() <= u32::MAX && 2 * old(self).height() <= u32::MAX && 4 * old(self).width() * old(
            self,
        ).height() <= usize::MAX;
        proof {
            assert(pow2(0) == 1) by {
                vstd::arithmetic::power2::lemma2_to64();
            }
            assert(self.width() == old(self).width() * pow2(0) && self.height() == old(
                self,
            ).height() * pow2(0));
        }
        loop
            invariant
                self.wf(),
                item.wf(),
                1 <= item.spec_width(),
                1 <= item.spec_height(),
                wexp == item.spec_width() + 2 * old(self).spec_margin(),
                hexp == item.spec_height() + 2 * old(self).spec_margin(),
                wexp <= u32::MAX,
                hexp <= u32::MAX,
                self.spec_margin() == old(self).spec_margin(),
                self.width() >= old(self).width(),
                self.height() >= old(self).height(),
                self.placements() == old(self).placements(),
                forall|i: int, j: int|
                    0 <= i < old(self).width() && 0 <= j < old(self).height()
                        ==> self.buffer().pixel(i, j) == old(self).buffer().pixel(i, j),
                easy == (wexp <= old(self).width() && hexp <= old(self).height() && 2 * old(
                    self,
                ).width() <= u32::MAX && 2 * old(self).height() <= u32::MAX && 4 * old(
                    self,
                ).width() * old(self).height() <= usize::MAX),
                easy ==> (self.width() == old(self).width() && self.height() == old(
                    self,
                ).height()) || (self.fits(wexp, hexp) && self.width() == 2 * old(self).width()
                    && self.height() == 2 * old(self).height()),
                old(self).fits(wexp, hexp) ==> *self == *old(self),
                exists|k: nat|
                    self.width() == old(self).width() * #[trigger] pow2(k) && self.height() == old(
                        self,
                    ).height() * pow2(k),
            decreases 2 * u32::MAX as int - self.width() - self.height(),
        {
            let ghost pre = *self;
            match self.pack(item) {
                Ok(r) => {
                    return Ok(r);
                },
                Err(_) => {},
            }
            proof {
                if easy {
                    assert(!pre.fits(wexp, hexp));
                    assert(self.width() == old(self).width() && self.height() == old(
                        self,
                    ).height());
                }
            }
            let dims = self.buf.size();
            let w: usize = dims.0;
            let h: usize = dims.1;
            if (w as u64) * 2 > u32::MAX as u64 || (h as u64) * 2 > u32::MAX as u64 {
                proof {
                    if easy {
                        assert(false);
                    }
                }
                return Err(NoFit);
            }
            let nw: u32 = (w as u32) * 2;
            let nh: u32 = (h as u32) * 2;
            proof {
                assert((nw as int) * (nh as int) <= u64::MAX) by (nonlinear_arith)
                    requires nw <= u32::MAX, nh <= u32::MAX;
            }
            if (nw as u64) * (nh as u64) > (usize::MAX as u64) {
                proof {
                    if easy {
                        assert((nw as int) * (nh as int) == 4 * (w as int) * (h as int))
                            by (nonlinear_arith)
                            requires nw == 2 * w, nh == 2 * h;
                        assert(false);
                    }
                }
                return Err(NoFit);
            }
            proof {
                assert((nw as int) * (nh as int) <= usize::MAX);
            }
            let ghost w0 = old(self).width();
            let ghost h0 = old(self).height();
            let ghost kk = choose|k: nat|
                (w as int) == w0 * #[trigger] pow2(k) && (h as int) == h0 * pow2(k);
            self.grow(nw, nh);
            proof {
                if easy {
                    assert(wexp <= nw - (w as int));
                    assert(self.fits(wexp, hexp));
                }
                assert(pow2(kk + 1) == 2 * pow2(kk)) by {
                    vstd::arithmetic::power2::lemma_pow2_unfold((kk + 1) as nat);
                }
                let wc = self.width();
                let hc = self.height();
                assert(wc == w0 * pow2(kk + 1) && hc == h0 * pow2(kk + 1)) by (nonlinear_arith)
                    requires
                        wc == 2 * (w as int),
                        hc == 2 * (h as int),
                        (w as int) == w0 * pow2(kk),
                        (h as int) == h0 * pow2(kk),
                        pow2(kk + 1) == 2 * pow2(kk);
            }
        }
    }

}

impl<B: Buffer2d> SkylinePacker<B> {
    /// A well-formed packer's buffer dimensions are positive and fit `u32`.
    pub proof fn lemma_dims(self)
        requires
            self.wf(),
        ensures
            self.buffer().wf(),
            1 <= self.width() <= u32::MAX,
            1 <= self.height() <= u32::MAX,
    {
    }

    /// No two regions reserved within one packing session overlap, margins
    /// included.
    pub proof fn lemma_no_overlap(self, i: int, j: int)
        requires
            self.wf(),
            0 <= i < self.placements().len(),
            0 <= j < self.placements().len(),
            i != j,
        ensures
            !self.placements()[i].overlaps(self.placements()[j]),
    {
    }

    /// Every reserved region lies fully within the buffer's current
    /// dimensions.
    pub proof fn lemma_in_bounds(self, i: int)
        requires
            self.wf(),
            0 <= i < self.placements().len(),
        ensures
            self.placements()[i].within(self.width(), self.height()),
    {
    }

    /// The target buffer's current width and height in pixels.
    pub fn dims(&self) -> (r: (usize, usize))
        requires
            self.wf(),
        ensures
            r.0 == self.width(),
            r.1 == self.height(),
    {
        self.buf.size()
    }

    /// Consume the packer, returning the final target buffer.
    pub fn into_buf(self) -> (r: B)
        ensures
            r == self.buffer(),
    {
        self.buf
    }
}

} // verus!
