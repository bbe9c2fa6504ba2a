//! The atlas layer: character layout metrics, a map from characters to
//! them, and the bulk atlas build that packs a rendered character set into
//! one bitmap.

use vstd::prelude::*;

use crate::bitmap::Bitmap;
use crate::buffer2d::Buffer2d;
use crate::rect::Rect;
use crate::skyline::growth_ok;
use crate::skyline::lemma_growth_ok_mono;
use crate::skyline::lemma_growth_ok_step;
use crate::skyline::NoFit;
use crate::skyline::SkylinePacker;

verus! {

/// Information about a character from a font rendered at a specific scale.
///
/// `bounding_box` locates the glyph's pixels inside whichever bitmap holds
/// it. The advances are pen movements in the host's pen units (for example
/// 1/64 pixel): `pre_draw_advance` is applied before drawing the character,
/// `post_draw_advance` after.
#[derive(Clone, Copy, Debug)]
pub struct CharInfo {
    /// The character in question.
    pub chr: char,
    /// Where the character's pixels lie in its bitmap.
    pub bounding_box: Rect,
    /// The amount of (x, y) that the pen should move after drawing the
    /// character.
    pub post_draw_advance: (i32, i32),
    /// The amount of (x, y) that the pen should move before drawing the
    /// character.
    pub pre_draw_advance: (i32, i32),
}

/// One character of an input set, as the glyph rasterizer reported it.
pub struct RenderedChar {
    /// The character the glyph belongs to.
    pub chr: char,
    /// The rasterized glyph, or `None` when the font has no glyph for the
    /// character.
    pub glyph: Option<RenderedGlyph>,
}

/// A rasterized glyph: its greyscale bitmap, sized to the glyph's tight
/// pixel bounding box, and its advance metrics.
pub struct RenderedGlyph {
    /// The glyph's pixels.
    pub bitmap: Bitmap,
    /// Pen movement to apply after drawing the glyph.
    pub post_draw_advance: (i32, i32),
    /// Pen movement to apply before drawing the glyph.
    pub pre_draw_advance: (i32, i32),
}

/// The map described by a sequence of entries keyed by their `chr` field;
/// later entries overwrite earlier ones.
spec fn entries_map(s: Seq<CharInfo>) -> Map<char, CharInfo>
    decreases s.len(),
{
    if s.len() == 0 {
        Map::empty()
    } else {
        entries_map(s.drop_last()).insert(s.last().chr, s.last())
    }
}

/// No two entries share a character.
spec fn unique_chrs(s: Seq<CharInfo>) -> bool {
    forall|k1: int, k2: int|
        0 <= k1 < k2 < s.len() ==> (#[trigger] s[k1]).chr != (#[trigger] s[k2]).chr
}

/// A character is in the entries' map exactly when some entry carries it.
proof fn lemma_entries_map_domain(s: Seq<CharInfo>, c: char)
    ensures
        entries_map(s).contains_key(c) <==> exists|k: int|
            0 <= k < s.len() && (#[trigger] s[k]).chr == c,
    decreases s.len(),
{
    if s.len() > 0 {
        lemma_entries_map_domain(s.drop_last(), c);
        if s.last().chr == c {
            assert(s[s.len() - 1].chr == c);
        } else if entries_map(s).contains_key(c) {
            let k = choose|k: int| 0 <= k < s.len() - 1 && (#[trigger] s.drop_last()[k]).chr == c;
            assert(s[k].chr == c);
        } else {
            if exists|k: int| 0 <= k < s.len() && (#[trigger] s[k]).chr == c {
                let k = choose|k: int| 0 <= k < s.len() && (#[trigger] s[k]).chr == c;
                assert(s.drop_last()[k].chr == c);
            }
        }
    }
}

/// With unique characters, the map sends each entry's character to that
/// entry.
proof fn lemma_entries_map_at(s: Seq<CharInfo>, k: int)
    requires
        unique_chrs(s),
        0 <= k < s.len(),
    ensures
        entries_map(s).contains_key(s[k].chr),
        entries_map(s)[s[k].chr] == s[k],
    decreases s.len(),
{
    lemma_entries_map_domain(s, s[k].chr);
    if k < s.len() - 1 {
        assert(unique_chrs(s.drop_last()));
        assert(s.drop_last()[k] == s[k]);
        lemma_entries_map_at(s.drop_last(), k);
        assert(s[k].chr != s.last().chr);
    }
}

/// Replacing the entry that carries a character updates the map at that
/// character alone.
proof fn lemma_entries_map_update(s: Seq<CharInfo>, k: int, v: CharInfo)
    requires
        unique_chrs(s),
        0 <= k < s.len(),
        s[k].chr == v.chr,
    ensures
        entries_map(s.update(k, v)) =~= entries_map(s).insert(v.chr, v),
    decreases s.len(),
{
    let t = s.update(k, v);
    if k == s.len() - 1 {
        assert(t.drop_last() =~= s.drop_last());
        assert(t.last() == v);
    } else {
        assert(t.drop_last() =~= s.drop_last().update(k, v));
        assert(unique_chrs(s.drop_last()));
        assert(s.drop_last()[k] == s[k]);
        lemma_entries_map_update(s.drop_last(), k, v);
        assert(t.last() == s.last());
        assert(s[k].chr != s.last().chr);
        assert(entries_map(t) =~= entries_map(s).insert(v.chr, v));
    }
}

/// A mapping from chars to [`CharInfo`], built once by the packing
/// algorithm and read-only thereafter.
pub struct Atlas {
    char_info: Vec<CharInfo>,
}

impl View for Atlas {
    type V = Map<char, CharInfo>;

    closed spec fn view(&self) -> Map<char, CharInfo> {
        entries_map(self.char_info@)
    }
}

impl Atlas {
    /// Each character appears in at most one entry.
    pub closed spec fn wf(self) -> bool {
        unique_chrs(self.char_info@)
    }

    /// An empty atlas.
    pub fn empty() -> (r: Atlas)
        ensures
            r.wf(),
            r@ == Map::<char, CharInfo>::empty(),
    {
        Atlas { char_info: Vec::new() }
    }

    /// Insert an entry under its own character, overwriting any entry the
    /// character already had.
    pub fn upsert(&mut self, info: CharInfo)
        requires
            old(self).wf(),
        ensures
            final(self).wf(),
            final(self)@ == old(self)@.insert(info.chr, info),
    {
        let ghost s = self.char_info@;
        let n: usize = self.char_info.len();
        let mut i: usize = 0;
        while i < n
            invariant
                s == self.char_info@,
                s == old(self).char_info@,
                unique_chrs(s),
                n == s.len(),
                i <= n,
                forall|k: int| 0 <= k < i ==> (#[trigger] s[k]).chr != info.chr,
            decreases n - i,
        {
            if self.char_info[i].chr == info.chr {
                self.char_info.set(i, info);
                proof {
                    lemma_entries_map_update(s, i as int, info);
                    assert(self.char_info@ == s.update(i as int, info));
                    assert(entries_map(self.char_info@) =~= entries_map(s).insert(
                        info.chr,
                        info,
                    ));
                }
                return ;
            }
            i = i + 1;
        }
        self.char_info.push(info);
        proof {
            assert(self.char_info@.drop_last() =~= s);
        }
    }

    /// Returns the information about a rendered character if one exists.
    pub fn info(&self, c: char) -> (r: Option<CharInfo>)
        requires
            self.wf(),
        ensures
            r == (if self@.contains_key(c) {
                Some(self@[c])
            } else {
                None::<CharInfo>
            }),
    {
        let ghost s = self.char_info@;
        let n: usize = self.char_info.len();
        let mut i: usize = 0;
        while i < n
            invariant
                s == self.char_info@,
                unique_chrs(s),
                n == s.len(),
                i <= n,
                forall|k: int| 0 <= k < i ==> (#[trigger] s[k]).chr != c,
            decreases n - i,
        {
            if self.char_info[i].chr == c {
                proof {
                    lemma_entries_map_at(s, i as int);
                }
                return Some(self.char_info[i]);
            }
            i = i + 1;
        }
        proof {
            lemma_entries_map_domain(s, c);
        }
        None
    }

    /// The atlas maps each character to an entry that carries it.
    pub proof fn lemma_key_chr(self, c: char)
        ensures
            self@.contains_key(c) ==> self@[c].chr == c,
    {
        lemma_entries_map_key(self.char_info@, c);
    }

    /// The number of characters in the atlas.
    pub fn len(&self) -> (r: usize)
        requires
            self.wf(),
        ensures
            r == self@.dom().len(),
    {
        proof {
            lemma_entries_len(self.char_info@);
        }
        self.char_info.len()
    }
}

/// A bitmap's pixels read the same through the buffer capability as
/// through its own grid model.
proof fn lemma_buffer_pixels(b: Bitmap)
    ensures
        forall|x: int, y: int| #[trigger] <Bitmap as Buffer2d>::pixel(b, x, y) == b.pixel(x, y),
{
}

/// The glyphs a rendered character set provides, keyed by character;
/// characters the rasterizer had no glyph for are absent, and a later
/// duplicate overwrites an earlier one.
pub open spec fn glyph_map(s: Seq<RenderedChar>) -> Map<char, RenderedGlyph>
    decreases s.len(),
{
    if s.len() == 0 {
        Map::empty()
    } else if s.last().glyph is Some {
        glyph_map(s.drop_last()).insert(s.last().chr, s.last().glyph->0)
    } else {
        glyph_map(s.drop_last())
    }
}

/// Every rasterized glyph in the set is well formed, at least one pixel
/// each way, and leaves room for a margin of `m` on each side.
pub open spec fn glyphs_ok(s: Seq<RenderedChar>, m: u32) -> bool {
    forall|k: int|
        0 <= k < s.len() && (#[trigger] s[k]).glyph is Some ==> {
            let b = s[k].glyph->0.bitmap;
            &&& b.wf()
            &&& 1 <= b.spec_width()
            &&& 1 <= b.spec_height()
            &&& b.spec_width() + 2 * m <= u32::MAX
            &&& b.spec_height() + 2 * m <= u32::MAX
        }
}

/// Every rasterized glyph of the set, expanded by a margin of `m` on each
/// side, fits within a `w x h` buffer on its own.
pub open spec fn glyphs_fit(s: Seq<RenderedChar>, m: u32, w: int, h: int) -> bool {
    forall|k: int|
        0 <= k < s.len() && (#[trigger] s[k]).glyph is Some ==> s[k].glyph->0.bitmap.spec_width()
            + 2 * m <= w && s[k].glyph->0.bitmap.spec_height() + 2 * m <= h
}

/// Within the first `upto` characters of the set, `k0` is the first with
/// a glyph, no later glyph reuses its character, and its expanded glyph
/// fits a `w x h` buffer: its placement is then pinned to the corner.
pub open spec fn first_glyph_pinned(
    s: Seq<RenderedChar>,
    k0: int,
    upto: int,
    m: u32,
    w: int,
    h: int,
) -> bool {
    &&& 0 <= k0 < upto <= s.len()
    &&& s[k0].glyph is Some
    &&& forall|j: int| 0 <= j < k0 ==> !((#[trigger] s[j]).glyph is Some)
    &&& forall|j: int|
        k0 < j < upto && (#[trigger] s[j]).glyph is Some ==> s[j].chr != s[k0].chr
    &&& s[k0].glyph->0.bitmap.spec_width() + 2 * m <= w
    &&& s[k0].glyph->0.bitmap.spec_height() + 2 * m <= h
}

/// The region a placed rectangle reserves: the rectangle grown by the
/// margin on every side.
pub open spec fn expand_by_margin(r: Rect, m: u32) -> Rect {
    Rect { x: (r.x - m) as u32, y: (r.y - m) as u32, w: (r.w + 2 * m) as u32, h: (r.h + 2 * m) as u32 }
}

/// Creates an atlas for a set of rendered characters.
///
/// `margin` is the distance kept between characters in pixels. `width` and
/// `height` denote the starting size of the bitmap; the resulting bitmap
/// may be larger in order to fit all of the characters, and never smaller.
/// Characters whose glyph is `None` are skipped: they are simply absent
/// from the atlas. Fails only when the atlas would outgrow `u32::MAX`
/// pixels in a dimension or `usize::MAX` pixels in all; success is
/// guaranteed whenever each expanded glyph fits the starting size on its
/// own and one doubling per character stays representable. The first
/// character with a glyph, if no later glyph reuses its character and its
/// expanded glyph fits the starting size, lands exactly at the margin
/// corner.
pub fn make_atlas(glyphs: &Vec<RenderedChar>, margin: u32, width: usize, height: usize) -> (res:
    Result<(Atlas, Bitmap), NoFit>)
    requires
        1 <= width <= u32::MAX,
        1 <= height <= u32::MAX,
        width * height <= usize::MAX,
        glyphs_ok(glyphs@, margin),
    ensures
        glyphs@.len() == 0 ==> res is Ok,
        (glyphs_fit(glyphs@, margin, width as int, height as int) && growth_ok(
            width as int,
            height as int,
            glyphs@.len(),
        )) ==> res is Ok,
        (glyphs_fit(glyphs@, margin, width as int, height as int) && glyphs@.len() <= 1) ==> (
        res matches Ok(out) ==> out.1.spec_width() == width && out.1.spec_height() == height),
        match res {
            Ok(out) => {
                let atlas = out.0;
                let bmp = out.1;
                &&& atlas.wf()
                &&& bmp.wf()
                &&& bmp.spec_width() >= width
                &&& bmp.spec_height() >= height
                &&& atlas@.dom() == glyph_map(glyphs@).dom()
                &&& forall|c: char|
                    #[trigger] atlas@.contains_key(c) ==> {
                        let info = atlas@[c];
                        let g = glyph_map(glyphs@)[c];
                        &&& info.chr == c
                        &&& info.pre_draw_advance == g.pre_draw_advance
                        &&& info.post_draw_advance == g.post_draw_advance
                        &&& info.bounding_box.w == g.bitmap.spec_width()
                        &&& info.bounding_box.h == g.bitmap.spec_height()
                        &&& info.bounding_box.x >= margin
                        &&& info.bounding_box.y >= margin
                        &&& info.bounding_box.right() + margin <= bmp.spec_width()
                        &&& info.bounding_box.bottom() + margin <= bmp.spec_height()
                        &&& forall|i: int, j: int|
                            0 <= i < g.bitmap.spec_width() && 0 <= j < g.bitmap.spec_height()
                                ==> bmp.pixel(
                                info.bounding_box.x + i,
                                info.bounding_box.y + j,
                            ) == g.bitmap.pixel(i, j)
                    }
                &&& forall|c1: char, c2: char|
                    atlas@.contains_key(c1) && atlas@.contains_key(c2) && c1 != c2
                        ==> !expand_by_margin((#[trigger] atlas@[c1]).bounding_box, margin).overlaps(
                        expand_by_margin((#[trigger] atlas@[c2]).bounding_box, margin),
                    )
                &&& forall|k0: int|
                    #[trigger] first_glyph_pinned(
                        glyphs@,
                        k0,
                        glyphs@.len() as int,
                        margin,
                        width as int,
                        height as int,
                    ) ==> atlas@.contains_key(glyphs@[k0].chr) && atlas@[
                        glyphs@[k0].chr
                    ].bounding_box == (Rect {
                        x: margin,
                        y: margin,
                        w: glyphs@[k0].glyph->0.bitmap.spec_width() as u32,
                        h: glyphs@[k0].glyph->0.bitmap.spec_height() as u32,
                    })
            },
            Err(_) => true,
        },
{
    let mut atlas = Atlas::empty();
    let mut packer = SkylinePacker::new(Bitmap::new(width, height));
    let ghost fresh = packer;
    packer.set_margin(margin);
    let ghost pk0 = packer;
    proof {
        assert forall|w: int, h: int|
            1 <= w <= width && 0 <= h <= height implies #[trigger] pk0.fits(w, h)
            && pk0.is_lowest_leftmost(0, 0, w, h) by {
            assert(fresh.fits(w, h));
            assert(fresh.is_lowest_leftmost(0, 0, w, h));
            assert(pk0.fits(w, h) == fresh.fits(w, h));
            assert(pk0.is_lowest_leftmost(0, 0, w, h) == fresh.is_lowest_leftmost(0, 0, w, h));
        }
    }
    let mut placed_at: Ghost<Map<char, int>> = Ghost(Map::empty());
    let ghost guar = glyphs_fit(glyphs@, margin, width as int, height as int) && growth_ok(
        width as int,
        height as int,
        glyphs@.len(),
    );
    let n: usize = glyphs.len();
    let mut k: usize = 0;
    while k < n
        invariant
            n == glyphs@.len(),
            k <= n,
            glyphs_ok(glyphs@, margin),
            1 <= width <= u32::MAX,
            1 <= height <= u32::MAX,
            guar == (glyphs_fit(glyphs@, margin, width as int, height as int) && growth_ok(
                width as int,
                height as int,
                glyphs@.len(),
            )),
            guar ==> growth_ok(packer.width(), packer.height(), (n - k) as nat),
            pk0.wf(),
            pk0.spec_margin() == margin,
            pk0.width() == width,
            pk0.height() == height,
            forall|w: int, h: int|
                1 <= w <= width && 0 <= h <= height ==> #[trigger] pk0.fits(w, h)
                    && pk0.is_lowest_leftmost(0, 0, w, h),
            (forall|j: int| 0 <= j < k ==> !((#[trigger] glyphs@[j]).glyph is Some)) ==> packer
                == pk0,
            (glyphs_fit(glyphs@, margin, width as int, height as int) && glyphs@.len() <= 1)
                ==> packer.width() == width && packer.height() == height,
            forall|k0: int|
                #[trigger] first_glyph_pinned(
                    glyphs@,
                    k0,
                    k as int,
                    margin,
                    width as int,
                    height as int,
                ) ==> atlas@.contains_key(glyphs@[k0].chr) && atlas@[glyphs@[k0].chr].bounding_box
                    == (Rect {
                    x: margin,
                    y: margin,
                    w: glyphs@[k0].glyph->0.bitmap.spec_width() as u32,
                    h: glyphs@[k0].glyph->0.bitmap.spec_height() as u32,
                }),
            packer.wf(),
            packer.spec_margin() == margin,
            packer.width() >= width,
            packer.height() >= height,
            atlas.wf(),
            atlas@.dom() == glyph_map(glyphs@.take(k as int)).dom(),
            placed_at@.dom() == atlas@.dom(),
            forall|c1: char, c2: char|
                atlas@.contains_key(c1) && atlas@.contains_key(c2) && c1 != c2 ==> #[trigger] placed_at@[c1]
                    != #[trigger] placed_at@[c2],
            forall|c: char|
                #[trigger] atlas@.contains_key(c) ==> {
                    let info = atlas@[c];
                    let g = glyph_map(glyphs@.take(k as int))[c];
                    &&& 0 <= placed_at@[c] < packer.placements().len()
                    &&& packer.placements()[placed_at@[c]] == expand_by_margin(
                        info.bounding_box,
                        margin,
                    )
                    &&& info.chr == c
                    &&& info.pre_draw_advance == g.pre_draw_advance
                    &&& info.post_draw_advance == g.post_draw_advance
                    &&& info.bounding_box.w == g.bitmap.spec_width()
                    &&& info.bounding_box.h == g.bitmap.spec_height()
                    &&& info.bounding_box.x >= margin
                    &&& info.bounding_box.y >= margin
                    &&& info.bounding_box.right() + margin <= packer.width()
                    &&& info.bounding_box.bottom() + margin <= packer.height()
                    &&& forall|i: int, j: int|
                        0 <= i < g.bitmap.spec_width() && 0 <= j < g.bitmap.spec_height()
                            ==> packer.buffer().pixel(
                            info.bounding_box.x + i,
                            info.bounding_box.y + j,
                        ) == g.bitmap.pixel(i, j)
                },
        decreases n - k,
    {
        let ghost pre_map = glyph_map(glyphs@.take(k as int));
        proof {
            assert(glyphs@.take(k as int + 1).drop_last() =~= glyphs@.take(k as int));
            assert(glyphs@.take(k as int + 1).last() == glyphs@[k as int]);
        }
        match &glyphs[k].glyph {
            None => {
                proof {
                    if guar {
                        lemma_growth_ok_step(packer.width(), packer.height(), (n - k) as nat);
                    }
                    assert forall|k0: int|
                        #[trigger] first_glyph_pinned(
                            glyphs@,
                            k0,
                            k as int + 1,
                            margin,
                            width as int,
                            height as int,
                        ) implies atlas@.contains_key(glyphs@[k0].chr) && atlas@[
                        glyphs@[k0].chr
                    ].bounding_box == (Rect {
                        x: margin,
                        y: margin,
                        w: glyphs@[k0].glyph->0.bitmap.spec_width() as u32,
                        h: glyphs@[k0].glyph->0.bitmap.spec_height() as u32,
                    }) by {
                        assert(first_glyph_pinned(
                            glyphs@,
                            k0,
                            k as int,
                            margin,
                            width as int,
                            height as int,
                        ));
                    }
                }
            },
            Some(g) => {
                let ghost pre_packer = packer;
                proof {
                    if guar {
                        assert(glyphs@[k as int].glyph is Some);
                        assert(g.bitmap.spec_width() + 2 * margin <= width);
                        assert(g.bitmap.spec_height() + 2 * margin <= height);
                    }
                }
                match packer.pack_resize(&g.bitmap) {
                    Err(e) => {
                        proof {
                            if guar {
                                assert(false);
                            }
                        }
                        return Err(e);
                    },
                    Ok(r) => {
                        proof {
                            if guar {
                                lemma_growth_ok_mono(
                                    packer.width(),
                                    packer.height(),
                                    2 * pre_packer.width(),
                                    2 * pre_packer.height(),
                                    (n - k - 1) as nat,
                                );
                            }
                        }
                        let c = glyphs[k].chr;
                        let info = CharInfo {
                            chr: c,
                            bounding_box: r,
                            pre_draw_advance: g.pre_draw_advance,
                            post_draw_advance: g.post_draw_advance,
                        };
                        proof {
                            assert(packer.placements() == pre_packer.placements().push(
                                expand_by_margin(r, margin),
                            ));
                        }
                        let ghost pre_atlas = atlas@;
                        let ghost pre_placed = placed_at@;
                        atlas.upsert(info);
                        placed_at = Ghost(
                            placed_at@.insert(c, packer.placements().len() - 1),
                        );
                        proof {
                            let cur = glyph_map(glyphs@.take(k as int + 1));
                            assert(cur =~= pre_map.insert(c, glyphs@[k as int].glyph->0));
                            assert(atlas@.dom() =~= cur.dom());
                            assert(placed_at@.dom() =~= atlas@.dom());
                            let pl = packer.placements();
                            let e = expand_by_margin(r, margin);
                            assert(pl[pl.len() - 1] == e);
                            assert forall|c1: char, c2: char|
                                atlas@.contains_key(c1) && atlas@.contains_key(c2) && c1
                                    != c2 implies #[trigger] placed_at@[c1]
                                != #[trigger] placed_at@[c2] by {}
                            assert forall|cc: char| #[trigger] atlas@.contains_key(cc) implies {
                                let ninfo = atlas@[cc];
                                let gg = cur[cc];
                                &&& 0 <= placed_at@[cc] < pl.len()
                                &&& pl[placed_at@[cc]] == expand_by_margin(
                                    ninfo.bounding_box,
                                    margin,
                                )
                                &&& ninfo.chr == cc
                                &&& ninfo.pre_draw_advance == gg.pre_draw_advance
                                &&& ninfo.post_draw_advance == gg.post_draw_advance
                                &&& ninfo.bounding_box.w == gg.bitmap.spec_width()
                                &&& ninfo.bounding_box.h == gg.bitmap.spec_height()
                                &&& ninfo.bounding_box.x >= margin
                                &&& ninfo.bounding_box.y >= margin
                                &&& ninfo.bounding_box.right() + margin <= packer.width()
                                &&& ninfo.bounding_box.bottom() + margin <= packer.height()
                                &&& forall|i: int, j: int|
                                    0 <= i < gg.bitmap.spec_width() && 0 <= j
                                        < gg.bitmap.spec_height() ==> packer.buffer().pixel(
                                        ninfo.bounding_box.x + i,
                                        ninfo.bounding_box.y + j,
                                    ) == gg.bitmap.pixel(i, j)
                            } by {
                                if cc == c {
                                    lemma_buffer_pixels(packer.buffer());
                                    assert(atlas@[cc] == info);
                                    assert(cur[cc] == glyphs@[k as int].glyph->0);
                                    assert forall|i: int, j: int|
                                        0 <= i < cur[cc].bitmap.spec_width() && 0 <= j < cur[
                                            cc
                                        ].bitmap.spec_height() implies packer.buffer().pixel(
                                        info.bounding_box.x + i,
                                        info.bounding_box.y + j,
                                    ) == cur[cc].bitmap.pixel(i, j) by {
                                        let through_trait = <Bitmap as Buffer2d>::pixel(
                                            packer.buffer(),
                                            info.bounding_box.x + i,
                                            info.bounding_box.y + j,
                                        );
                                    }
                                } else {
                                    assert(pre_atlas.contains_key(cc));
                                    assert(atlas@[cc] == pre_atlas[cc]);
                                    assert(cur[cc] == pre_map[cc]);
                                    assert(placed_at@[cc] == pre_placed[cc]);
                                    pre_packer.lemma_dims();
                                    packer.lemma_dims();
                                    let ninfo = atlas@[cc];
                                    let gg = cur[cc];
                                    let bb = ninfo.bounding_box;
                                    assert(ninfo.bounding_box.x >= margin);
                                    assert(ninfo.bounding_box.y >= margin);
                                    assert(ninfo.bounding_box.right() + margin
                                        <= pre_packer.width());
                                    assert(placed_at@[cc] < pl.len() - 1);
                                    assert(pl[placed_at@[cc]] == expand_by_margin(bb, margin));
                                    assert forall|i: int, j: int|
                                        0 <= i < gg.bitmap.spec_width() && 0 <= j
                                            < gg.bitmap.spec_height() implies packer.buffer().pixel(
                                        bb.x + i,
                                        bb.y + j,
                                    ) == gg.bitmap.pixel(i, j) by {
                                        lemma_buffer_pixels(pre_packer.buffer());
                                        lemma_buffer_pixels(packer.buffer());
                                        let xx = bb.x + i;
                                        let yy = bb.y + j;
                                        let after = <Bitmap as Buffer2d>::pixel(
                                            packer.buffer(),
                                            xx,
                                            yy,
                                        );
                                        let before = <Bitmap as Buffer2d>::pixel(
                                            pre_packer.buffer(),
                                            xx,
                                            yy,
                                        );
                                        assert(0 <= xx < pre_packer.width() && 0 <= yy
                                            < pre_packer.height());
                                        if r.x <= xx < r.x + r.w && r.y <= yy < r.y + r.h {
                                            let eb = expand_by_margin(bb, margin);
                                            assert(eb.x <= xx < eb.right());
                                            assert(eb.y <= yy < eb.bottom());
                                            assert(e.x <= xx < e.right());
                                            assert(e.y <= yy < e.bottom());
                                            assert(eb.overlaps(e));
                                            packer.lemma_no_overlap(
                                                placed_at@[cc],
                                                pl.len() - 1,
                                            );
                                            assert(false);
                                        }
                                    }
                                }
                            }
                            assert forall|k0: int|
                                #[trigger] first_glyph_pinned(
                                    glyphs@,
                                    k0,
                                    k as int + 1,
                                    margin,
                                    width as int,
                                    height as int,
                                ) implies atlas@.contains_key(glyphs@[k0].chr) && atlas@[
                                glyphs@[k0].chr
                            ].bounding_box == (Rect {
                                x: margin,
                                y: margin,
                                w: glyphs@[k0].glyph->0.bitmap.spec_width() as u32,
                                h: glyphs@[k0].glyph->0.bitmap.spec_height() as u32,
                            }) by {
                                if k0 == k as int {
                                    assert(pre_packer == pk0);
                                    let bw = glyphs@[k0].glyph->0.bitmap.spec_width();
                                    let bh = glyphs@[k0].glyph->0.bitmap.spec_height();
                                    let wexp = bw + 2 * margin;
                                    let hexp = bh + 2 * margin;
                                    assert((glyphs@[k0]).glyph is Some);
                                    assert(bw >= 1 && bh >= 1);
                                    assert(1 <= wexp <= width && 0 <= hexp <= height);
                                    assert(pk0.fits(wexp, hexp));
                                    assert(pk0.is_lowest_leftmost(0, 0, wexp, hexp));
                                    pk0.lemma_lowest_leftmost_unique(
                                        r.x - margin,
                                        r.y - margin,
                                        0,
                                        0,
                                        wexp,
                                        hexp,
                                    );
                                    assert(atlas@[c] == info);
                                } else {
                                    assert(glyphs@[k as int].chr != glyphs@[k0].chr);
                                    assert(first_glyph_pinned(
                                        glyphs@,
                                        k0,
                                        k as int,
                                        margin,
                                        width as int,
                                        height as int,
                                    ));
                                    assert(pre_atlas.contains_key(glyphs@[k0].chr));
                                    assert(atlas@[glyphs@[k0].chr] == pre_atlas[
                                        glyphs@[k0].chr
                                    ]);
                                }
                            }
                        }
                    },
                }
            },
        }
        k = k + 1;
        proof {
            assert(glyphs@.take(k as int) == glyphs@.take(k as int));
        }
    }
    proof {
        packer.lemma_dims();
        lemma_buffer_pixels(packer.buffer());
        assert(glyphs@.take(n as int) =~= glyphs@);
        assert forall|c1: char, c2: char|
            atlas@.contains_key(c1) && atlas@.contains_key(c2) && c1 != c2 implies !expand_by_margin(
            (#[trigger] atlas@[c1]).bounding_box,
            margin,
        ).overlaps(expand_by_margin((#[trigger] atlas@[c2]).bounding_box, margin)) by {
            packer.lemma_no_overlap(placed_at@[c1], placed_at@[c2]);
        }
    }
    Ok((atlas, packer.into_buf()))
}

/// Every value of an entries' map carries its own key.
proof fn lemma_entries_map_key(s: Seq<CharInfo>, c: char)
    ensures
        entries_map(s).contains_key(c) ==> entries_map(s)[c].chr == c,
    decreases s.len(),
{
    if s.len() > 0 {
        lemma_entries_map_key(s.drop_last(), c);
    }
}

/// With unique characters the map holds exactly one key per entry.
proof fn lemma_entries_len(s: Seq<CharInfo>)
    requires
        unique_chrs(s),
    ensures
        entries_map(s).dom().len() == s.len(),
        entries_map(s).dom().finite(),
    decreases s.len(),
{
    if s.len() > 0 {
        assert(unique_chrs(s.drop_last()));
        lemma_entries_len(s.drop_last());
        lemma_entries_map_domain(s.drop_last(), s.last().chr);
        assert(!entries_map(s.drop_last()).contains_key(s.last().chr));
    }
}

} // verus!
