//! The face-cache layer: a stateful cache around one baked atlas bitmap.
//! It looks up pre-baked characters, records characters prepared after the
//! bake in a side table, and generates draw commands for character runs.

use vstd::prelude::*;

use crate::atlas::Atlas;
use crate::atlas::CharInfo;
use crate::rect::Rect;

verus! {

/// The map described by a sequence of key-value pairs; later pairs
/// overwrite earlier ones.
spec fn pair_map<V>(s: Seq<(char, V)>) -> Map<char, V>
    decreases s.len(),
{
    if s.len() == 0 {
        Map::empty()
    } else {
        pair_map(s.drop_last()).insert(s.last().0, s.last().1)
    }
}

/// No two pairs share a key.
spec fn unique_keys<V>(s: Seq<(char, V)>) -> bool {
    forall|k1: int, k2: int|
        0 <= k1 < k2 < s.len() ==> (#[trigger] s[k1]).0 != (#[trigger] s[k2]).0
}

/// A key is in the pairs' map exactly when some pair carries it.
proof fn lemma_pair_map_domain<V>(s: Seq<(char, V)>, c: char)
    ensures
        pair_map(s).contains_key(c) <==> exists|k: int|
            0 <= k < s.len() && (#[trigger] s[k]).0 == c,
    decreases s.len(),
{
    if s.len() > 0 {
        lemma_pair_map_domain(s.drop_last(), c);
        if s.last().0 == c {
            assert(s[s.len() - 1].0 == c);
        } else if pair_map(s).contains_key(c) {
            let k = choose|k: int| 0 <= k < s.len() - 1 && (#[trigger] s.drop_last()[k]).0 == c;
            assert(s[k].0 == c);
        } else {
            if exists|k: int| 0 <= k < s.len() && (#[trigger] s[k]).0 == c {
                let k = choose|k: int| 0 <= k < s.len() && (#[trigger] s[k]).0 == c;
                assert(s.drop_last()[k].0 == c);
            }
        }
    }
}

/// With unique keys, the map sends each pair's key to that pair's value.
proof fn lemma_pair_map_at<V>(s: Seq<(char, V)>, k: int)
    requires
        unique_keys(s),
        0 <= k < s.len(),
    ensures
        pair_map(s).contains_key(s[k].0),
        pair_map(s)[s[k].0] == s[k].1,
    decreases s.len(),
{
    lemma_pair_map_domain(s, s[k].0);
    if k < s.len() - 1 {
        assert(unique_keys(s.drop_last()));
        assert(s.drop_last()[k] == s[k]);
        lemma_pair_map_at(s.drop_last(), k);
        assert(s[k].0 != s.last().0);
    }
}

/// One drawing instruction: blit `bitmap_location` out of `bitmap` with
/// the pen at `draw_location` (in the host's pen units).
pub struct DrawCommand<'a, T> {
    /// The bitmap holding the character's pixels: the baked atlas bitmap,
    /// or the character's own bitmap when it was prepared after the bake.
    pub bitmap: &'a T,
    /// Where the character's pixels lie inside `bitmap`.
    pub bitmap_location: Rect,
    /// The pen position at which to draw.
    pub draw_location: (i64, i64),
}

/// The running pen x after applying the first `k` pre-draw advances.
pub open spec fn pen_x(infos: Seq<CharInfo>, k: int) -> int
    decreases k,
{
    if k <= 0 {
        0
    } else {
        pen_x(infos, k - 1) + infos[k - 1].pre_draw_advance.0
    }
}

/// The running pen y after applying the first `k` pre-draw advances.
pub open spec fn pen_y(infos: Seq<CharInfo>, k: int) -> int
    decreases k,
{
    if k <= 0 {
        0
    } else {
        pen_y(infos, k - 1) + infos[k - 1].pre_draw_advance.1
    }
}

/// The pen sums look only at the first `k` entries.
proof fn lemma_pen_prefix(s: Seq<CharInfo>, t: Seq<CharInfo>, k: int)
    requires
        k <= s.len(),
        k <= t.len(),
        forall|i: int| 0 <= i < k ==> s[i] == t[i],
    ensures
        pen_x(s, k) == pen_x(t, k),
        pen_y(s, k) == pen_y(t, k),
    decreases k,
{
    if k > 0 {
        lemma_pen_prefix(s, t, k - 1);
    }
}

/// A stateful cache around one baked atlas: the atlas bitmap in the
/// host's representation `T`, the baked [`Atlas`], and the side tables for
/// characters prepared after the bake. `missing` records every character
/// prepared since the bake, with `None` for characters the font has no
/// glyph for; `missing_info` holds the layout metrics of the drawable
/// ones.
pub struct FaceCache<T> {
    bitmap: T,
    atlas: Atlas,
    missing: Vec<(char, Option<T>)>,
    missing_info: Atlas,
}

impl<T> FaceCache<T> {
    /// The baked atlas's character map.
    pub closed spec fn atlas_map(self) -> Map<char, CharInfo> {
        self.atlas@
    }

    /// The side table of characters prepared since the bake: `None` marks
    /// a character the font has no glyph for.
    pub closed spec fn missing_map(self) -> Map<char, Option<T>> {
        pair_map(self.missing@)
    }

    /// The layout metrics of the drawable characters prepared since the
    /// bake.
    pub closed spec fn missing_info_map(self) -> Map<char, CharInfo> {
        self.missing_info@
    }

    /// The baked atlas bitmap, in the host's representation.
    pub closed spec fn baked(self) -> T {
        self.bitmap
    }

    /// A character has been prepared: it is baked into the atlas, or it
    /// went through preparation since (drawable or not).
    pub open spec fn is_prepared_spec(self, c: char) -> bool {
        self.atlas_map().contains_key(c) || self.missing_map().contains_key(c)
    }

    /// The layout metrics a character would be drawn with: the baked
    /// atlas's first, else the side table's, else nothing.
    pub open spec fn info_of(self, c: char) -> Option<CharInfo> {
        if self.atlas_map().contains_key(c) {
            Some(self.atlas_map()[c])
        } else if self.missing_info_map().contains_key(c) {
            Some(self.missing_info_map()[c])
        } else {
            None
        }
    }

    /// The internal invariant. The baked atlas and the side table are
    /// disjoint, and the metrics table holds exactly the drawable side
    /// entries.
    pub closed spec fn wf(self) -> bool {
        &&& self.atlas.wf()
        &&& self.missing_info.wf()
        &&& unique_keys(self.missing@)
        &&& forall|c: char|
            !(self.atlas_map().contains_key(c) && (#[trigger] self.missing_map().contains_key(c)))
        &&& forall|c: char|
            #[trigger] self.missing_info_map().contains_key(c) <==> (
            self.missing_map().contains_key(c) && self.missing_map()[c] is Some)
        &&& forall|c: char|
            #[trigger] self.missing_info_map().contains_key(c) ==> self.missing_info_map()[c].chr
                == c
    }

    /// Wrap a baked atlas and its transformed bitmap into a cache with
    /// empty side tables.
    pub fn new(bitmap: T, atlas: Atlas) -> (r: FaceCache<T>)
        requires
            atlas.wf(),
        ensures
            r.wf(),
            r.atlas_map() == atlas@,
            r.baked() == bitmap,
            r.missing_map() == Map::<char, Option<T>>::empty(),
            r.missing_info_map() == Map::<char, CharInfo>::empty(),
    {
        FaceCache { bitmap, atlas, missing: Vec::new(), missing_info: Atlas::empty() }
    }

    /// The index of a character's entry in the side table, if any.
    fn missing_index(&self, c: char) -> (r: Option<usize>)
        requires
            self.wf(),
        ensures
            match r {
                Some(i) => i < self.missing@.len() && self.missing@[i as int].0 == c
                    && self.missing_map().contains_key(c) && self.missing_map()[c]
                    == self.missing@[i as int].1,
                None => !self.missing_map().contains_key(c),
            },
    {
        let ghost s = self.missing@;
        let n: usize = self.missing.len();
        let mut i: usize = 0;
        while i < n
            invariant
                s == self.missing@,
                unique_keys(s),
                n == s.len(),
                i <= n,
                forall|k: int| 0 <= k < i ==> (#[trigger] s[k]).0 != c,
            decreases n - i,
        {
            if self.missing[i].0 == c {
                proof {
                    lemma_pair_map_at(s, i as int);
                }
                return Some(i);
            }
            i = i + 1;
        }
        proof {
            lemma_pair_map_domain(s, c);
        }
        None
    }

    /// Whether `c` has been prepared: baked into the atlas, or recorded in
    /// the side table (drawable or not).
    pub fn is_prepared(&self, c: char) -> (r: bool)
        requires
            self.wf(),
        ensures
            r == self.is_prepared_spec(c),
    {
        if self.atlas.info(c).is_some() {
            true
        } else {
            self.missing_index(c).is_some()
        }
    }

    /// Record a character prepared after the bake: its transformed bitmap
    /// and its layout metrics go to the side tables.
    pub fn insert_prepared(&mut self, c: char, info: CharInfo, value: T)
        requires
            old(self).wf(),
            !old(self).is_prepared_spec(c),
            info.chr == c,
        ensures
            final(self).wf(),
            final(self).atlas_map() == old(self).atlas_map(),
            final(self).baked() == old(self).baked(),
            final(self).missing_map() == old(self).missing_map().insert(c, Some(value)),
            final(self).missing_info_map() == old(self).missing_info_map().insert(c, info),
            final(self).is_prepared_spec(c),
    {
        self.missing.push((c, Some(value)));
        self.missing_info.upsert(info);
        proof {
            assert(self.missing@.drop_last() =~= old(self).missing@);
            lemma_pair_map_domain(old(self).missing@, c);
            assert forall|k1: int, k2: int| 0 <= k1 < k2 < self.missing@.len() implies (
            #[trigger] self.missing@[k1]).0 != (#[trigger] self.missing@[k2]).0 by {
                if k2 == self.missing@.len() - 1 {
                    assert(self.missing@[k1] == old(self).missing@[k1]);
                }
            }
            assert(self.missing_map() == old(self).missing_map().insert(c, Some(value)));
            assert(self.missing_info_map() == old(self).missing_info_map().insert(c, info));
            assert forall|cc: char|
                !(self.atlas_map().contains_key(cc) && (
            #[trigger] self.missing_map().contains_key(cc))) by {
                if cc != c {
                    assert(self.missing_map().contains_key(cc)
                        == old(self).missing_map().contains_key(cc));
                }
            }
            assert(self.wf());
        }
    }

    /// Record a character the rasterizer has no glyph for, so that future
    /// preparations short-circuit without invoking the rasterizer again.
    pub fn insert_unsupported(&mut self, c: char)
        requires
            old(self).wf(),
            !old(self).is_prepared_spec(c),
        ensures
            final(self).wf(),
            final(self).atlas_map() == old(self).atlas_map(),
            final(self).baked() == old(self).baked(),
            final(self).missing_map() == old(self).missing_map().insert(c, None),
            final(self).missing_info_map() == old(self).missing_info_map(),
            final(self).is_prepared_spec(c),
    {
        self.missing.push((c, None));
        proof {
            assert(self.missing@.drop_last() =~= old(self).missing@);
            lemma_pair_map_domain(old(self).missing@, c);
            assert forall|k1: int, k2: int| 0 <= k1 < k2 < self.missing@.len() implies (
            #[trigger] self.missing@[k1]).0 != (#[trigger] self.missing@[k2]).0 by {
                if k2 == self.missing@.len() - 1 {
                    assert(self.missing@[k1] == old(self).missing@[k1]);
                }
            }
            assert(self.missing_map() == old(self).missing_map().insert(c, None));
            assert forall|cc: char|
                !(self.atlas_map().contains_key(cc) && (
            #[trigger] self.missing_map().contains_key(cc))) by {
                if cc != c {
                    assert(self.missing_map().contains_key(cc)
                        == old(self).missing_map().contains_key(cc));
                }
            }
            assert forall|cc: char| #[trigger] self.missing_info_map().contains_key(cc) <==> (
            self.missing_map().contains_key(cc) && self.missing_map()[cc] is Some) by {
                if cc == c {
                    assert(!old(self).missing_info_map().contains_key(c));
                    assert(self.missing_map()[c] is None);
                } else {
                    assert(self.missing_map().contains_key(cc)
                        == old(self).missing_map().contains_key(cc));
                    if self.missing_map().contains_key(cc) {
                        assert(self.missing_map()[cc] == old(self).missing_map()[cc]);
                    }
                    assert(old(self).missing_info_map().contains_key(cc) <==> (
                    old(self).missing_map().contains_key(cc) && old(self).missing_map()[cc]
                        is Some));
                }
            }
            assert forall|cc: char| #[trigger] self.missing_info_map().contains_key(
                cc,
            ) implies self.missing_info_map()[cc].chr == cc by {
                assert(old(self).missing_info_map().contains_key(cc));
            }
            assert(self.wf());
        }
    }

    /// The characters of a run that still need preparation, in the order
    /// of their first occurrence, each once.
    pub open spec fn to_prepare(self, chars: Seq<char>) -> Seq<char>
        decreases chars.len(),
    {
        if chars.len() == 0 {
            Seq::empty()
        } else {
            let rest = self.to_prepare(chars.drop_last());
            if !self.is_prepared_spec(chars.last()) && !chars.drop_last().contains(
                chars.last(),
            ) {
                rest.push(chars.last())
            } else {
                rest
            }
        }
    }

    /// The characters of `chars` that still need preparation, each once,
    /// in first-occurrence order. On a cache where every character of
    /// `chars` is already prepared the result is empty: preparation is
    /// idempotent.
    pub fn missing_chars(&self, chars: &Vec<char>) -> (r: Vec<char>)
        requires
            self.wf(),
        ensures
            r@ == self.to_prepare(chars@),
            forall|c: char|
                #[trigger] r@.contains(c) <==> (chars@.contains(c) && !self.is_prepared_spec(c)),
            forall|k1: int, k2: int| 0 <= k1 < k2 < r@.len() ==> r@[k1] != r@[k2],
            (forall|k: int|
                0 <= k < chars@.len() ==> self.is_prepared_spec(#[trigger] chars@[k])) ==> r@
                == Seq::<char>::empty(),
    {
        let n: usize = chars.len();
        let mut out: Vec<char> = Vec::new();
        let mut k: usize = 0;
        while k < n
            invariant
                self.wf(),
                n == chars@.len(),
                k <= n,
                out@ == self.to_prepare(chars@.take(k as int)),
                forall|c: char|
                    #[trigger] out@.contains(c) <==> (chars@.take(k as int).contains(c)
                        && !self.is_prepared_spec(c)),
                forall|k1: int, k2: int| 0 <= k1 < k2 < out@.len() ==> out@[k1] != out@[k2],
            decreases n - k,
        {
            let c = chars[k];
            proof {
                assert(chars@.take(k as int + 1).drop_last() =~= chars@.take(k as int));
                assert(chars@.take(k as int + 1).last() == c);
            }
            let ghost pre_out = out@;
            let needs = !self.is_prepared(c);
            proof {
                if needs {
                    assert(pre_out.contains(c) <==> chars@.take(k as int).contains(c));
                }
            }
            if needs && !contains_char(&out, c) {
                out.push(c);
                proof {
                    assert forall|cc: char| #[trigger] out@.contains(cc) implies (chars@.take(
                        k as int + 1,
                    ).contains(cc) && !self.is_prepared_spec(cc)) by {
                        let i = choose|i: int| 0 <= i < out@.len() && #[trigger] out@[i] == cc;
                        if i == out@.len() - 1 {
                            assert(cc == c);
                            assert(chars@.take(k as int + 1)[k as int] == c);
                        } else {
                            assert(pre_out[i] == cc);
                            assert(pre_out.contains(cc));
                            let j = choose|j: int|
                                0 <= j < chars@.take(k as int).len() && #[trigger] chars@.take(
                                    k as int,
                                )[j] == cc;
                            assert(chars@.take(k as int + 1)[j] == cc);
                        }
                    }
                    assert forall|cc: char|
                        chars@.take(k as int + 1).contains(cc) && !self.is_prepared_spec(
                            cc,
                        ) implies #[trigger] out@.contains(cc) by {
                        if cc == c {
                            assert(out@[out@.len() - 1] == c);
                        } else {
                            let i = choose|i: int|
                                0 <= i < chars@.take(k as int + 1).len() && #[trigger] chars@.take(
                                    k as int + 1,
                                )[i] == cc;
                            assert(i < k as int);
                            assert(chars@.take(k as int)[i] == cc);
                            assert(chars@.take(k as int).contains(cc));
                            assert(pre_out.contains(cc));
                            let j = choose|j: int|
                                0 <= j < pre_out.len() && #[trigger] pre_out[j] == cc;
                            assert(out@[j] == cc);
                        }
                    }
                }
            } else {
                proof {
                    assert forall|cc: char|
                        chars@.take(k as int + 1).contains(cc) && !self.is_prepared_spec(
                            cc,
                        ) implies #[trigger] out@.contains(cc) by {
                        let i = choose|i: int|
                            0 <= i < chars@.take(k as int + 1).len() && #[trigger] chars@.take(
                                k as int + 1,
                            )[i] == cc;
                        if i < k as int {
                            assert(chars@.take(k as int)[i] == cc);
                            assert(chars@.take(k as int).contains(cc));
                        } else {
                            assert(cc == c);
                        }
                    }
                }
            }
            k = k + 1;
        }
        proof {
            assert(chars@.take(n as int) =~= chars@);
            if forall|k: int| 0 <= k < chars@.len() ==> self.is_prepared_spec(#[trigger] chars@[k]) {
                if out@.len() > 0 {
                    let c = out@[0];
                    assert(out@.contains(c));
                    let i = choose|i: int| 0 <= i < chars@.len() && chars@[i] == c;
                    assert(false);
                }
                assert(out@ =~= Seq::<char>::empty());
            }
        }
        out
    }
}

impl<T> FaceCache<T> {
    /// The layout metrics of the drawable characters of a run, in order:
    /// prepared characters the font has no glyph for contribute nothing.
    pub open spec fn drawn_infos(self, chars: Seq<char>) -> Seq<CharInfo>
        decreases chars.len(),
    {
        if chars.len() == 0 {
            Seq::empty()
        } else {
            let rest = self.drawn_infos(chars.drop_last());
            match self.info_of(chars.last()) {
                Some(info) => rest.push(info),
                None => rest,
            }
        }
    }

    /// Generate one draw command per drawable character of `chars`, in
    /// order. The pen starts at `(0, 0)`; each character first moves the
    /// pen by its `pre_draw_advance` and is then drawn at the pen. (The
    /// `post_draw_advance` is not applied here: callers that need it apply
    /// it themselves after each command.) A prepared character the font
    /// has no glyph for yields no command and moves no pen. Every
    /// character must have been prepared.
    pub fn drawing_commands(&self, chars: &Vec<char>) -> (r: Vec<DrawCommand<T>>)
        requires
            self.wf(),
            forall|k: int| 0 <= k < chars@.len() ==> self.is_prepared_spec(#[trigger] chars@[k]),
            chars@.len() <= u32::MAX,
        ensures
            ({
                let infos = self.drawn_infos(chars@);
                &&& r@.len() == infos.len()
                &&& forall|k: int|
                    0 <= k < infos.len() ==> (#[trigger] r@[k]).bitmap_location == infos[
                        k
                    ].bounding_box
                &&& forall|k: int|
                    0 <= k < infos.len() ==> (#[trigger] r@[k]).draw_location.0 == pen_x(
                        infos,
                        k + 1,
                    ) && r@[k].draw_location.1 == pen_y(infos, k + 1)
                &&& forall|k: int|
                    0 <= k < infos.len() ==> (if self.atlas_map().contains_key(
                        (#[trigger] infos[k]).chr,
                    ) {
                        r@[k].bitmap == &self.baked()
                    } else {
                        self.missing_map().contains_key(infos[k].chr)
                            && self.missing_map()[infos[k].chr] == Some(*r@[k].bitmap)
                    })
            }),
    {
        let n: usize = chars.len();
        let mut out: Vec<DrawCommand<T>> = Vec::new();
        let mut x: i64 = 0;
        let mut y: i64 = 0;
        let ghost infos_all = self.drawn_infos(chars@);
        let mut infos: Ghost<Seq<CharInfo>> = Ghost(Seq::empty());
        let mut k: usize = 0;
        while k < n
            invariant
                self.wf(),
                forall|j: int|
                    0 <= j < chars@.len() ==> self.is_prepared_spec(#[trigger] chars@[j]),
                n == chars@.len(),
                n <= u32::MAX,
                k <= n,
                infos@ == self.drawn_infos(chars@.take(k as int)),
                out@.len() == infos@.len(),
                infos@.len() <= k,
                x == pen_x(infos@, infos@.len() as int),
                y == pen_y(infos@, infos@.len() as int),
                -(infos@.len() as int) * 0x8000_0000 <= x
                    <= (infos@.len() as int) * 0x7fff_ffff,
                -(infos@.len() as int) * 0x8000_0000 <= y
                    <= (infos@.len() as int) * 0x7fff_ffff,
                forall|j: int|
                    0 <= j < infos@.len() ==> (#[trigger] out@[j]).bitmap_location == infos@[
                        j
                    ].bounding_box,
                forall|j: int|
                    0 <= j < infos@.len() ==> (#[trigger] out@[j]).draw_location.0 == pen_x(
                        infos@,
                        j + 1,
                    ) && out@[j].draw_location.1 == pen_y(infos@, j + 1),
                forall|j: int|
                    0 <= j < infos@.len() ==> (if self.atlas_map().contains_key(
                        (#[trigger] infos@[j]).chr,
                    ) {
                        out@[j].bitmap == &self.baked()
                    } else {
                        self.missing_map().contains_key(infos@[j].chr)
                            && self.missing_map()[infos@[j].chr] == Some(*out@[j].bitmap)
                    }),
            decreases n - k,
        {
            let c = chars[k];
            proof {
                assert(chars@.take(k as int + 1).drop_last() =~= chars@.take(k as int));
                assert(chars@.take(k as int + 1).last() == c);
            }
            let ghost pre_infos = infos@;
            match self.atlas.info(c) {
                Some(ci) => {
                    proof {
                        self.atlas.lemma_key_chr(c);
                        lemma_pen_prefix(pre_infos, pre_infos.push(ci), pre_infos.len() as int);
                        assert((ci.pre_draw_advance.0 as int) <= 0x7fff_ffff);
                    }
                    x = x + ci.pre_draw_advance.0 as i64;
                    y = y + ci.pre_draw_advance.1 as i64;
                    out.push(
                        DrawCommand {
                            bitmap: &self.bitmap,
                            bitmap_location: ci.bounding_box,
                            draw_location: (x, y),
                        },
                    );
                    infos = Ghost(pre_infos.push(ci));
                    proof {
                        assert forall|j: int| 0 <= j < infos@.len() implies (
                        #[trigger] out@[j]).draw_location.0 == pen_x(infos@, j + 1) && out@[
                            j
                        ].draw_location.1 == pen_y(infos@, j + 1) by {
                            if j + 1 <= pre_infos.len() {
                                lemma_pen_prefix(pre_infos, infos@, j + 1);
                            }
                        }
                    }
                },
                None => {
                    match self.missing_index(c) {
                        None => {
                            proof {
                                assert(self.is_prepared_spec(c));
                                assert(false);
                            }
                        },
                        Some(i) => {
                            match &self.missing[i].1 {
                                Some(t) => {
                                    proof {
                                        assert(self.missing_map()[c] is Some);
                                        assert(self.missing_info_map().contains_key(c));
                                    }
                                    let ci = match self.missing_info.info(c) {
                                        Some(ci) => ci,
                                        None => {
                                            // unreachable: the side table holds
                                            // metrics for every drawable entry
                                            proof {
                                                assert(false);
                                            }
                                            CharInfo {
                                                chr: c,
                                                bounding_box: Rect { x: 0, y: 0, w: 0, h: 0 },
                                                pre_draw_advance: (0, 0),
                                                post_draw_advance: (0, 0),
                                            }
                                        },
                                    };
                                    proof {
                                        lemma_pen_prefix(
                                            pre_infos,
                                            pre_infos.push(ci),
                                            pre_infos.len() as int,
                                        );
                                    }
                                    x = x + ci.pre_draw_advance.0 as i64;
                                    y = y + ci.pre_draw_advance.1 as i64;
                                    out.push(
                                        DrawCommand {
                                            bitmap: t,
                                            bitmap_location: ci.bounding_box,
                                            draw_location: (x, y),
                                        },
                                    );
                                    infos = Ghost(pre_infos.push(ci));
                                    proof {
                                        assert(infos@.last().chr == c);
                                        assert forall|j: int| 0 <= j < infos@.len() implies (
                                        #[trigger] out@[j]).draw_location.0 == pen_x(
                                            infos@,
                                            j + 1,
                                        ) && out@[j].draw_location.1 == pen_y(infos@, j + 1) by {
                                            if j + 1 <= pre_infos.len() {
                                                lemma_pen_prefix(pre_infos, infos@, j + 1);
                                            }
                                        }
                                    }
                                },
                                None => {
                                    proof {
                                        assert(self.missing_map()[c] is None);
                                        assert(!self.missing_info_map().contains_key(c));
                                        assert(self.info_of(c) is None);
                                    }
                                },
                            }
                        },
                    }
                },
            }
            k = k + 1;
        }
        proof {
            assert(chars@.take(n as int) =~= chars@);
        }
        out
    }

    /// Preparation is idempotent: once every character of a run is
    /// prepared, a second preparation pass over the same run has no
    /// character left to prepare. Since the cache changes only through the
    /// insert operations, which each demand an unprepared character, the
    /// second pass leaves the cache state — and with it the drawing
    /// commands, which are a function of that state alone — exactly as the
    /// first pass left them.
    pub proof fn lemma_preparation_idempotent(self, chars: Seq<char>)
        requires
            self.wf(),
            forall|k: int| 0 <= k < chars.len() ==> self.is_prepared_spec(#[trigger] chars[k]),
        ensures
            self.to_prepare(chars) == Seq::<char>::empty(),
        decreases chars.len(),
    {
        if chars.len() > 0 {
            assert(forall|k: int|
                0 <= k < chars.drop_last().len() ==> self.is_prepared_spec(
                    #[trigger] chars.drop_last()[k],
                ));
            self.lemma_preparation_idempotent(chars.drop_last());
            assert(self.is_prepared_spec(chars[chars.len() - 1]));
        }
    }

    /// The baked atlas and the side table never share a character: a
    /// prepared character lives in exactly one of the two.
    pub proof fn lemma_atlas_missing_disjoint(self, c: char)
        requires
            self.wf(),
        ensures
            !(self.atlas_map().contains_key(c) && self.missing_map().contains_key(c)),
    {
    }

    /// A prepared character the font has no glyph for is drawn with no
    /// layout metrics at all: it yields no draw command, and generating
    /// commands for it is still permitted.
    pub proof fn lemma_unsupported_yields_nothing(self, c: char)
        requires
            self.wf(),
            self.missing_map().contains_key(c),
            self.missing_map()[c] is None,
        ensures
            self.is_prepared_spec(c),
            self.info_of(c) is None,
    {
    }
}

/// Whether a vector of characters holds `c`.
fn contains_char(v: &Vec<char>, c: char) -> (r: bool)
    ensures
        r == v@.contains(c),
{
    let n: usize = v.len();
    let mut i: usize = 0;
    while i < n
        invariant
            n == v@.len(),
            i <= n,
            forall|k: int| 0 <= k < i ==> v@[k] != c,
        decreases n - i,
    {
        if v[i] == c {
            assert(v@[i as int] == c);
            return true;
        }
        i = i + 1;
    }
    false
}

} // verus!
