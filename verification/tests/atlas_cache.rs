use font_atlas::make_atlas;
use font_atlas::Atlas;
use font_atlas::Bitmap;
use font_atlas::CharInfo;
use font_atlas::FaceCache;
use font_atlas::Rect;
use font_atlas::RenderedChar;
use font_atlas::RenderedGlyph;

fn glyph(w: usize, h: usize, v: u8, pre: (i32, i32), post: (i32, i32)) -> RenderedGlyph {
    let mut b = Bitmap::new(w, h);
    for y in 0..h as u32 {
        for x in 0..w as u32 {
            b.set(x, y, v);
        }
    }
    RenderedGlyph { bitmap: b, pre_draw_advance: pre, post_draw_advance: post }
}

#[test]
fn atlas_upsert_and_info() {
    let mut atlas = Atlas::empty();
    assert!(atlas.info('A').is_none());
    let info = CharInfo {
        chr: 'A',
        bounding_box: Rect::new(0, 0, 3, 4),
        pre_draw_advance: (1, 0),
        post_draw_advance: (5, 0),
    };
    atlas.upsert(info);
    assert_eq!(atlas.len(), 1);
    let got = atlas.info('A').unwrap();
    assert_eq!(got.bounding_box, Rect::new(0, 0, 3, 4));
    assert_eq!(got.pre_draw_advance, (1, 0));
    // overwriting the same character keeps one entry
    let replaced = CharInfo { bounding_box: Rect::new(9, 9, 1, 1), ..info };
    atlas.upsert(replaced);
    assert_eq!(atlas.len(), 1);
    assert_eq!(atlas.info('A').unwrap().bounding_box, Rect::new(9, 9, 1, 1));
}

#[test]
fn atlas_from_set_without_one_glyph_holds_only_the_other() {
    // an atlas built from "AB" where the font has no glyph for 'B' holds 'A' alone
    let set = vec![
        RenderedChar { chr: 'A', glyph: Some(glyph(4, 6, 200, (1, 0), (5, 0))) },
        RenderedChar { chr: 'B', glyph: None },
    ];
    let (atlas, bitmap) = make_atlas(&set, 1, 64, 64).unwrap();
    assert!(atlas.info('A').is_some());
    assert!(atlas.info('B').is_none());
    let a = atlas.info('A').unwrap();
    assert_eq!(a.chr, 'A');
    assert_eq!(a.bounding_box, Rect::new(1, 1, 4, 6));
    assert_eq!(a.pre_draw_advance, (1, 0));
    assert_eq!(a.post_draw_advance, (5, 0));
    // the glyph's pixels landed at its bounding box
    for y in 0..6u32 {
        for x in 0..4u32 {
            assert_eq!(bitmap.get(a.bounding_box.x + x, a.bounding_box.y + y), Some(200));
        }
    }
}

#[test]
fn atlas_entries_never_overlap() {
    let set = vec![
        RenderedChar { chr: 'a', glyph: Some(glyph(7, 9, 1, (0, 0), (8, 0))) },
        RenderedChar { chr: 'b', glyph: Some(glyph(12, 4, 2, (0, 0), (13, 0))) },
        RenderedChar { chr: 'c', glyph: Some(glyph(3, 14, 3, (0, 0), (4, 0))) },
        RenderedChar { chr: 'd', glyph: Some(glyph(10, 10, 4, (0, 0), (11, 0))) },
    ];
    let (atlas, bitmap) = make_atlas(&set, 2, 32, 32).unwrap();
    let boxes: Vec<Rect> = ['a', 'b', 'c', 'd']
        .iter()
        .map(|&c| atlas.info(c).unwrap().bounding_box)
        .collect();
    for (i, a) in boxes.iter().enumerate() {
        assert!(a.x + a.w <= bitmap.width() as u32);
        assert!(a.y + a.h <= bitmap.height() as u32);
        for (j, b) in boxes.iter().enumerate() {
            if i != j {
                let ea = Rect::new(a.x - 2, a.y - 2, a.w + 4, a.h + 4);
                let eb = Rect::new(b.x - 2, b.y - 2, b.w + 4, b.h + 4);
                assert!(!ea.intersects(&eb));
            }
        }
    }
}

#[test]
fn empty_character_set_builds_an_empty_atlas() {
    let set: Vec<RenderedChar> = Vec::new();
    let (atlas, bitmap) = make_atlas(&set, 3, 16, 16).unwrap();
    assert!(atlas.info('x').is_none());
    assert_eq!(bitmap.width(), 16);
    assert_eq!(bitmap.height(), 16);
}

#[test]
fn drawing_commands_apply_pre_draw_advance_to_the_pen() {
    // one command for a pre-baked 'A', whose pen reflects 'A''s
    // pre_draw_advance applied to the starting pen (0, 0)
    let set = vec![RenderedChar { chr: 'A', glyph: Some(glyph(4, 6, 255, (3, 2), (7, 0))) }];
    let (atlas, bitmap) = make_atlas(&set, 0, 64, 64).unwrap();
    let cache: FaceCache<Bitmap> = FaceCache::new(bitmap, atlas);
    let cmds = cache.drawing_commands(&vec!['A']);
    assert_eq!(cmds.len(), 1);
    assert_eq!(cmds[0].draw_location, (3, 2));
    assert_eq!(cmds[0].bitmap_location, Rect::new(0, 0, 4, 6));
    // the command's source is the baked atlas bitmap
    assert_eq!(cmds[0].bitmap.get(0, 0), Some(255));
}

#[test]
fn pen_accumulates_across_characters() {
    let set = vec![
        RenderedChar { chr: 'A', glyph: Some(glyph(2, 2, 1, (3, 0), (4, 0))) },
        RenderedChar { chr: 'B', glyph: Some(glyph(2, 2, 2, (5, 1), (6, 0))) },
    ];
    let (atlas, bitmap) = make_atlas(&set, 0, 64, 64).unwrap();
    let cache: FaceCache<Bitmap> = FaceCache::new(bitmap, atlas);
    let cmds = cache.drawing_commands(&vec!['A', 'B', 'A']);
    assert_eq!(cmds.len(), 3);
    assert_eq!(cmds[0].draw_location, (3, 0));
    assert_eq!(cmds[1].draw_location, (8, 1));
    assert_eq!(cmds[2].draw_location, (11, 1));
}

#[test]
fn prepared_characters_live_in_exactly_one_table() {
    let set = vec![RenderedChar { chr: 'A', glyph: Some(glyph(2, 2, 9, (1, 0), (3, 0))) }];
    let (atlas, bitmap) = make_atlas(&set, 0, 32, 32).unwrap();
    let mut cache: FaceCache<Bitmap> = FaceCache::new(bitmap, atlas);
    // 'A' is baked: it needs no preparation
    assert!(cache.is_prepared('A'));
    assert_eq!(cache.missing_chars(&vec!['A']), Vec::<char>::new());
    // 'Z' is not: prepare it as drawable, 'X' as unsupported
    assert!(!cache.is_prepared('Z'));
    let todo = cache.missing_chars(&vec!['Z', 'A', 'X', 'Z']);
    assert_eq!(todo, vec!['Z', 'X']);
    let info = CharInfo {
        chr: 'Z',
        bounding_box: Rect::new(0, 0, 2, 2),
        pre_draw_advance: (1, 0),
        post_draw_advance: (3, 0),
    };
    cache.insert_prepared('Z', info, glyph(2, 2, 7, (1, 0), (3, 0)).bitmap);
    cache.insert_unsupported('X');
    assert!(cache.is_prepared('Z'));
    assert!(cache.is_prepared('X'));
    // a second preparation pass has nothing left to do
    assert_eq!(cache.missing_chars(&vec!['Z', 'A', 'X', 'Z']), Vec::<char>::new());
}

#[test]
fn preparing_twice_changes_nothing() {
    let set = vec![RenderedChar { chr: 'A', glyph: Some(glyph(2, 2, 9, (2, 0), (3, 0))) }];
    let (atlas, bitmap) = make_atlas(&set, 0, 32, 32).unwrap();
    let mut cache: FaceCache<Bitmap> = FaceCache::new(bitmap, atlas);
    let run = vec!['A', 'Q'];
    // first pass prepares 'Q'
    for c in cache.missing_chars(&run) {
        let info = CharInfo {
            chr: c,
            bounding_box: Rect::new(0, 0, 1, 1),
            pre_draw_advance: (4, 0),
            post_draw_advance: (5, 0),
        };
        cache.insert_prepared(c, info, glyph(1, 1, 3, (4, 0), (5, 0)).bitmap);
    }
    let first: Vec<(Rect, (i64, i64))> = cache
        .drawing_commands(&run)
        .iter()
        .map(|c| (c.bitmap_location, c.draw_location))
        .collect();
    // second pass finds nothing to prepare and the commands are identical
    assert_eq!(cache.missing_chars(&run), Vec::<char>::new());
    let second: Vec<(Rect, (i64, i64))> = cache
        .drawing_commands(&run)
        .iter()
        .map(|c| (c.bitmap_location, c.draw_location))
        .collect();
    assert_eq!(first, second);
}

#[test]
fn unsupported_character_yields_no_command_and_no_panic() {
    let set = vec![RenderedChar { chr: 'A', glyph: Some(glyph(2, 2, 9, (2, 1), (3, 0))) }];
    let (atlas, bitmap) = make_atlas(&set, 0, 32, 32).unwrap();
    let mut cache: FaceCache<Bitmap> = FaceCache::new(bitmap, atlas);
    cache.insert_unsupported('X');
    let cmds = cache.drawing_commands(&vec!['X', 'A', 'X']);
    // the unsupported character contributes no command and moves no pen
    assert_eq!(cmds.len(), 1);
    assert_eq!(cmds[0].draw_location, (2, 1));
    // and a run of only unsupported characters draws nothing
    assert_eq!(cache.drawing_commands(&vec!['X', 'X']).len(), 0);
}

#[test]
fn side_table_characters_draw_from_their_own_bitmap() {
    let set = vec![RenderedChar { chr: 'A', glyph: Some(glyph(2, 2, 9, (1, 0), (3, 0))) }];
    let (atlas, bitmap) = make_atlas(&set, 0, 32, 32).unwrap();
    let mut cache: FaceCache<Bitmap> = FaceCache::new(bitmap, atlas);
    let info = CharInfo {
        chr: 'Q',
        bounding_box: Rect::new(0, 0, 1, 1),
        pre_draw_advance: (6, 0),
        post_draw_advance: (7, 0),
    };
    cache.insert_prepared('Q', info, glyph(1, 1, 123, (6, 0), (7, 0)).bitmap);
    let cmds = cache.drawing_commands(&vec!['Q']);
    assert_eq!(cmds.len(), 1);
    // the source bitmap is the character's own, not the atlas
    assert_eq!(cmds[0].bitmap.width(), 1);
    assert_eq!(cmds[0].bitmap.get(0, 0), Some(123));
    assert_eq!(cmds[0].draw_location, (6, 0));
}

#[test]
fn commands_mix_baked_and_side_table_sources() {
    let set = vec![RenderedChar { chr: 'A', glyph: Some(glyph(2, 2, 60, (1, 0), (3, 0))) }];
    let (atlas, bitmap) = make_atlas(&set, 0, 32, 32).unwrap();
    let mut cache: FaceCache<Bitmap> = FaceCache::new(bitmap, atlas);
    let info = CharInfo {
        chr: 'q',
        bounding_box: Rect::new(0, 0, 3, 3),
        pre_draw_advance: (2, 0),
        post_draw_advance: (4, 0),
    };
    cache.insert_prepared('q', info, glyph(3, 3, 90, (2, 0), (4, 0)).bitmap);
    cache.insert_unsupported('!');
    let cmds = cache.drawing_commands(&vec!['A', '!', 'q']);
    assert_eq!(cmds.len(), 2);
    // 'A' draws from the baked atlas bitmap, 'q' from its own
    assert_eq!(cmds[0].draw_location, (1, 0));
    assert_eq!(cmds[0].bitmap.width(), 32);
    assert_eq!(cmds[1].draw_location, (3, 0));
    assert_eq!(cmds[1].bitmap.width(), 3);
    assert_eq!(cmds[1].bitmap.get(0, 0), Some(90));
}
