use font_atlas::Bitmap;
use font_atlas::Rect;
use font_atlas::SkylinePacker;

fn filled(w: usize, h: usize, v: u8) -> Bitmap {
    let mut b = Bitmap::new(w, h);
    for y in 0..h as u32 {
        for x in 0..w as u32 {
            b.set(x, y, v);
        }
    }
    b
}

fn expand(r: &Rect, m: u32) -> Rect {
    Rect::new(r.x - m, r.y - m, r.w + 2 * m, r.h + 2 * m)
}

#[test]
fn single_bitmap_with_margin_goes_to_leading_offset() {
    // a 256x256 buffer with margin 1 and a single 10x10 bitmap: the margin
    // is applied as a leading offset, so the interior lands at (1,1,10,10)
    let mut packer = SkylinePacker::new(Bitmap::new(256, 256));
    packer.set_margin(1);
    let r = packer.pack(&filled(10, 10, 255)).unwrap();
    assert_eq!(r, Rect::new(1, 1, 10, 10));
    // the skyline rose over the reserved span: the next bitmap of the same
    // width starts right of it, at the same line
    let r2 = packer.pack(&filled(10, 10, 255)).unwrap();
    assert_eq!(r2, Rect::new(13, 1, 10, 10));
}

#[test]
fn pack_copies_pixels_into_interior_only() {
    let mut packer = SkylinePacker::new(Bitmap::new(16, 16));
    packer.set_margin(1);
    let r = packer.pack(&filled(2, 2, 9)).unwrap();
    assert_eq!(r, Rect::new(1, 1, 2, 2));
    let buf = packer.into_buf();
    assert_eq!(buf.get(1, 1), Some(9));
    assert_eq!(buf.get(2, 2), Some(9));
    // the margin is consumed but not drawn into
    assert_eq!(buf.get(0, 0), Some(0));
    assert_eq!(buf.get(3, 3), Some(0));
}

#[test]
fn pack_fails_with_no_fit_when_too_large() {
    let mut packer = SkylinePacker::new(Bitmap::new(16, 16));
    assert!(packer.pack(&filled(17, 1, 1)).is_err());
    assert!(packer.pack(&filled(1, 17, 1)).is_err());
    // and still succeeds on what does fit
    assert!(packer.pack(&filled(16, 16, 1)).is_ok());
}

#[test]
fn placements_do_not_overlap_and_stay_in_bounds() {
    let mut packer = SkylinePacker::new(Bitmap::new(64, 64));
    packer.set_margin(2);
    let sizes = [(10, 5), (20, 7), (30, 3), (5, 30), (13, 13), (8, 21)];
    let mut placed: Vec<Rect> = Vec::new();
    for &(w, h) in sizes.iter() {
        let r = packer.pack_resize(&filled(w, h, 77)).unwrap();
        placed.push(r);
    }
    let buf = packer.into_buf();
    for r in placed.iter() {
        // margins included, every reserved region lies within the buffer
        let e = expand(r, 2);
        assert!(e.x + e.w <= buf.width() as u32);
        assert!(e.y + e.h <= buf.height() as u32);
    }
    for i in 0..placed.len() {
        for j in 0..placed.len() {
            if i != j {
                let a = expand(&placed[i], 2);
                let b = expand(&placed[j], 2);
                assert!(!a.intersects(&b));
            }
        }
    }
}

#[test]
fn tie_break_prefers_lowest_then_leftmost() {
    let mut packer = SkylinePacker::new(Bitmap::new(30, 30));
    // three packs fill the top row, leaving three equal lines at y = 6
    assert_eq!(packer.pack(&filled(10, 6, 1)).unwrap(), Rect::new(0, 0, 10, 6));
    assert_eq!(packer.pack(&filled(10, 6, 1)).unwrap(), Rect::new(10, 0, 10, 6));
    assert_eq!(packer.pack(&filled(10, 6, 1)).unwrap(), Rect::new(20, 0, 10, 6));
    // every candidate line now sits at y = 6: the leftmost wins
    let c = packer.pack(&filled(10, 2, 1)).unwrap();
    assert_eq!(c, Rect::new(0, 6, 10, 2));
}

#[test]
fn combined_width_overflow_triggers_one_doubling() {
    // two bitmaps, each 256 tall or less, whose combined width exceeds 256:
    // one resize doubles the buffer (width 512) and the second fits
    let mut packer = SkylinePacker::new(Bitmap::new(256, 256));
    let first = packer.pack_resize(&filled(150, 250, 5)).unwrap();
    assert_eq!(first, Rect::new(0, 0, 150, 250));
    let second = packer.pack_resize(&filled(150, 250, 6)).unwrap();
    // after doubling, the fresh width right of the old edge hosts it at the top
    assert_eq!(second, Rect::new(150, 0, 150, 250));
    let buf = packer.into_buf();
    assert_eq!(buf.width(), 512);
    assert_eq!(buf.height(), 512);
}

#[test]
fn growth_is_monotonic_across_pack_resize_calls() {
    let mut packer = SkylinePacker::new(Bitmap::new(8, 8));
    let mut last_w = 8;
    let mut last_h = 8;
    for i in 0..6 {
        packer.pack_resize(&filled(6, 6, i as u8 + 1)).unwrap();
        let (w, h) = packer.dims();
        assert!(w >= last_w && h >= last_h);
        last_w = w;
        last_h = h;
    }
}

#[test]
fn growth_preserves_packed_content() {
    let mut packer = SkylinePacker::new(Bitmap::new(4, 4));
    let r1 = packer.pack_resize(&filled(3, 3, 42)).unwrap();
    assert_eq!(r1, Rect::new(0, 0, 3, 3));
    // forces growth
    let r2 = packer.pack_resize(&filled(4, 4, 99)).unwrap();
    let buf = packer.into_buf();
    for y in 0..3u32 {
        for x in 0..3u32 {
            assert_eq!(buf.get(x, y), Some(42));
        }
    }
    for y in 0..4u32 {
        for x in 0..4u32 {
            assert_eq!(buf.get(r2.x + x, r2.y + y), Some(99));
        }
    }
}
