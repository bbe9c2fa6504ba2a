use font_atlas::Bitmap;
use font_atlas::Buffer2d;
use font_atlas::ResizeBuffer;

#[test]
fn new_bitmap_is_zeroed() {
    let b = Bitmap::new(4, 3);
    assert_eq!(b.width(), 4);
    assert_eq!(b.height(), 3);
    for y in 0..3u32 {
        for x in 0..4u32 {
            assert_eq!(b.get(x, y), Some(0));
        }
    }
    assert_eq!(b.get(4, 0), None);
    assert_eq!(b.get(0, 3), None);
}

#[test]
fn set_and_get_roundtrip() {
    let mut b = Bitmap::new(5, 5);
    b.set(2, 3, 200);
    assert_eq!(b.get(2, 3), Some(200));
    assert_eq!(b.get(3, 2), Some(0));
    // out-of-bounds writes are ignored
    b.set(9, 9, 255);
    assert_eq!(b.get(9, 9), None);
}

#[test]
fn lines_are_rows_top_to_bottom() {
    let mut b = Bitmap::new(3, 2);
    b.set(0, 0, 1);
    b.set(2, 0, 3);
    b.set(1, 1, 5);
    let rows = b.lines();
    assert_eq!(rows.len(), 2);
    assert_eq!(rows[0], vec![1, 0, 3]);
    assert_eq!(rows[1], vec![0, 5, 0]);
}

#[test]
fn raw_and_into_raw_are_row_major() {
    let mut b = Bitmap::new(2, 2);
    b.set(1, 0, 7);
    b.set(0, 1, 9);
    assert_eq!(b.raw(), &[0, 7, 9, 0]);
    assert_eq!(b.into_raw(), vec![0, 7, 9, 0]);
}

#[test]
fn patch_copies_and_clips() {
    let mut dst = Bitmap::new(4, 4);
    let mut src = Bitmap::new(2, 2);
    src.set(0, 0, 10);
    src.set(1, 1, 20);
    dst.patch(1, 1, &src);
    assert_eq!(dst.get(1, 1), Some(10));
    assert_eq!(dst.get(2, 2), Some(20));
    assert_eq!(dst.get(0, 0), Some(0));
    // a patch landing partly outside is clipped, not wrapped
    let mut dst2 = Bitmap::new(2, 2);
    dst2.patch(1, 1, &src);
    assert_eq!(dst2.get(1, 1), Some(10));
    assert_eq!(dst2.get(0, 0), Some(0));
    assert_eq!(dst2.get(0, 1), Some(0));
}

#[test]
fn resize_preserves_content() {
    // every pixel previously set remains identical after a resize
    let mut b = Bitmap::new(3, 3);
    b.set(0, 0, 11);
    b.set(2, 2, 22);
    b.set(1, 2, 33);
    b.resize(6, 5);
    assert_eq!(b.width(), 6);
    assert_eq!(b.height(), 5);
    assert_eq!(b.get(0, 0), Some(11));
    assert_eq!(b.get(2, 2), Some(22));
    assert_eq!(b.get(1, 2), Some(33));
    // fresh space is zeroed
    assert_eq!(b.get(5, 4), Some(0));
    assert_eq!(b.get(3, 0), Some(0));
}

fn blit_and_measure<B: Buffer2d>(buf: &mut B, stamp: &Bitmap) -> (usize, usize) {
    buf.patch(1, 1, stamp);
    buf.size()
}

#[test]
fn buffer_capabilities_are_usable_generically() {
    let mut target = Bitmap::new(8, 8);
    let mut stamp = Bitmap::new(2, 2);
    stamp.set(0, 0, 50);
    let (w, h) = blit_and_measure(&mut target, &stamp);
    assert_eq!((w, h), (8, 8));
    assert_eq!(target.get(1, 1), Some(50));
    ResizeBuffer::resize(&mut target, 10, 10);
    assert_eq!(target.get(1, 1), Some(50));
    assert_eq!(target.width(), 10);
}
