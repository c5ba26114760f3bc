use image::{Rgba, RgbaImage};
use spriterator::{is_supported_extension, Bitmap, Frame, PackError, Sprite, Spriterator};

fn to_bitmap(img: RgbaImage) -> Bitmap {
    let (w, h) = img.dimensions();
    Bitmap::from_rgba8(w, h, img.into_raw()).expect("buffer of the right size")
}

fn filled(w: u32, h: u32, px: [u8; 4]) -> Bitmap {
    to_bitmap(RgbaImage::from_pixel(w, h, Rgba(px)))
}

fn frame_tuple(f: &Frame) -> (u32, u32, u32, u32) {
    (f.get_x(), f.get_y(), f.get_width(), f.get_height())
}

fn frames_of(s: &Sprite) -> Vec<(u32, u32, u32, u32)> {
    s.get_frames().iter().map(frame_tuple).collect()
}

fn overlap(a: (u32, u32, u32, u32), b: (u32, u32, u32, u32)) -> bool {
    a.0 < b.0 + b.2 && b.0 < a.0 + a.2 && a.1 < b.1 + b.3 && b.1 < a.1 + a.3
}

#[test]
fn three_small_images_share_one_sheet() {
    let sp = Spriterator::new("in", 300, 300, None, None);
    let images = vec![
        filled(100, 100, [255, 0, 0, 255]),
        filled(100, 100, [0, 255, 0, 255]),
        filled(100, 100, [0, 0, 255, 255]),
    ];
    let sheets = sp.generate(images).expect("packs");
    assert_eq!(sheets.len(), 1);
    let frames = frames_of(&sheets[0]);
    assert_eq!(frames, vec![(0, 0, 100, 100), (100, 0, 100, 100), (200, 0, 100, 100)]);
    for a in 0..frames.len() {
        for b in 0..frames.len() {
            if a != b {
                assert!(!overlap(frames[a], frames[b]));
            }
        }
    }
    assert_eq!(sheets[0].get_image().width(), 300);
    assert_eq!(sheets[0].get_image().height(), 100);
}

#[test]
fn three_full_size_images_take_three_sheets() {
    let sp = Spriterator::new("in", 300, 300, None, None);
    let images = vec![
        filled(300, 300, [1, 2, 3, 255]),
        filled(300, 300, [4, 5, 6, 255]),
        filled(300, 300, [7, 8, 9, 255]),
    ];
    let sheets = sp.generate(images).expect("packs");
    assert_eq!(sheets.len(), 3);
    for s in &sheets {
        assert_eq!(frames_of(s), vec![(0, 0, 300, 300)]);
    }
    assert_eq!(sheets[2].get_image().pixel(0, 0), (7, 8, 9, 255));
}

#[test]
fn empty_input_is_an_error() {
    let sp = Spriterator::new("in", 300, 300, None, None);
    assert_eq!(sp.generate(Vec::new()).err(), Some(PackError::EmptyInput));
}

#[test]
fn oversized_image_without_target_is_rejected() {
    let sp = Spriterator::new("in", 500, 500, None, None);
    let images = vec![filled(600, 600, [9, 9, 9, 255])];
    assert_eq!(sp.generate(images).err(), Some(PackError::ImageTooLarge(0, 600, 600)));
}

#[test]
fn first_oversized_image_is_reported() {
    let sp = Spriterator::new("in", 500, 500, None, None);
    let images = vec![
        filled(10, 10, [9, 9, 9, 255]),
        filled(10, 501, [9, 9, 9, 255]),
        filled(600, 10, [9, 9, 9, 255]),
    ];
    assert_eq!(sp.generate(images).err(), Some(PackError::ImageTooLarge(1, 10, 501)));
}

#[test]
fn resized_image_larger_than_sheet_fails_placement() {
    let sp = Spriterator::new("in", 500, 500, Some(600), Some(600));
    let images = vec![filled(10, 10, [9, 9, 9, 255])];
    assert_eq!(sp.generate(images).err(), Some(PackError::PlacementFailure(0)));
}

#[test]
fn aspect_ratio_of_zero_width_image_fails_placement() {
    let sp = Spriterator::new("in", 500, 500, Some(10), None);
    let empty = Bitmap::from_rgba8(0, 5, Vec::new()).expect("empty buffer");
    let images = vec![filled(4, 4, [9, 9, 9, 255]), empty];
    assert_eq!(sp.generate(images).err(), Some(PackError::PlacementFailure(1)));
}

#[test]
fn resize_to_width_keeps_aspect_ratio() {
    let sp = Spriterator::new("in", 100, 100, Some(10), None);
    let resized = sp.resize_image(filled(20, 20, [0, 0, 0, 255]));
    assert_eq!((resized.width(), resized.height()), (10, 10));
    let wide = sp.resize_image(filled(40, 10, [0, 0, 0, 255]));
    assert_eq!((wide.width(), wide.height()), (10, 2));
}

#[test]
fn resize_to_height_keeps_aspect_ratio() {
    let sp = Spriterator::new("in", 100, 100, None, Some(7));
    let resized = sp.resize_image(filled(20, 10, [0, 0, 0, 255]));
    assert_eq!((resized.width(), resized.height()), (14, 7));
}

#[test]
fn resize_to_both_targets_ignores_aspect_ratio() {
    let sp = Spriterator::new("in", 100, 100, Some(3), Some(8));
    let resized = sp.resize_image(filled(20, 10, [0, 0, 0, 255]));
    assert_eq!((resized.width(), resized.height()), (3, 8));
}

#[test]
fn no_target_keeps_the_image() {
    let sp = Spriterator::new("in", 100, 100, None, None);
    let resized = sp.resize_image(filled(20, 10, [1, 2, 3, 4]));
    assert_eq!((resized.width(), resized.height()), (20, 10));
    assert_eq!(resized.pixel(19, 9), (1, 2, 3, 4));
}

#[test]
fn transparent_border_is_trimmed_and_frame_cut() {
    let sp = Spriterator::new("in", 50, 50, None, None);
    let images = vec![{
        let mut img = RgbaImage::new(10, 10);
        for x in 2..8 {
            for y in 2..8 {
                img.put_pixel(x, y, Rgba([255, 0, 0, 255]));
            }
        }
        to_bitmap(img)
    }];
    let sheets = sp.generate(images).expect("packs");
    assert_eq!(sheets.len(), 1);
    let img = sheets[0].get_image();
    assert_eq!((img.width(), img.height()), (6, 6));
    assert_eq!(frames_of(&sheets[0]), vec![(0, 0, 6, 6)]);
    assert_eq!(img.pixel(0, 0), (255, 0, 0, 255));
}

#[test]
fn frames_shift_by_trim_origin() {
    let sp = Spriterator::new("in", 50, 50, None, None);
    let images = vec![filled(5, 5, [0, 0, 0, 0]), filled(5, 5, [10, 20, 30, 255])];
    let sheets = sp.generate(images).expect("packs");
    assert_eq!(sheets.len(), 1);
    let img = sheets[0].get_image();
    assert_eq!((img.width(), img.height()), (5, 5));
    assert_eq!(frames_of(&sheets[0]), vec![(0, 0, 0, 5), (0, 0, 5, 5)]);
    assert_eq!(img.pixel(4, 4), (10, 20, 30, 255));
}

#[test]
fn wholly_transparent_sheet_is_one_pixel() {
    let sp = Spriterator::new("in", 50, 50, None, None);
    let sheets = sp.generate(vec![filled(5, 5, [7, 7, 7, 0])]).expect("packs");
    assert_eq!(sheets.len(), 1);
    let img = sheets[0].get_image();
    assert_eq!((img.width(), img.height()), (1, 1));
    assert_eq!(img.pixel(0, 0), (0, 0, 0, 0));
    assert_eq!(frames_of(&sheets[0]), vec![(0, 0, 0, 0)]);
}

#[test]
fn rows_wrap_and_sheets_flush_in_order() {
    let sp = Spriterator::new("in", 10, 10, None, None);
    let images = vec![
        filled(6, 4, [1, 0, 0, 255]),
        filled(4, 3, [2, 0, 0, 255]),
        filled(5, 6, [3, 0, 0, 255]),
        filled(5, 5, [4, 0, 0, 255]),
        filled(10, 2, [5, 0, 0, 255]),
    ];
    let sheets = sp.generate(images).expect("packs");
    assert_eq!(sheets.len(), 2);
    assert_eq!(frames_of(&sheets[0]), vec![(0, 0, 6, 4), (6, 0, 4, 3), (0, 4, 5, 6), (5, 4, 5, 5)]);
    assert_eq!(frames_of(&sheets[1]), vec![(0, 0, 10, 2)]);
    let img = sheets[0].get_image();
    assert_eq!((img.width(), img.height()), (10, 10));
    assert_eq!(img.pixel(0, 0), (1, 0, 0, 255));
    assert_eq!(img.pixel(9, 2), (2, 0, 0, 255));
    assert_eq!(img.pixel(9, 3), (0, 0, 0, 0));
    assert_eq!(img.pixel(4, 9), (3, 0, 0, 255));
    assert_eq!(img.pixel(5, 8), (4, 0, 0, 255));
    assert_eq!(img.pixel(5, 9), (0, 0, 0, 0));
}

#[test]
fn pixels_of_each_frame_match_their_image() {
    let sp = Spriterator::new("in", 64, 64, None, None);
    let mut a = RgbaImage::new(3, 2);
    for (x, y, p) in a.enumerate_pixels_mut() {
        *p = Rgba([x as u8, y as u8, 7, 255]);
    }
    let mut b = RgbaImage::new(2, 3);
    for (x, y, p) in b.enumerate_pixels_mut() {
        *p = Rgba([100 + x as u8, 100 + y as u8, 9, 128]);
    }
    let sheets = sp.generate(vec![to_bitmap(a.clone()), to_bitmap(b.clone())]).expect("packs");
    let frames = frames_of(&sheets[0]);
    let img = sheets[0].get_image();
    for (f, src) in frames.iter().zip([&a, &b]) {
        assert_eq!((f.2, f.3), src.dimensions());
        for y in 0..f.3 {
            for x in 0..f.2 {
                let p = src.get_pixel(x, y).0;
                assert_eq!(img.pixel(f.0 + x, f.1 + y), (p[0], p[1], p[2], p[3]));
            }
        }
    }
}

#[test]
fn trimming_twice_changes_nothing() {
    let sp = Spriterator::new("in", 64, 64, None, None);
    let mut img = RgbaImage::new(8, 6);
    img.put_pixel(2, 1, Rgba([1, 2, 3, 255]));
    img.put_pixel(5, 4, Rgba([4, 5, 6, 9]));
    let (once, x, y) = sp.trim_transparent(&to_bitmap(img));
    assert_eq!((x, y, once.width(), once.height()), (2, 1, 4, 4));
    let (twice, x2, y2) = sp.trim_transparent(&once);
    assert_eq!((x2, y2), (0, 0));
    assert_eq!((twice.width(), twice.height()), (once.width(), once.height()));
    assert_eq!(twice.into_rgba8(), once.into_rgba8());
}

#[test]
fn trimmed_edges_hold_visible_pixels() {
    let sp = Spriterator::new("in", 64, 64, None, None);
    let mut img = RgbaImage::new(9, 9);
    img.put_pixel(3, 2, Rgba([0, 0, 0, 1]));
    img.put_pixel(6, 7, Rgba([0, 0, 0, 1]));
    let (t, _, _) = sp.trim_transparent(&to_bitmap(img));
    let (w, h) = (t.width(), t.height());
    assert!((0..h).any(|y| t.pixel(0, y).3 > 0));
    assert!((0..h).any(|y| t.pixel(w - 1, y).3 > 0));
    assert!((0..w).any(|x| t.pixel(x, 0).3 > 0));
    assert!((0..w).any(|x| t.pixel(x, h - 1).3 > 0));
}

#[test]
fn trimming_a_transparent_buffer_gives_one_pixel() {
    let sp = Spriterator::new("in", 64, 64, None, None);
    let (t, x, y) = sp.trim_transparent(&filled(4, 4, [5, 5, 5, 0]));
    assert_eq!((t.width(), t.height(), x, y), (1, 1, 0, 0));
    assert_eq!(t.pixel(0, 0), (0, 0, 0, 0));
}

#[test]
fn bitmap_bytes_round_trip() {
    let data: Vec<u8> = (0..24).collect();
    let b = Bitmap::from_rgba8(3, 2, data.clone()).expect("six pixels");
    assert_eq!(b.pixel(1, 1), (16, 17, 18, 19));
    assert_eq!(b.into_rgba8(), data);
    assert!(Bitmap::from_rgba8(3, 2, vec![0; 23]).is_none());
    assert!(Bitmap::from_rgba8(3, 2, vec![0; 25]).is_none());
}

#[test]
fn frame_accessors() {
    let f = Frame::new(1, 2, 3, 4);
    assert_eq!((f.get_x(), f.get_y(), f.get_width(), f.get_height()), (1, 2, 3, 4));
}

#[test]
fn sprite_collects_frames() {
    let mut s = Sprite::new(filled(2, 2, [0, 0, 0, 255]));
    s.add_frame(0, 0, 1, 1);
    s.add_frame(1, 1, 1, 1);
    assert_eq!(frames_of(&s), vec![(0, 0, 1, 1), (1, 1, 1, 1)]);
    assert_eq!(s.get_image().width(), 2);
}

#[test]
fn supported_extensions_ignore_case() {
    assert!(is_supported_extension("png"));
    assert!(is_supported_extension("PNG"));
    assert!(is_supported_extension("webp"));
    assert!(is_supported_extension("WebP"));
    assert!(!is_supported_extension("jpg"));
    assert!(!is_supported_extension("pngx"));
    assert!(!is_supported_extension(""));
}

#[test]
fn resize_to_the_same_size_copies_the_pixels() {
    let sp = Spriterator::new("in", 100, 100, Some(4), Some(3));
    let mut img = RgbaImage::new(4, 3);
    for (x, y, p) in img.enumerate_pixels_mut() {
        *p = Rgba([x as u8 * 40, y as u8 * 70, 5, 200]);
    }
    let src = to_bitmap(img.clone());
    let resized = sp.resize_image(src);
    assert_eq!(resized.into_rgba8(), img.into_raw());
}

#[test]
fn frames_never_leave_their_sheet() {
    let sp = Spriterator::new("in", 20, 20, None, None);
    let mut margin = RgbaImage::new(8, 8);
    margin.put_pixel(4, 4, Rgba([1, 1, 1, 255]));
    let images = vec![to_bitmap(margin), filled(6, 3, [2, 2, 2, 255]), filled(12, 9, [3, 3, 3, 0])];
    let sheets = sp.generate(images).expect("packs");
    for s in &sheets {
        let (w, h) = (s.get_image().width(), s.get_image().height());
        assert!(w <= 20 && h <= 20);
        for f in frames_of(s) {
            assert!(f.0 + f.2 <= w && f.1 + f.3 <= h);
        }
    }
}
