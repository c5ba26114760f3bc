use image::{Rgba, RgbaImage};
use spriterator::{Bitmap, Spriterator};

fn to_bitmap(img: RgbaImage) -> Bitmap {
    let (w, h) = img.dimensions();
    Bitmap::from_rgba8(w, h, img.into_raw()).expect("buffer of the right size")
}

#[test]
fn lib_test_spriterator_creation() {
    let spriterator = Spriterator::new("test_dir", 1024, 1024, None, None);
    assert_eq!(spriterator.dir_path, "test_dir");
    assert_eq!(spriterator.max_width, 1024);
    assert_eq!(spriterator.max_height, 1024);
}

#[test]
fn spriterator_test_spriterator_creation() {
    let spriterator = Spriterator::new("test_dir", 1024, 1024, None, None);
    assert_eq!(spriterator.dir_path, "test_dir");
    assert_eq!(spriterator.max_width, 1024);
    assert_eq!(spriterator.max_height, 1024);
}

#[test]
fn lib_test_empty_directory_error() {
    let spriterator = Spriterator::new("empty_dir", 1024, 1024, None, None);
    let result = spriterator.generate(Vec::new());
    assert!(result.is_err());
}

#[test]
fn spriterator_test_empty_directory_error() {
    let spriterator = Spriterator::new("empty_dir", 1024, 1024, None, None);
    let result = spriterator.generate(Vec::new());
    assert!(result.is_err());
}

fn red_square_on_transparent() -> Bitmap {
    let mut image = RgbaImage::new(10, 10);
    for x in 2..8 {
        for y in 2..8 {
            image.put_pixel(x, y, Rgba([255, 0, 0, 255]));
        }
    }
    to_bitmap(image)
}

#[test]
fn lib_test_trim_transparent() {
    let spriterator = Spriterator::new("test_dir", 1024, 1024, None, None);
    let image = red_square_on_transparent();
    let (trimmed, _, _) = spriterator.trim_transparent(&image);
    assert_eq!(trimmed.width(), 6);
    assert_eq!(trimmed.height(), 6);
}

#[test]
fn spriterator_test_trim_transparent() {
    let spriterator = Spriterator::new("test_dir", 1024, 1024, None, None);
    let image = red_square_on_transparent();
    let (trimmed, _, _) = spriterator.trim_transparent(&image);
    assert_eq!(trimmed.width(), 6);
    assert_eq!(trimmed.height(), 6);
}

#[test]
fn lib_test_resize_image1() {
    let spriterator = Spriterator::new("test_dir", 100, 100, Some(10), Some(10));
    let image = image::DynamicImage::ImageRgba8(RgbaImage::new(10, 10));
    let resized = spriterator.resize_image(to_bitmap(image.to_rgba8()));
    assert_eq!(resized.width(), 10);
    assert_eq!(resized.height(), 10);
}

#[test]
fn lib_test_resize_image2() {
    let spriterator = Spriterator::new("test_dir", 100, 100, Some(10), None);
    let image = image::DynamicImage::ImageRgba8(RgbaImage::new(20, 20));
    let resized = spriterator.resize_image(to_bitmap(image.to_rgba8()));
    assert_eq!(resized.width(), 10);
    assert_eq!(resized.height(), (20 * 10) / 20);
}

#[test]
fn lib_test_resize_image3() {
    let spriterator = Spriterator::new("test_dir", 100, 100, None, Some(10));
    let image = image::DynamicImage::ImageRgba8(RgbaImage::new(30, 30));
    let resized = spriterator.resize_image(to_bitmap(image.to_rgba8()));
    assert_eq!(resized.width(), (30 * 10) / 30);
    assert_eq!(resized.height(), 10);
}

#[test]
fn spriterator_test_resize_image1() {
    let spriterator = Spriterator::new("test_dir", 100, 100, Some(10), Some(10));
    let resized = spriterator.resize_image(to_bitmap(RgbaImage::new(10, 10)));
    assert_eq!(resized.width(), 10);
    assert_eq!(resized.height(), 10);
}

#[test]
fn spriterator_test_resize_image2() {
    let spriterator = Spriterator::new("test_dir", 100, 100, Some(10), None);
    let resized = spriterator.resize_image(to_bitmap(RgbaImage::new(20, 20)));
    assert_eq!(resized.width(), 10);
    assert_eq!(resized.height(), (20 * 10) / 20);
}

#[test]
fn spriterator_test_resize_image3() {
    let spriterator = Spriterator::new("test_dir", 100, 100, None, Some(10));
    let resized = spriterator.resize_image(to_bitmap(RgbaImage::new(30, 30)));
    assert_eq!(resized.width(), (30 * 10) / 30);
    assert_eq!(resized.height(), 10);
}
