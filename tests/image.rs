use raytracer::image::{Image, PPMType, Pixel};

#[test]
fn pixel_new_keeps_channels() {
    let p = Pixel::new(1, 2, 3);
    assert_eq!((p.r, p.g, p.b), (1, 2, 3));
}

#[test]
fn new_image_is_black() {
    let img = Image::new(3, 2);
    assert_eq!(img.width(), 3);
    assert_eq!(img.height(), 2);
    for y in 0..2 {
        for x in 0..3 {
            assert_eq!(img.get_pixel(x, y), Pixel::new(0, 0, 0));
        }
    }
}

#[test]
fn set_pixel_writes_one_position() {
    let mut img = Image::new(3, 2);
    img.set_pixel(2, 1, Pixel::new(9, 8, 7));
    assert_eq!(img.get_pixel(2, 1), Pixel::new(9, 8, 7));
    assert_eq!(img.get_pixel(1, 1), Pixel::new(0, 0, 0));
    assert_eq!(img.get_pixel(2, 0), Pixel::new(0, 0, 0));
}

#[test]
fn encode_p3_is_ascii() {
    let mut img = Image::new(2, 1);
    img.set_pixel(0, 0, Pixel::new(255, 0, 10));
    img.set_pixel(1, 0, Pixel::new(1, 22, 133));
    let bytes = img.encode(PPMType::P3);
    assert_eq!(bytes, b"P3\n2 1\n255\n255 0 10\n1 22 133\n".to_vec());
}

#[test]
fn encode_p6_is_raw() {
    let mut img = Image::new(1, 2);
    img.set_pixel(0, 1, Pixel::new(10, 32, 255));
    let bytes = img.encode(PPMType::P6);
    let mut expected = b"P6\n1 2\n255\n".to_vec();
    expected.extend_from_slice(&[0, 0, 0, 10, 32, 255]);
    assert_eq!(bytes, expected);
}

#[test]
fn encode_large_size_header() {
    let img = Image::new(1920, 1);
    let bytes = img.encode(PPMType::P6);
    assert!(bytes.starts_with(b"P6\n1920 1\n255\n"));
    assert_eq!(bytes.len(), 14 + 1920 * 3);
}

#[test]
fn encode_empty_image() {
    let img = Image::new(0, 0);
    assert_eq!(img.encode(PPMType::P3), b"P3\n0 0\n255\n".to_vec());
}

use raytracer::ppm::PpmError;

fn sample_image() -> Image {
    let mut img = Image::new(2, 2);
    img.set_pixel(0, 0, Pixel::new(255, 0, 10));
    img.set_pixel(1, 0, Pixel::new(10, 10, 10));
    img.set_pixel(0, 1, Pixel::new(7, 77, 177));
    img.set_pixel(1, 1, Pixel::new(0, 255, 1));
    img
}

fn pixels(img: &Image) -> Vec<Pixel> {
    let mut out = Vec::new();
    for y in 0..img.height() {
        for x in 0..img.width() {
            out.push(img.get_pixel(x, y));
        }
    }
    out
}

#[test]
fn decode_reads_back_p3() {
    let img = sample_image();
    let mut back = Image::new(2, 2);
    assert_eq!(back.decode(&img.encode(PPMType::P3)), Ok(()));
    assert_eq!(pixels(&back), pixels(&img));
}

#[test]
fn decode_reads_back_p6_with_newline_bytes() {
    let img = sample_image();
    let mut back = Image::new(2, 2);
    assert_eq!(back.decode(&img.encode(PPMType::P6)), Ok(()));
    assert_eq!(pixels(&back), pixels(&img));
}

#[test]
fn decode_keeps_pixels_past_the_samples() {
    let mut img = Image::new(2, 1);
    img.set_pixel(1, 0, Pixel::new(5, 6, 7));
    assert_eq!(img.decode(b"P3\n2 1\n255\n\n1 +2 3 99\n"), Ok(()));
    assert_eq!(img.get_pixel(0, 0), Pixel::new(1, 2, 3));
    assert_eq!(img.get_pixel(1, 0), Pixel::new(5, 6, 7));
}

#[test]
fn decode_drops_a_partial_raw_pixel() {
    let mut img = Image::new(2, 1);
    assert_eq!(img.decode(b"P6\n2 1\n255\n\x01\x02\x03\x04\x05"), Ok(()));
    assert_eq!(img.get_pixel(0, 0), Pixel::new(1, 2, 3));
    assert_eq!(img.get_pixel(1, 0), Pixel::new(0, 0, 0));
}

#[test]
fn decode_ignores_other_formats() {
    let mut img = sample_image();
    assert_eq!(img.decode(b"P5\n2 2\n255\nxxxx"), Ok(()));
    assert_eq!(img.decode(b""), Ok(()));
    assert_eq!(pixels(&img), pixels(&sample_image()));
}

#[test]
fn decode_errors() {
    let mut img = sample_image();
    assert_eq!(img.decode(b"P3\n2 2"), Err(PpmError::Truncated));
    assert_eq!(img.decode(b"P6"), Err(PpmError::Truncated));
    assert_eq!(img.decode(b"P3\n2 2\n255\n1 2\n"), Err(PpmError::BadSample));
    assert_eq!(img.decode(b"P3\n2 2\n255\n1 2 256\n"), Err(PpmError::BadSample));
    assert_eq!(img.decode(b"P3\n2 2\n255\n1 -2 3\n"), Err(PpmError::BadSample));
    assert_eq!(
        img.decode(b"P3\n1 1\n255\n1 2 3\n1 2 3\n1 2 3\n1 2 3\n1 2 3\n"),
        Err(PpmError::TooManyPixels)
    );
    assert_eq!(img.decode(b"P6\n1 1\n255\n0123456789abcde"), Err(PpmError::TooManyPixels));
    assert_eq!(pixels(&img), pixels(&sample_image()));
}

#[test]
fn render_shades_each_pixel_at_its_place() {
    let img = Image::render(3, 2, &|x: usize, y: usize| Pixel::new(x as u8, y as u8, (10 * y + x) as u8));
    assert_eq!(img.width(), 3);
    assert_eq!(img.height(), 2);
    for y in 0..2 {
        for x in 0..3 {
            assert_eq!(img.get_pixel(x, y), Pixel::new(x as u8, y as u8, (10 * y + x) as u8));
        }
    }
    assert_eq!(
        img.encode(PPMType::P6)[11..].to_vec(),
        vec![0, 0, 0, 1, 0, 1, 2, 0, 2, 0, 1, 10, 1, 1, 11, 2, 1, 12]
    );
}

#[test]
fn render_empty_image() {
    let img = Image::render(0, 4, &|_x: usize, _y: usize| Pixel::new(1, 1, 1));
    assert_eq!(img.encode(PPMType::P3), b"P3\n0 4\n255\n".to_vec());
}
