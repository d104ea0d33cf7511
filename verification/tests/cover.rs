use sway::cover::{jpeg_data_url, thumb_data_url};

fn png(width: u32, height: u32) -> Vec<u8> {
    let image = image::RgbImage::from_pixel(width, height, image::Rgb([200, 30, 90]));
    let mut bytes = std::io::Cursor::new(Vec::new());
    image::DynamicImage::ImageRgb8(image)
        .write_to(&mut bytes, image::ImageFormat::Png)
        .unwrap();
    bytes.into_inner()
}

fn decoded(url: &str) -> image::DynamicImage {
    let text = url.strip_prefix("data:image/jpeg;base64,").unwrap();
    let bytes = base64::Engine::decode(&base64::engine::general_purpose::STANDARD, text).unwrap();
    assert_eq!(image::guess_format(&bytes).unwrap(), image::ImageFormat::Jpeg);
    image::load_from_memory(&bytes).unwrap()
}

#[test]
fn a_cover_is_a_small_jpeg() {
    let url = thumb_data_url(&png(600, 300)).unwrap();
    let small = decoded(&url);
    assert_eq!((small.width(), small.height()), (256, 128));
    let p = small.to_rgb8().get_pixel(100, 60).0;
    assert!(p[0] > 180 && p[1] < 60, "{p:?}");
}

#[test]
fn a_picture_that_is_none_gives_no_cover() {
    assert_eq!(thumb_data_url(b"not a picture"), None);
    assert_eq!(thumb_data_url(&[]), None);
}

#[test]
fn bytes_are_written_in_base64() {
    assert_eq!(jpeg_data_url(b""), "data:image/jpeg;base64,");
    assert_eq!(jpeg_data_url(b"f"), "data:image/jpeg;base64,Zg==");
    assert_eq!(jpeg_data_url(b"fo"), "data:image/jpeg;base64,Zm8=");
    assert_eq!(jpeg_data_url(b"foo"), "data:image/jpeg;base64,Zm9v");
    assert_eq!(jpeg_data_url(b"foobar"), "data:image/jpeg;base64,Zm9vYmFy");
    assert_eq!(jpeg_data_url(&[0xfb, 0xff, 0xfe]), "data:image/jpeg;base64,+//+");
}
