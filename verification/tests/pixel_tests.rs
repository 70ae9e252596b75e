use image::{ImageFormat, Rgb, RgbImage};
use imagenet_wds::batch::{batch_targets, concat_images};
use imagenet_wds::pixels::{decode_planar_rgb, planar_channels, IMAGE_SIDE};
use std::io::Cursor;

fn encode_png(img: &RgbImage) -> Vec<u8> {
    let mut out = Cursor::new(Vec::new());
    img.write_to(&mut out, ImageFormat::Png).unwrap();
    out.into_inner()
}

#[test]
fn planar_channels_groups_each_colour() {
    let rgb = vec![1u8, 2, 3, 4, 5, 6, 7, 8, 9];
    assert_eq!(planar_channels(&rgb), vec![1, 4, 7, 2, 5, 8, 3, 6, 9]);
    assert_eq!(planar_channels(&Vec::new()), Vec::<u8>::new());
}

#[test]
fn decoding_a_uniform_png_gives_three_constant_planes() {
    let img = RgbImage::from_pixel(5, 3, Rgb([10, 120, 250]));
    let planes = decode_planar_rgb(&encode_png(&img)).expect("a valid PNG decodes");
    let n = (IMAGE_SIDE * IMAGE_SIDE) as usize;
    assert_eq!(planes.len(), 3 * n);
    assert!(planes[..n].iter().all(|&v| v == 10));
    assert!(planes[n..2 * n].iter().all(|&v| v == 120));
    assert!(planes[2 * n..].iter().all(|&v| v == 250));
}

#[test]
fn decoding_matches_the_image_crate_pipeline() {
    let img = RgbImage::from_fn(7, 9, |x, y| Rgb([(x * 30) as u8, (y * 20) as u8, ((x + y) * 7) as u8]));
    let bytes = encode_png(&img);
    let expected_rgb = image::ImageReader::new(Cursor::new(&bytes))
        .with_guessed_format()
        .unwrap()
        .decode()
        .unwrap()
        .resize_exact(IMAGE_SIDE, IMAGE_SIDE, image::imageops::FilterType::Triangle)
        .to_rgb8()
        .into_raw();
    let planes = decode_planar_rgb(&bytes).unwrap();
    assert_eq!(planes, planar_channels(&expected_rgb));
}

#[test]
fn undecodable_bytes_give_none() {
    assert!(decode_planar_rgb(b"not an image at all").is_none());
    assert!(decode_planar_rgb(&[]).is_none());
}

#[test]
fn concat_images_lays_images_end_to_end() {
    let images = vec![vec![1.0f32, 2.0], vec![], vec![3.0, 4.0, 5.0]];
    assert_eq!(concat_images(images), vec![1.0f32, 2.0, 3.0, 4.0, 5.0]);
    assert_eq!(concat_images(Vec::<Vec<u8>>::new()), Vec::<u8>::new());
}

#[test]
fn batch_targets_convert_labels() {
    assert_eq!(batch_targets(&vec![0, 999, 5]), vec![0i64, 999, 5]);
    assert_eq!(batch_targets(&vec![]), Vec::<i64>::new());
}
