use image::DynamicImage;
use image::GrayImage;
use image::RgbImage;
use image::RgbaImage;
use pixel_fsm::fsm::Fsm;
use pixel_fsm::picture::Color;
use pixel_fsm::picture::Picture;

#[test]
fn rgb_image_becomes_a_picture_pixel_by_pixel() {
    let raw = vec![0, 0, 255, 255, 0, 0, 255, 255, 255, 1, 2, 3, 4, 5, 6, 7, 8, 9];
    let img = DynamicImage::ImageRgb8(RgbImage::from_raw(3, 2, raw).expect("the buffer fits"));
    let p = Picture::from_image(&img).expect("the image is small");
    assert_eq!(p.width, 3);
    assert_eq!(p.height, 2);
    assert_eq!(
        p.pixels,
        vec![
            Color::from(0, 0, 255),
            Color::from(255, 0, 0),
            Color::from(255, 255, 255),
            Color::from(1, 2, 3),
            Color::from(4, 5, 6),
            Color::from(7, 8, 9)
        ]
    );
    assert_eq!(p.get(1, 1), Color::from(4, 5, 6));
}

#[test]
fn image_with_alpha_loses_the_alpha_channel() {
    let raw = vec![10, 20, 30, 255, 40, 50, 60, 0];
    let img = DynamicImage::ImageRgba8(RgbaImage::from_raw(1, 2, raw).expect("the buffer fits"));
    let p = Picture::from_image(&img).expect("the image is small");
    assert_eq!((p.width, p.height), (1, 2));
    assert_eq!(p.pixels, vec![Color::from(10, 20, 30), Color::from(40, 50, 60)]);
}

#[test]
fn gray_image_has_three_equal_channels() {
    let img = DynamicImage::ImageLuma8(GrayImage::from_raw(2, 1, vec![77, 200]).expect("fits"));
    let p = Picture::from_image(&img).expect("the image is small");
    assert_eq!(p.pixels, vec![Color::from(77, 77, 77), Color::from(200, 200, 200)]);
}

#[test]
fn empty_image_is_an_empty_picture() {
    let img = DynamicImage::new_rgb8(0, 0);
    let p = Picture::from_image(&img).expect("the image is small");
    assert_eq!((p.width, p.height), (0, 0));
    assert!(p.pixels.is_empty());
}

#[test]
fn decoded_definition_matches_a_decoded_target() {
    let definition = DynamicImage::ImageRgb8(
        RgbImage::from_raw(2, 1, vec![0, 0, 255, 255, 0, 0]).expect("the buffer fits"),
    );
    let target = DynamicImage::ImageRgb8(
        RgbImage::from_raw(
            3,
            2,
            vec![
                255, 255, 255, 255, 255, 255, 255, 255, 255, 255, 255, 255, 0, 0, 255, 255, 0, 0,
            ],
        )
        .expect("the buffer fits"),
    );
    let mut builder = Fsm::builder(Picture::from_image(&definition).expect("small"));
    builder.add_input(Color::from(255, 0, 0));
    let fsm = builder.build();
    let found = fsm.identify(Picture::from_image(&target).expect("small")).expect("it is there");
    assert_eq!(found.get(Color::from(0, 0, 255)), Some(&vec![Color::from(0, 0, 255)]));
    assert_eq!(found.get(Color::from(255, 0, 0)), Some(&vec![Color::from(255, 0, 0)]));
}

#[test]
fn image_with_float_samples_is_refused() {
    let img = DynamicImage::ImageRgb32F(
        image::Rgb32FImage::from_raw(1, 1, vec![0.5, 0.25, 1.0]).expect("the buffer fits"),
    );
    assert!(Picture::from_image(&img).is_none());
    let img = DynamicImage::ImageRgb32F(
        image::Rgb32FImage::from_raw(1, 1, vec![f32::NAN, 0.0, 0.0]).expect("the buffer fits"),
    );
    assert!(Picture::from_image(&img).is_none());
    let img = DynamicImage::ImageRgba32F(
        image::Rgba32FImage::from_raw(1, 1, vec![0.0, 0.0, 0.0, 1.0]).expect("the buffer fits"),
    );
    assert!(Picture::from_image(&img).is_none());
}

#[test]
fn image_with_sixteen_bit_samples_is_reduced() {
    let img = DynamicImage::ImageRgb16(
        image::ImageBuffer::from_raw(1, 1, vec![0xffff_u16, 0, 0x8080]).expect("the buffer fits"),
    );
    let p = Picture::from_image(&img).expect("the samples are integers");
    assert_eq!(p.pixels, vec![Color::from(255, 0, 128)]);
}
