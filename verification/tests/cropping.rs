use rust_paddle_ocr::efficient_cropping::{CropStrategy, EfficientCropper, ImageRef};
use rust_paddle_ocr::error::OcrError;
use rust_paddle_ocr::raster::Image;
use rust_paddle_ocr::region::TextRegion;
use std::sync::Arc;

fn create_test_image() -> Image {
    let mut data = Vec::with_capacity(100 * 100 * 4);
    for y in 0..100u32 {
        for x in 0..100u32 {
            data.push((x % 256) as u8);
            data.push((y % 256) as u8);
            data.push(((x + y) % 256) as u8);
            data.push(255);
        }
    }
    Image::from_raw(100, 100, 4, data).unwrap()
}

fn rgb_image(width: u32, height: u32) -> Image {
    let mut data = Vec::new();
    for y in 0..height {
        for x in 0..width {
            data.push((x * 3 % 251) as u8);
            data.push((y * 7 % 241) as u8);
            data.push(((x * y) % 239) as u8);
        }
    }
    Image::from_raw(width, height, 3, data).unwrap()
}

fn rect(left: i32, top: i32, width: u32, height: u32) -> TextRegion {
    TextRegion::new(left, top, width, height).unwrap()
}

fn assert_is_crop(out: &Image, source: &Image, region: &TextRegion) {
    assert_eq!(out.dimensions(), (region.width(), region.height()));
    assert_eq!(out.channels(), source.channels());
    for y in 0..region.height() {
        for x in 0..region.width() {
            for c in 0..source.channels() {
                assert_eq!(
                    out.get_sample(x, y, c),
                    source.get_sample(region.left() as u32 + x, region.top() as u32 + y, c)
                );
            }
        }
    }
}

#[test]
fn test_smart_crop() {
    let image = create_test_image();
    let image_ref = ImageRef::from(image);

    let small_rect = rect(10, 10, 20, 20);
    let cropped = EfficientCropper::smart_crop(&image_ref, &small_rect);
    assert_eq!(cropped.dimensions(), (20, 20));

    let large_rect = rect(10, 10, 80, 80);
    let cropped = EfficientCropper::smart_crop(&image_ref, &large_rect);
    assert_eq!(cropped.dimensions(), (80, 80));
}

#[test]
fn test_batch_crop() {
    let image = create_test_image();
    let image_ref = ImageRef::from(image);

    let rects = vec![rect(0, 0, 20, 20), rect(30, 30, 25, 25), rect(60, 60, 30, 30)];

    let results = EfficientCropper::batch_crop(&image_ref, &rects);
    assert_eq!(results.len(), 3);
    assert_eq!(results[0].dimensions(), (20, 20));
    assert_eq!(results[1].dimensions(), (25, 25));
    assert_eq!(results[2].dimensions(), (30, 30));
}

#[test]
fn strategy_follows_the_area() {
    let image_ref = ImageRef::from(create_test_image());
    assert_eq!(
        EfficientCropper::strategy(&image_ref, &rect(0, 0, 100, 100)),
        CropStrategy::WholeImage
    );
    // 999 pixels are under a tenth of 10000, 1000 are not
    assert_eq!(
        EfficientCropper::strategy(&image_ref, &rect(0, 0, 27, 37)),
        CropStrategy::PixelCopy
    );
    assert_eq!(
        EfficientCropper::strategy(&image_ref, &rect(0, 0, 25, 40)),
        CropStrategy::Standard
    );
    assert_eq!(
        EfficientCropper::strategy(&image_ref, &rect(1, 0, 99, 100)),
        CropStrategy::Standard
    );
}

#[test]
fn every_strategy_copies_the_right_pixels() {
    let image = create_test_image();
    let whole = rect(0, 0, 100, 100);
    let small = rect(13, 7, 9, 21);
    let large = rect(5, 40, 90, 55);
    assert_is_crop(&EfficientCropper::standard_crop(&image, &small), &image, &small);
    assert_is_crop(&EfficientCropper::standard_crop(&image, &large), &image, &large);
    assert_is_crop(&EfficientCropper::pixel_copy_crop(&image, &small), &image, &small);
    assert_is_crop(&EfficientCropper::pixel_copy_crop(&image, &large), &image, &large);
    let image_ref = ImageRef::from(create_test_image());
    assert_is_crop(&EfficientCropper::smart_crop(&image_ref, &whole), &image, &whole);
    assert_is_crop(&EfficientCropper::smart_crop(&image_ref, &small), &image, &small);
    assert_is_crop(&EfficientCropper::smart_crop(&image_ref, &large), &image, &large);
}

#[test]
fn crops_of_rgb_and_gray_images() {
    let rgb = rgb_image(37, 23);
    let region = rect(30, 20, 7, 3);
    assert_is_crop(&EfficientCropper::pixel_copy_crop(&rgb, &region), &rgb, &region);
    assert_is_crop(&EfficientCropper::standard_crop(&rgb, &region), &rgb, &region);
    let gray = Image::from_raw(4, 3, 1, (0..12).collect()).unwrap();
    let corner = rect(2, 1, 2, 2);
    let out = EfficientCropper::pixel_copy_crop(&gray, &corner);
    assert_eq!(out.as_raw(), &vec![6, 7, 10, 11]);
}

#[test]
fn crop_of_last_pixel() {
    let image = create_test_image();
    let region = rect(99, 99, 1, 1);
    let out = EfficientCropper::standard_crop(&image, &region);
    assert_eq!(out.as_raw(), &vec![99, 99, 198, 255]);
    let out = EfficientCropper::pixel_copy_crop(&image, &region);
    assert_eq!(out.as_raw(), &vec![99, 99, 198, 255]);
}

#[test]
fn shared_image_is_cropped_like_an_owned_one() {
    let shared = ImageRef::from(Arc::new(create_test_image()));
    assert_eq!(shared.dimensions(), (100, 100));
    assert_eq!(shared.as_dynamic_image().channels(), 4);
    let region = rect(50, 60, 10, 5);
    assert_is_crop(&EfficientCropper::smart_crop(&shared, &region), &create_test_image(), &region);
}

fn many_rects(count: u32) -> Vec<TextRegion> {
    (0..count).map(|i| rect((i % 90) as i32, (i * 7 % 85) as i32, 1 + i % 10, 1 + i % 15)).collect()
}

#[test]
fn batches_keep_the_order_of_the_regions() {
    let image = create_test_image();
    let image_ref = ImageRef::from(create_test_image());
    for count in [0u32, 1, 3, 4, 9, 40, 700] {
        let rects = many_rects(count);
        let serial = EfficientCropper::serial_crop(&image_ref, &rects);
        let batch = EfficientCropper::batch_crop(&image_ref, &rects);
        let parallel = EfficientCropper::parallel_batch_crop(&image_ref, &rects);
        let optimized = EfficientCropper::optimized_batch_crop(&image_ref, &rects);
        assert_eq!(serial.len(), rects.len());
        assert_eq!(batch.len(), rects.len());
        assert_eq!(parallel.len(), rects.len());
        assert_eq!(optimized.len(), rects.len());
        for (i, region) in rects.iter().enumerate() {
            assert_is_crop(&serial[i], &image, region);
            assert_is_crop(&batch[i], &image, region);
            assert_is_crop(&parallel[i], &image, region);
            assert_is_crop(&optimized[i], &image, region);
        }
    }
}

#[test]
fn optimized_batch_mixes_small_and_large_regions() {
    let image = create_test_image();
    let image_ref = ImageRef::from(create_test_image());
    let rects = vec![
        rect(0, 0, 100, 100),
        rect(1, 1, 5, 5),
        rect(10, 10, 60, 60),
        rect(2, 3, 4, 5),
        rect(20, 0, 80, 100),
        rect(90, 90, 10, 10),
        rect(0, 50, 100, 50),
        rect(7, 7, 7, 7),
        rect(0, 0, 50, 20),
        rect(33, 44, 2, 1),
    ];
    let out = EfficientCropper::optimized_batch_crop(&image_ref, &rects);
    assert_eq!(out.len(), 10);
    for (i, region) in rects.iter().enumerate() {
        assert_is_crop(&out[i], &image, region);
    }
}

#[test]
fn batch_size_rules() {
    let image_ref = ImageRef::from(create_test_image());
    // fewer than four regions: one after the other
    assert!(EfficientCropper::is_serial_batch(&image_ref, &many_rects(3)));
    // four small regions: in parallel
    assert!(!EfficientCropper::is_serial_batch(&image_ref, &many_rects(4)));
    // average area 1251 is above an eighth of 10000, 1250 is not
    let large = vec![rect(0, 0, 50, 25), rect(0, 0, 50, 25), rect(0, 0, 50, 25), rect(0, 0, 2, 627)];
    assert_eq!(EfficientCropper::sum_areas(&large), 5004);
    assert!(EfficientCropper::is_serial_batch(&image_ref, &large));
    let even = vec![rect(0, 0, 50, 25); 4];
    assert_eq!(EfficientCropper::sum_areas(&even), 5000);
    assert!(!EfficientCropper::is_serial_batch(&image_ref, &even));
}

#[test]
fn chunk_sizes() {
    assert_eq!(EfficientCropper::chunk_size(8, 4), None);
    assert_eq!(EfficientCropper::chunk_size(9, 4), Some(2));
    assert_eq!(EfficientCropper::chunk_size(100, 8), Some(12));
    assert_eq!(EfficientCropper::chunk_size(3, 1), Some(3));
    assert_eq!(EfficientCropper::chunk_size(2, 1), None);
    // an unknown number of workers counts as four
    assert_eq!(EfficientCropper::chunk_size(8, 0), None);
    assert_eq!(EfficientCropper::chunk_size(9, 0), Some(2));
    assert_eq!(EfficientCropper::chunk_size(usize::MAX, usize::MAX), None);
}

#[test]
fn image_needs_a_buffer_of_the_right_length() {
    assert!(Image::from_raw(2, 2, 3, vec![0; 12]).is_some());
    assert!(Image::from_raw(2, 2, 3, vec![0; 11]).is_none());
    assert!(Image::from_raw(2, 2, 3, vec![0; 13]).is_none());
    assert!(Image::from_raw(2, 2, 0, vec![]).is_none());
    assert!(Image::from_raw(2, 2, 5, vec![0; 20]).is_none());
    assert!(Image::from_raw(0, 7, 4, vec![]).is_some());
    assert!(Image::from_raw(u32::MAX, u32::MAX, 4, vec![]).is_none());
    let image = Image::from_raw(3, 2, 2, (0..12).collect()).unwrap();
    assert_eq!(image.area(), 6);
    assert_eq!(image.offset(2, 1), 10);
    assert_eq!(image.get_sample(2, 1, 1), 11);
    assert_eq!(image.clone().as_raw(), image.as_raw());
}

#[test]
fn regions_inside_an_image() {
    let image_ref = ImageRef::from(create_test_image());
    assert!(EfficientCropper::all_fit(&image_ref, &[]));
    assert!(EfficientCropper::all_fit(&image_ref, &[rect(0, 0, 100, 100), rect(99, 99, 1, 1)]));
    assert!(!EfficientCropper::all_fit(&image_ref, &[rect(0, 0, 100, 100), rect(99, 99, 2, 1)]));
    assert!(!EfficientCropper::all_fit(&image_ref, &[rect(-1, 0, 5, 5)]));
    assert!(!EfficientCropper::all_fit(&image_ref, &[rect(0, 96, 5, 5), rect(0, 0, 1, 1)]));
}

#[test]
fn regions_sorted_by_size() {
    let image_ref = ImageRef::from(create_test_image());
    let rects = vec![
        rect(0, 0, 27, 37),
        rect(0, 0, 25, 40),
        rect(0, 0, 100, 100),
        rect(5, 5, 1, 1),
        rect(0, 0, 999, 1),
        rect(0, 0, 1, 1000),
    ];
    let (small, large) = EfficientCropper::split_by_size(&image_ref, &rects);
    assert_eq!(small, vec![0, 3, 4]);
    assert_eq!(large, vec![1, 2, 5]);
    let (small, large) = EfficientCropper::split_by_size(&image_ref, &[]);
    assert!(small.is_empty() && large.is_empty());
}

#[test]
fn regions_outside_the_image_are_refused() {
    let image = create_test_image();
    let image_ref = ImageRef::from(create_test_image());
    let inside = rect(90, 95, 10, 5);
    assert_is_crop(&EfficientCropper::checked_crop(&image_ref, &inside).unwrap(), &image, &inside);
    for outside in [rect(91, 95, 10, 5), rect(90, 96, 10, 5), rect(-1, 0, 5, 5), rect(0, -1, 5, 5)] {
        assert!(matches!(
            EfficientCropper::checked_crop(&image_ref, &outside),
            Err(OcrError::InputError(_))
        ));
        // what is left of the region inside the image can be taken out
        let clamped = outside.clamp_to(100, 100).unwrap();
        assert_is_crop(
            &EfficientCropper::checked_crop(&image_ref, &clamped).unwrap(),
            &image,
            &clamped,
        );
    }
}
