use rust_paddle_ocr::boxes::{Contour, Point};
use rust_paddle_ocr::det::Det;
use rust_paddle_ocr::error::OcrError;
use rust_paddle_ocr::raster::{GrayMap, Image};
use rust_paddle_ocr::region::TextRegion;

fn rect(left: i32, top: i32, width: u32, height: u32) -> TextRegion {
    TextRegion::new(left, top, width, height).unwrap()
}

fn sides(region: &TextRegion) -> (i32, i32, u32, u32) {
    (region.left(), region.top(), region.width(), region.height())
}

fn all_sides(regions: &[TextRegion]) -> Vec<(i32, i32, u32, u32)> {
    regions.iter().map(sides).collect()
}

#[test]
fn region_needs_a_positive_size() {
    assert!(TextRegion::new(0, 0, 0, 5).is_none());
    assert!(TextRegion::new(0, 0, 5, 0).is_none());
    assert!(TextRegion::new(-7, -9, 1, 1).is_some());
    assert!(TextRegion::new(i32::MAX, 0, 1, 1).is_none());
    assert!(TextRegion::new(i32::MAX - 1, 0, 1, 1).is_some());
    assert!(TextRegion::new(0, 1, 1, i32::MAX as u32).is_none());
    assert!(TextRegion::new(i32::MIN, i32::MIN, u32::MAX, u32::MAX).is_some());
}

#[test]
fn region_edges_and_area() {
    let r = rect(4, 5, 6, 7);
    assert_eq!(r.right(), 9);
    assert_eq!(r.bottom(), 11);
    assert_eq!(r.area(), 42);
    assert!(r.fits_within(10, 12));
    assert!(!r.fits_within(9, 12));
    assert!(!r.fits_within(10, 11));
    assert!(!rect(-1, 0, 2, 2).fits_within(10, 10));
    assert_eq!(rect(0, 0, u32::MAX / 2, u32::MAX / 2).area(), 2147483647u64 * 2147483647u64);
}

#[test]
fn merge_of_two_boxes() {
    let a = rect(0, 0, 10, 10);
    let b = rect(12, 1, 10, 10);
    assert!(Det::boxes_overlap_with_threshold(&a, &b, 3));
    assert_eq!(sides(&Det::merge_boxes(&a, &b)), (0, 0, 22, 11));
    let merged = Det::merge_overlapping_boxes(vec![a, b], 3);
    assert_eq!(all_sides(&merged), vec![(0, 0, 22, 11)]);
}

#[test]
fn horizontal_reach_of_the_threshold() {
    let a = rect(0, 0, 10, 10);
    // a reaches to 9; widened by 1 on both sides, boxes up to column 11 touch it
    assert!(Det::boxes_overlap_with_threshold(&a, &rect(11, 0, 10, 10), 1));
    assert!(!Det::boxes_overlap_with_threshold(&a, &rect(12, 0, 10, 10), 1));
    assert!(Det::boxes_overlap_with_threshold(&rect(11, 0, 10, 10), &a, 1));
    assert!(!Det::boxes_overlap_with_threshold(&rect(12, 0, 10, 10), &a, 1));
    // without widening the boxes have to share a column
    assert!(Det::boxes_overlap_with_threshold(&a, &rect(9, 0, 10, 10), 0));
    assert!(!Det::boxes_overlap_with_threshold(&a, &rect(10, 0, 10, 10), 0));
    // a negative threshold narrows the boxes
    assert!(Det::boxes_overlap_with_threshold(&a, &rect(7, 0, 10, 10), -1));
    assert!(!Det::boxes_overlap_with_threshold(&a, &rect(8, 0, 10, 10), -1));
}

#[test]
fn vertical_slack_is_two_fifths_of_the_smaller_height() {
    let a = rect(0, 0, 10, 10);
    // the slack for heights 10 and 9 is floor(3.6) = 3: a reaches down to 9 + 3
    assert!(Det::boxes_overlap_with_threshold(&a, &rect(0, 12, 10, 9), 0));
    assert!(!Det::boxes_overlap_with_threshold(&a, &rect(0, 13, 10, 9), 0));
    // the slack for heights 10 and 10 is 4
    assert!(Det::boxes_overlap_with_threshold(&a, &rect(0, 13, 10, 10), 0));
    assert!(!Det::boxes_overlap_with_threshold(&a, &rect(0, 14, 10, 10), 0));
    assert!(Det::boxes_overlap_with_threshold(&rect(0, 13, 10, 10), &a, 0));
    assert!(!Det::boxes_overlap_with_threshold(&rect(0, 14, 10, 10), &a, 0));
    // heights 1 and 2 give no slack
    assert!(Det::boxes_overlap_with_threshold(&rect(0, 0, 5, 2), &rect(0, 1, 5, 1), 0));
    assert!(!Det::boxes_overlap_with_threshold(&rect(0, 0, 5, 2), &rect(0, 3, 5, 1), 0));
}

#[test]
fn merge_follows_chains() {
    // a touches b, and only the union of a and b touches c
    let a = rect(0, 0, 10, 10);
    let b = rect(10, 0, 10, 10);
    let c = rect(20, 0, 10, 10);
    assert!(!Det::boxes_overlap_with_threshold(&a, &c, 1));
    let merged = Det::merge_overlapping_boxes(vec![a, c, b], 1);
    assert_eq!(all_sides(&merged), vec![(0, 0, 30, 10)]);
    let merged = Det::merge_overlapping_boxes(vec![c, a, b], 1);
    assert_eq!(all_sides(&merged), vec![(0, 0, 30, 10)]);
}

#[test]
fn merge_keeps_what_lies_apart() {
    let boxes = vec![rect(0, 0, 10, 10), rect(100, 0, 10, 10), rect(0, 100, 10, 10)];
    let merged = Det::merge_overlapping_boxes(boxes.clone(), 1);
    assert_eq!(all_sides(&merged), all_sides(&boxes));
    assert_eq!(Det::merge_overlapping_boxes(Vec::new(), 1).len(), 0);
    let one = Det::merge_overlapping_boxes(vec![rect(3, 4, 5, 6)], 1);
    assert_eq!(all_sides(&one), vec![(3, 4, 5, 6)]);
}

#[test]
fn merge_emits_in_the_order_of_becoming_final() {
    let boxes = vec![
        rect(0, 0, 10, 10),
        rect(50, 50, 10, 10),
        rect(8, 2, 10, 10),
        rect(58, 52, 10, 10),
        rect(200, 0, 5, 5),
    ];
    let merged = Det::merge_overlapping_boxes(boxes, 1);
    assert_eq!(all_sides(&merged), vec![(0, 0, 18, 12), (50, 50, 18, 12), (200, 0, 5, 5)]);
}

#[test]
fn merging_again_changes_nothing_where_nothing_can_merge() {
    let boxes = vec![
        rect(0, 0, 10, 10),
        rect(9, 0, 10, 10),
        rect(40, 40, 10, 10),
        rect(45, 42, 20, 10),
        rect(100, 0, 3, 3),
    ];
    let once = Det::merge_overlapping_boxes(boxes.clone(), 2);
    assert!(once.len() <= boxes.len());
    for i in 0..once.len() {
        for j in (i + 1)..once.len() {
            assert!(!Det::boxes_overlap_with_threshold(&once[i], &once[j], 2));
        }
    }
    let twice = Det::merge_overlapping_boxes(once.clone(), 2);
    assert_eq!(all_sides(&twice), all_sides(&once));
    // every box that went in lies inside a box that came out
    for b in &boxes {
        assert!(once.iter().any(|m| m.left() <= b.left() && m.top() <= b.top() && b.right()
            <= m.right() && b.bottom() <= m.bottom()));
    }
}

#[test]
fn a_later_union_may_reach_an_earlier_box() {
    // e is final before b1 and b3 merge; their union lies close to e
    let e = rect(20, 0, 10, 10);
    let b1 = rect(0, 12, 11, 10);
    let b3 = rect(10, 20, 30, 10);
    assert!(!Det::boxes_overlap_with_threshold(&e, &b1, 0));
    assert!(!Det::boxes_overlap_with_threshold(&e, &b3, 0));
    let once = Det::merge_overlapping_boxes(vec![e, b1, b3], 0);
    assert_eq!(all_sides(&once), vec![(20, 0, 10, 10), (0, 12, 40, 18)]);
    assert!(Det::boxes_overlap_with_threshold(&once[0], &once[1], 0));
    let twice = Det::merge_overlapping_boxes(once, 0);
    assert_eq!(all_sides(&twice), vec![(0, 0, 40, 30)]);
}

#[test]
fn pad_lengths() {
    assert_eq!(Det::get_pad_length(0), 0);
    assert_eq!(Det::get_pad_length(1), 32);
    assert_eq!(Det::get_pad_length(32), 32);
    assert_eq!(Det::get_pad_length(33), 64);
    assert_eq!(Det::get_pad_length(100), 128);
    assert_eq!(Det::get_pad_length(u32::MAX), 4294967296);
}

fn points(list: &[(u32, u32)]) -> Vec<Point> {
    list.iter().map(|p| Point { x: p.0, y: p.1 }).collect()
}

#[test]
fn bounding_boxes() {
    assert!(Det::bounding_rect(&[]).is_none());
    let r = Det::bounding_rect(&points(&[(5, 9), (11, 3), (7, 20), (2, 4)])).unwrap();
    assert_eq!(sides(&r), (2, 3, 10, 18));
    // a spread of 5 is too small, a spread of 6 is enough
    assert!(Det::bounding_rect(&points(&[(0, 0), (5, 6)])).is_none());
    assert!(Det::bounding_rect(&points(&[(0, 0), (6, 5)])).is_none());
    let r = Det::bounding_rect(&points(&[(0, 0), (6, 6)])).unwrap();
    assert_eq!(sides(&r), (0, 0, 7, 7));
    assert!(Det::bounding_rect(&points(&[(3, 3)])).is_none());
    assert!(Det::bounding_rect(&points(&[(0, 0), (2147483648, 10)])).is_none());
    assert!(Det::bounding_rect(&points(&[(2147483000, 0), (2147483647, 10)])).is_none());
    assert!(Det::bounding_rect(&points(&[(0, 0), (u32::MAX, u32::MAX)])).is_none());
    let far = Det::bounding_rect(&points(&[(2147483000, 0), (2147483646, 10)])).unwrap();
    assert_eq!(sides(&far), (2147483000, 0, 647, 11));
    assert_eq!((far.right(), far.bottom()), (2147483646, 10));
}

#[test]
fn boxes_grow_by_the_border() {
    let det = Det::new();
    assert_eq!(det.rect_border_size(), 10);
    assert!(!det.merge_boxes_enabled());
    assert_eq!(det.merge_threshold(), 1);
    let grown = det.expand_box(&rect(20, 10, 20, 20), 64, 64);
    assert_eq!(sides(&grown), (10, 0, 40, 40));
    let grown = det.expand_box(&rect(50, 50, 10, 10), 64, 64);
    assert_eq!(sides(&grown), (40, 40, 24, 24));
    let det = det.with_rect_border_size(0);
    assert_eq!(sides(&det.expand_box(&rect(50, 50, 10, 10), 64, 64)), (50, 50, 10, 10));
    let det = det.with_rect_border_size(u32::MAX);
    assert_eq!(sides(&det.expand_box(&rect(50, 50, 10, 10), 64, 64)), (0, 0, 64, 64));
}

#[test]
fn boxes_only_of_outer_contours() {
    let det = Det::new().with_rect_border_size(2);
    let contours = vec![
        Contour { points: points(&[(10, 10), (30, 10), (30, 20), (10, 20)]), parent: None },
        Contour { points: points(&[(12, 12), (28, 12), (28, 19), (12, 19)]), parent: Some(0) },
        Contour { points: points(&[(40, 40), (42, 47)]), parent: None },
        Contour { points: Vec::new(), parent: None },
        Contour { points: points(&[(0, 50), (7, 50), (7, 63)]), parent: None },
    ];
    let boxes = det.boxes_from_contours(&contours, 64, 64);
    assert_eq!(all_sides(&boxes), vec![(8, 8, 25, 15), (0, 48, 10, 16)]);
}

fn padded_scores(width: u32, height: u32, blocks: &[(u32, u32, u32, u32)]) -> Vec<u8> {
    let pad_w = Det::get_pad_length(width) as usize;
    let pad_h = Det::get_pad_length(height) as usize;
    let mut scores = vec![0u8; pad_w * pad_h];
    for b in blocks {
        for y in b.1..=b.3 {
            for x in b.0..=b.2 {
                scores[y as usize * pad_w + x as usize] = 255;
            }
        }
    }
    scores
}

#[test]
fn probability_map_drops_the_padding() {
    let mut scores = vec![0u8; 32 * 32];
    for (k, s) in scores.iter_mut().enumerate() {
        *s = (k % 251) as u8;
    }
    let map = Det::probability_map(&scores, 3, 2).unwrap();
    assert_eq!((map.width(), map.height()), (3, 2));
    assert_eq!(map.as_raw(), &vec![0, 1, 2, 32, 33, 34]);
    assert_eq!(map.get(2, 1), 34);
}

#[test]
fn probability_map_refuses_a_wrong_shape() {
    let r = Det::probability_map(&vec![0u8; 32 * 32 - 1], 3, 2);
    assert!(matches!(r, Err(OcrError::ShapeError(_))));
    let r = Det::probability_map(&vec![0u8; 6], 3, 2);
    assert!(matches!(r, Err(OcrError::ShapeError(_))));
    let r = Det::probability_map(&[], 65536, 65536);
    assert!(matches!(r, Err(OcrError::InputError(_))));
    assert!(Det::probability_map(&[], 0, 0).is_ok());
    assert!(Det::probability_map(&[], 0, 5).is_ok());
    assert!(Det::probability_map(&[0], 0, 5).is_err());
}

#[test]
fn gray_map_needs_a_buffer_of_the_right_length() {
    assert!(GrayMap::new(2, 3, vec![0; 6]).is_some());
    assert!(GrayMap::new(2, 3, vec![0; 5]).is_none());
    assert!(GrayMap::new(65536, 65536, Vec::new()).is_none());
    assert!(GrayMap::new(0, u32::MAX, Vec::new()).is_some());
}

#[test]
fn text_regions_of_a_map() {
    let det = Det::new();
    let scores = padded_scores(64, 64, &[(20, 10, 40, 30)]);
    let rects = det.find_text_rect(&scores, 64, 64).unwrap();
    assert_eq!(all_sides(&rects), vec![(10, 0, 41, 41)]);
    // values at the threshold are background
    let mut faint = scores.clone();
    for s in faint.iter_mut() {
        if *s == 255 {
            *s = 200;
        }
    }
    assert_eq!(det.find_text_rect(&faint, 64, 64).unwrap().len(), 0);
    for s in faint.iter_mut() {
        if *s == 200 {
            *s = 201;
        }
    }
    assert_eq!(all_sides(&det.find_text_rect(&faint, 64, 64).unwrap()), vec![(10, 0, 41, 41)]);
}

#[test]
fn text_regions_ignore_holes_and_noise() {
    let det = Det::new().with_rect_border_size(1);
    let mut scores = padded_scores(100, 60, &[(10, 10, 50, 40), (70, 5, 73, 8)]);
    let pad_w = Det::get_pad_length(100) as usize;
    for y in 20..30usize {
        for x in 20..40usize {
            scores[y * pad_w + x] = 0;
        }
    }
    let rects = det.find_text_rect(&scores, 100, 60).unwrap();
    assert_eq!(all_sides(&rects), vec![(9, 9, 43, 33)]);
}

#[test]
fn text_regions_are_merged_on_demand() {
    let scores = padded_scores(128, 64, &[(10, 20, 40, 40), (50, 22, 90, 42)]);
    let apart = Det::new().with_rect_border_size(2);
    assert_eq!(
        all_sides(&apart.find_text_rect(&scores, 128, 64).unwrap()),
        vec![(8, 18, 35, 25), (48, 20, 45, 25)]
    );
    let merging = apart.with_merge_boxes(true).with_merge_threshold(3);
    assert!(merging.merge_boxes_enabled());
    assert_eq!(merging.merge_threshold(), 3);
    assert_eq!(
        all_sides(&merging.find_text_rect(&scores, 128, 64).unwrap()),
        vec![(8, 18, 85, 27)]
    );
    let strict = merging.with_merge_threshold(2);
    assert_eq!(strict.find_text_rect(&scores, 128, 64).unwrap().len(), 2);
}

fn test_image(width: u32, height: u32) -> Image {
    let mut data = Vec::new();
    for y in 0..height {
        for x in 0..width {
            data.push((x % 256) as u8);
            data.push((y % 256) as u8);
            data.push(((x + y) % 256) as u8);
        }
    }
    Image::from_raw(width, height, 3, data).unwrap()
}

#[test]
fn text_images_are_the_regions_cut_out() {
    let det = Det::new().with_rect_border_size(3);
    let image = test_image(100, 80);
    let scores = padded_scores(100, 80, &[(10, 10, 30, 25), (60, 40, 90, 70)]);
    let rects = det.find_text_rect(&scores, 100, 80).unwrap();
    assert_eq!(all_sides(&rects), vec![(7, 7, 27, 22), (57, 37, 37, 37)]);
    let plain = det.find_text_img(&image, &scores).unwrap();
    let efficient = det.find_text_img_efficient(&image, &scores).unwrap();
    assert_eq!(plain.len(), 2);
    assert_eq!(efficient.len(), 2);
    for (i, r) in rects.iter().enumerate() {
        assert_eq!(plain[i].dimensions(), (r.width(), r.height()));
        assert_eq!(plain[i].as_raw(), efficient[i].as_raw());
        assert_eq!(plain[i].get_sample(0, 0, 0), (r.left() % 256) as u8);
        assert_eq!(plain[i].get_sample(0, 0, 1), (r.top() % 256) as u8);
        assert_eq!(plain[i].get_sample(r.width() - 1, r.height() - 1, 2), ((r.right() + r.bottom()) % 256) as u8);
    }
    assert!(matches!(det.find_text_img(&image, &scores[1..]), Err(OcrError::ShapeError(_))));
    assert!(matches!(
        det.find_text_img_efficient(&image, &scores[1..]),
        Err(OcrError::ShapeError(_))
    ));
}

#[test]
fn many_text_images() {
    let det = Det::new().with_rect_border_size(0);
    let image = test_image(200, 200);
    let mut blocks = Vec::new();
    for row in 0..4u32 {
        for col in 0..4u32 {
            blocks.push((col * 50 + 5, row * 50 + 5, col * 50 + 25, row * 50 + 20));
        }
    }
    let scores = padded_scores(200, 200, &blocks);
    let rects = det.find_text_rect(&scores, 200, 200).unwrap();
    assert_eq!(rects.len(), 16);
    let plain = det.find_text_img(&image, &scores).unwrap();
    let efficient = det.find_text_img_efficient(&image, &scores).unwrap();
    assert_eq!(efficient.len(), 16);
    for i in 0..16 {
        assert_eq!(plain[i].dimensions(), (21, 16));
        assert_eq!(plain[i].as_raw(), efficient[i].as_raw());
    }
    let none = det.find_text_img_efficient(&image, &padded_scores(200, 200, &[])).unwrap();
    assert_eq!(none.len(), 0);
}

#[test]
fn clamping_to_an_image() {
    let inside = rect(4, 5, 6, 7);
    assert_eq!(sides(&inside.clamp_to(10, 12).unwrap()), (4, 5, 6, 7));
    assert_eq!(sides(&inside.clamp_to(8, 8).unwrap()), (4, 5, 4, 3));
    assert_eq!(sides(&rect(-3, -2, 10, 10).clamp_to(5, 20).unwrap()), (0, 0, 5, 8));
    assert!(rect(10, 0, 5, 5).clamp_to(10, 10).is_none());
    assert!(rect(0, 10, 5, 5).clamp_to(10, 10).is_none());
    assert!(rect(-5, 0, 5, 5).clamp_to(10, 10).is_none());
    assert_eq!(sides(&rect(-5, 0, 6, 5).clamp_to(10, 10).unwrap()), (0, 0, 1, 5));
    assert!(rect(0, 0, 5, 5).clamp_to(0, 10).is_none());
    let wide = rect(i32::MIN, i32::MIN, u32::MAX, u32::MAX);
    assert_eq!(sides(&wide.clamp_to(u32::MAX, 7).unwrap()), (0, 0, 2147483647, 7));
}

#[test]
fn contours_inside_an_image() {
    let contours = vec![
        Contour { points: points(&[(0, 0), (63, 63)]), parent: None },
        Contour { points: Vec::new(), parent: Some(0) },
        Contour { points: points(&[(5, 63), (63, 5)]), parent: None },
    ];
    assert!(Det::contours_fit(&contours, 64, 64));
    assert!(!Det::contours_fit(&contours, 63, 64));
    assert!(!Det::contours_fit(&contours, 64, 63));
    assert!(Det::contours_fit(&[], 0, 0));
}

fn union_area(regions: &[TextRegion]) -> usize {
    let mut covered = vec![false; 200 * 200];
    for r in regions {
        for y in r.top()..=r.bottom() {
            for x in r.left()..=r.right() {
                covered[y as usize * 200 + x as usize] = true;
            }
        }
    }
    covered.iter().filter(|c| **c).count()
}

#[test]
fn merging_loses_no_ground() {
    let boxes = vec![
        rect(0, 0, 10, 10),
        rect(12, 1, 10, 10),
        rect(40, 40, 10, 10),
        rect(45, 42, 20, 10),
        rect(100, 0, 3, 3),
        rect(21, 5, 30, 4),
        rect(150, 150, 50, 50),
        rect(160, 100, 5, 49),
    ];
    for threshold in [-2, 0, 1, 3, 10, 60] {
        let merged = Det::merge_overlapping_boxes(boxes.clone(), threshold);
        assert!(merged.len() <= boxes.len());
        assert!(!merged.is_empty());
        assert!(union_area(&merged) >= union_area(&boxes));
        for r in &merged {
            assert!(r.fits_within(200, 200));
        }
    }
    let merged = Det::merge_overlapping_boxes(boxes.clone(), 3);
    assert_eq!(union_area(&boxes), 100 + 100 + 100 + 200 - 40 + 9 + 120 - 4 + 2500 + 245);
    assert_eq!(
        all_sides(&merged),
        vec![(0, 0, 51, 11), (40, 40, 25, 12), (100, 0, 3, 3), (150, 100, 50, 100)]
    );
}

#[test]
fn bounding_box_holds_every_point() {
    let list = points(&[(5, 9), (11, 3), (7, 20), (2, 4), (11, 20), (2, 3)]);
    let r = Det::bounding_rect(&list).unwrap();
    for p in &list {
        assert!(r.left() as u32 <= p.x && p.x <= r.right() as u32);
        assert!(r.top() as u32 <= p.y && p.y <= r.bottom() as u32);
    }
    assert_eq!((r.left(), r.top(), r.right(), r.bottom()), (2, 3, 11, 20));
    // without a border the text box of a block is the block
    let det = Det::new().with_rect_border_size(0);
    let scores = padded_scores(64, 64, &[(20, 10, 40, 30)]);
    let rects = det.find_text_rect(&scores, 64, 64).unwrap();
    assert_eq!(all_sides(&rects), vec![(20, 10, 21, 21)]);
    // a block that reaches the last row and column
    let scores = padded_scores(64, 64, &[(50, 50, 63, 63)]);
    let rects = det.find_text_rect(&scores, 64, 64).unwrap();
    assert_eq!(all_sides(&rects), vec![(50, 50, 14, 14)]);
}
