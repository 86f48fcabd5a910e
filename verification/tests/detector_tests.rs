use watermark_removal::detector::{
    bounding_boxes, combine_masks, components, detect_regions, find_regions, gray_of, grayscale, keep_large,
    Component, BRIDGE_RADIUS,
};
use watermark_removal::raster::{LabelMap, Mask, Raster, Rgb};
use watermark_removal::region::Region;

fn mask_of(width: u32, height: u32, marks: &[(u32, u32)]) -> Mask {
    let mut mask = Mask::new(width, height);
    for &(x, y) in marks {
        mask.put(x, y, 255);
    }
    mask
}

#[test]
fn bridge_radius_is_three() {
    assert_eq!(BRIDGE_RADIUS, 3);
}

#[test]
fn combine_marks_where_either_mask_does() {
    let first = Mask::from_raw(3, 2, vec![0, 1, 0, 255, 0, 0]).unwrap();
    let second = Mask::from_raw(3, 2, vec![0, 0, 7, 255, 0, 0]).unwrap();
    let both = combine_masks(&first, &second);
    assert_eq!(both.width(), 3);
    assert_eq!(both.height(), 2);
    assert_eq!(both.into_raw(), vec![0, 255, 255, 255, 0, 0]);
}

#[test]
fn combine_reads_a_wider_second_mask_by_position() {
    let first = Mask::from_raw(2, 2, vec![0, 0, 0, 0]).unwrap();
    let second = Mask::from_raw(3, 2, vec![0, 0, 9, 0, 9, 0]).unwrap();
    assert_eq!(combine_masks(&first, &second).into_raw(), vec![0, 0, 0, 255]);
}

#[test]
fn components_come_in_order_of_first_sight() {
    let labels = LabelMap::from_raw(
        5,
        4,
        vec![
            0, 7, 0, 0, 3, //
            7, 7, 0, 3, 3, //
            0, 0, 0, 0, 3, //
            9, 0, 7, 0, 0,
        ],
    ).unwrap();
    let found = components(&labels);
    assert_eq!(
        found,
        vec![
            Component { label: 7, bounds: Region { x: 0, y: 0, width: 3, height: 4 } },
            Component { label: 3, bounds: Region { x: 3, y: 0, width: 2, height: 3 } },
            Component { label: 9, bounds: Region { x: 0, y: 3, width: 1, height: 1 } },
        ]
    );
}

#[test]
fn components_of_background_are_none() {
    assert_eq!(components(&LabelMap::from_raw(3, 3, vec![0; 9]).unwrap()), vec![]);
    assert_eq!(components(&LabelMap::from_raw(0, 0, vec![]).unwrap()), vec![]);
}

#[test]
fn area_filter_keeps_boxes_at_or_above_the_bound() {
    let comps = vec![
        Component { label: 1, bounds: Region { x: 0, y: 0, width: 2, height: 3 } },
        Component { label: 2, bounds: Region { x: 5, y: 5, width: 1, height: 5 } },
        Component { label: 3, bounds: Region { x: 9, y: 9, width: 3, height: 2 } },
    ];
    assert_eq!(
        keep_large(&comps, 6),
        vec![Region { x: 0, y: 0, width: 2, height: 3 }, Region { x: 9, y: 9, width: 3, height: 2 }]
    );
    assert_eq!(keep_large(&comps, 7), vec![]);
    assert_eq!(keep_large(&comps, 0).len(), 3);
    let huge = vec![Component { label: 1, bounds: Region { x: 0, y: 0, width: u32::MAX, height: u32::MAX } }];
    assert_eq!(keep_large(&huge, u64::MAX), vec![]);
    assert_eq!(keep_large(&huge, 18446744065119617025).len(), 1);
}

#[test]
fn bounding_boxes_measure_the_box_not_the_pixels() {
    // An L of three pixels has a 2x2 box: area 4.
    let labels = LabelMap::from_raw(3, 3, vec![1, 0, 0, 1, 1, 0, 0, 0, 2]).unwrap();
    assert_eq!(bounding_boxes(&labels, 4), vec![Region { x: 0, y: 0, width: 2, height: 2 }]);
    assert_eq!(bounding_boxes(&labels, 5), vec![]);
    assert_eq!(
        bounding_boxes(&labels, 1),
        vec![Region { x: 0, y: 0, width: 2, height: 2 }, Region { x: 2, y: 2, width: 1, height: 1 }]
    );
}

#[test]
fn find_regions_separates_blobs() {
    let mask = mask_of(8, 6, &[(1, 1), (2, 1), (1, 2), (6, 4), (6, 5)]);
    assert_eq!(
        find_regions(&mask, 1),
        vec![Region { x: 1, y: 1, width: 2, height: 2 }, Region { x: 6, y: 4, width: 1, height: 2 }]
    );
    assert_eq!(find_regions(&mask, 3), vec![Region { x: 1, y: 1, width: 2, height: 2 }]);
}

#[test]
fn find_regions_joins_diagonal_neighbours() {
    let mask = mask_of(5, 5, &[(0, 0), (1, 1), (2, 2), (4, 0)]);
    assert_eq!(
        find_regions(&mask, 1),
        vec![Region { x: 0, y: 0, width: 3, height: 3 }, Region { x: 4, y: 0, width: 1, height: 1 }]
    );
}

#[test]
fn find_regions_orders_by_first_pixel_in_reading_order() {
    // The blob on the right starts higher up, so it comes first.
    let mask = mask_of(7, 4, &[(0, 2), (0, 3), (5, 0), (5, 1)]);
    assert_eq!(
        find_regions(&mask, 1),
        vec![Region { x: 5, y: 0, width: 1, height: 2 }, Region { x: 0, y: 2, width: 1, height: 2 }]
    );
}

#[test]
fn find_regions_of_an_empty_mask_is_empty() {
    assert_eq!(find_regions(&Mask::new(6, 6), 0), vec![]);
    assert_eq!(find_regions(&Mask::new(0, 0), 0), vec![]);
}

#[test]
fn detect_grows_marks_and_bridges_gaps() {
    let color = mask_of(20, 12, &[(5, 5)]);
    let edges = mask_of(20, 12, &[(10, 5)]);
    // Each mark grows to a 7x7 square; the squares overlap and form one blob.
    assert_eq!(detect_regions(&color, &edges, 1), vec![Region { x: 2, y: 2, width: 12, height: 7 }]);
}

#[test]
fn detect_keeps_far_marks_apart() {
    let color = mask_of(30, 10, &[(4, 4)]);
    let edges = mask_of(30, 10, &[(20, 4)]);
    assert_eq!(
        detect_regions(&color, &edges, 1),
        vec![Region { x: 1, y: 1, width: 7, height: 7 }, Region { x: 17, y: 1, width: 7, height: 7 }]
    );
}

#[test]
fn detect_filters_by_area() {
    let color = mask_of(40, 40, &[(10, 10), (11, 10), (12, 10), (30, 30)]);
    let edges = Mask::new(40, 40);
    let all = detect_regions(&color, &edges, 0);
    assert_eq!(all, vec![Region { x: 7, y: 7, width: 9, height: 7 }, Region { x: 27, y: 27, width: 7, height: 7 }]);
    assert_eq!(detect_regions(&color, &edges, 49), all);
    assert_eq!(detect_regions(&color, &edges, 50), vec![Region { x: 7, y: 7, width: 9, height: 7 }]);
    assert_eq!(detect_regions(&color, &edges, 63), vec![Region { x: 7, y: 7, width: 9, height: 7 }]);
    assert_eq!(detect_regions(&color, &edges, 64), vec![]);
    for region in detect_regions(&color, &edges, 50) {
        assert!(u64::from(region.width) * u64::from(region.height) >= 50);
    }
}

#[test]
fn detect_is_repeatable() {
    let color = mask_of(25, 25, &[(3, 3), (20, 4), (12, 18), (13, 19)]);
    let edges = mask_of(25, 25, &[(3, 20), (21, 21)]);
    let first = detect_regions(&color, &edges, 10);
    let second = detect_regions(&color, &edges, 10);
    assert_eq!(first, second);
    assert_eq!(first.len(), 5);
}

#[test]
fn detect_finds_nothing_in_clear_masks() {
    assert_eq!(detect_regions(&Mask::new(16, 16), &Mask::new(16, 16), 0), vec![]);
    assert_eq!(detect_regions(&Mask::new(1, 1), &Mask::new(1, 1), 0), vec![]);
    assert_eq!(detect_regions(&Mask::new(2, 1), &Mask::new(2, 1), 0), vec![]);
}

#[test]
fn detect_clips_growth_at_the_border() {
    let color = mask_of(6, 6, &[(0, 0)]);
    assert_eq!(detect_regions(&color, &Mask::new(6, 6), 1), vec![Region { x: 0, y: 0, width: 4, height: 4 }]);
}

#[test]
fn gray_level_weighs_the_channels() {
    assert_eq!(gray_of(Rgb { r: 0, g: 0, b: 0 }), 0);
    assert_eq!(gray_of(Rgb { r: 255, g: 255, b: 255 }), 255);
    assert_eq!(gray_of(Rgb { r: 255, g: 0, b: 0 }), 54);
    assert_eq!(gray_of(Rgb { r: 0, g: 255, b: 0 }), 182);
    assert_eq!(gray_of(Rgb { r: 0, g: 0, b: 255 }), 18);
    assert_eq!(gray_of(Rgb { r: 100, g: 150, b: 200 }), 142);
}

#[test]
fn grayscale_keeps_the_shape() {
    let image = Raster::from_raw(2, 2, vec![255, 0, 0, 0, 255, 0, 0, 0, 255, 9, 9, 9]).unwrap();
    let gray = grayscale(&image);
    assert_eq!(gray.width(), 2);
    assert_eq!(gray.height(), 2);
    assert_eq!(gray.into_raw(), vec![54, 182, 18, 9]);
    assert_eq!(grayscale(&Raster::from_raw(0, 3, vec![]).unwrap()).into_raw(), Vec::<u8>::new());
}

#[test]
fn grayscale_agrees_with_the_image_crate() {
    let mut data = Vec::new();
    for r in (0..=255u32).step_by(15) {
        for g in (0..=255u32).step_by(17) {
            for b in (0..=255u32).step_by(51) {
                data.extend_from_slice(&[r as u8, g as u8, b as u8]);
            }
        }
    }
    let width = 6;
    let height = (data.len() / 3 / 6) as u32;
    let ours = grayscale(&Raster::from_raw(width, height, data.clone()).unwrap());
    let theirs = image::imageops::grayscale(&image::RgbImage::from_raw(width, height, data).unwrap());
    assert_eq!(ours.into_raw(), theirs.into_raw());
}

#[test]
fn one_marked_pixel_is_one_region() {
    let mask = mask_of(1, 1, &[(0, 0)]);
    assert_eq!(find_regions(&mask, 1), vec![Region { x: 0, y: 0, width: 1, height: 1 }]);
    assert_eq!(find_regions(&mask, 0), vec![Region { x: 0, y: 0, width: 1, height: 1 }]);
    assert_eq!(find_regions(&mask, 2), vec![]);
    assert_eq!(find_regions(&Mask::new(1, 1), 0), vec![]);
    assert_eq!(
        detect_regions(&mask, &Mask::new(1, 1), 1),
        vec![Region { x: 0, y: 0, width: 1, height: 1 }]
    );
    assert_eq!(
        detect_regions(&Mask::new(1, 1), &mask, 1),
        vec![Region { x: 0, y: 0, width: 1, height: 1 }]
    );
}

#[test]
fn fully_marked_masks_are_one_region() {
    assert_eq!(find_regions(&mask_of(2, 1, &[(0, 0), (1, 0)]), 1), vec![Region { x: 0, y: 0, width: 2, height: 1 }]);
    assert_eq!(find_regions(&mask_of(1, 2, &[(0, 0), (0, 1)]), 1), vec![Region { x: 0, y: 0, width: 1, height: 2 }]);
    assert_eq!(
        find_regions(&mask_of(3, 3, &[(0, 0), (1, 0), (2, 0), (0, 1), (1, 1), (2, 1), (0, 2), (1, 2), (2, 2)]), 9),
        vec![Region { x: 0, y: 0, width: 3, height: 3 }]
    );
    assert_eq!(find_regions(&mask_of(2, 1, &[(1, 0)]), 1), vec![Region { x: 1, y: 0, width: 1, height: 1 }]);
    // A mark on a two-pixel image grows over both pixels.
    assert_eq!(
        detect_regions(&mask_of(2, 1, &[(1, 0)]), &Mask::new(2, 1), 1),
        vec![Region { x: 0, y: 0, width: 2, height: 1 }]
    );
}
