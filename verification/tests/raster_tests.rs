use watermark_removal::raster::{LabelMap, Mask, Raster, Rgb};
use watermark_removal::region::Region;

#[test]
fn mask_from_raw_wants_one_byte_per_pixel() {
    assert!(Mask::from_raw(3, 2, vec![0; 6]).is_some());
    assert!(Mask::from_raw(3, 2, vec![0; 5]).is_none());
    assert!(Mask::from_raw(3, 2, vec![0; 7]).is_none());
    assert!(Mask::from_raw(0, 5, vec![]).is_some());
    assert!(Mask::from_raw(u32::MAX, u32::MAX, vec![0; 4]).is_none());
}

#[test]
fn mask_is_row_major() {
    let mask = Mask::from_raw(3, 2, vec![1, 2, 3, 4, 5, 6]).unwrap();
    assert_eq!(mask.width(), 3);
    assert_eq!(mask.height(), 2);
    assert_eq!(mask.get(0, 0), 1);
    assert_eq!(mask.get(2, 0), 3);
    assert_eq!(mask.get(0, 1), 4);
    assert_eq!(mask.get(2, 1), 6);
}

#[test]
fn mask_put_changes_one_cell() {
    let mut mask = Mask::new(4, 3);
    assert_eq!(mask.as_raw(), &vec![0u8; 12]);
    mask.put(1, 2, 255);
    let mut expected = vec![0u8; 12];
    expected[9] = 255;
    assert_eq!(mask.as_raw(), &expected);
    assert_eq!(mask.clone().into_raw(), expected);
}

#[test]
fn raster_from_raw_wants_three_bytes_per_pixel() {
    assert!(Raster::from_raw(2, 2, vec![0; 12]).is_some());
    assert!(Raster::from_raw(2, 2, vec![0; 4]).is_none());
    assert!(Raster::from_raw(2, 2, vec![0; 13]).is_none());
    assert!(Raster::from_raw(0, 0, vec![]).is_some());
}

#[test]
fn raster_pixels_are_interleaved() {
    let raster = Raster::from_raw(2, 2, vec![1, 2, 3, 4, 5, 6, 7, 8, 9, 10, 11, 12]).unwrap();
    assert_eq!(raster.width(), 2);
    assert_eq!(raster.height(), 2);
    assert_eq!(raster.get_pixel(0, 0), Rgb { r: 1, g: 2, b: 3 });
    assert_eq!(raster.get_pixel(1, 0), Rgb { r: 4, g: 5, b: 6 });
    assert_eq!(raster.get_pixel(0, 1), Rgb { r: 7, g: 8, b: 9 });
    assert_eq!(raster.get_pixel(1, 1), Rgb { r: 10, g: 11, b: 12 });
}

#[test]
fn raster_put_pixel_changes_one_pixel() {
    let mut raster = Raster::from_raw(2, 2, vec![0; 12]).unwrap();
    raster.put_pixel(1, 1, Rgb { r: 9, g: 8, b: 7 });
    assert_eq!(raster.as_raw(), &vec![0, 0, 0, 0, 0, 0, 0, 0, 0, 9, 8, 7]);
    let copy = raster.clone();
    assert_eq!(copy.into_raw(), raster.into_raw());
}

#[test]
fn label_map_from_raw_wants_one_label_per_pixel() {
    assert!(LabelMap::from_raw(2, 3, vec![0; 6]).is_some());
    assert!(LabelMap::from_raw(2, 3, vec![0; 2]).is_none());
    let labels = LabelMap::from_raw(2, 2, vec![0, 7, 8, 0]).unwrap();
    assert_eq!(labels.width(), 2);
    assert_eq!(labels.height(), 2);
    assert_eq!(labels.get(1, 0), 7);
    assert_eq!(labels.get(0, 1), 8);
}

#[test]
fn region_is_clipped_to_the_image() {
    let region = Region { x: 2, y: 3, width: 10, height: 4 };
    assert_eq!(region.clip_x(8), 8);
    assert_eq!(region.clip_x(12), 12);
    assert_eq!(region.clip_x(20), 12);
    assert_eq!(region.clip_y(5), 5);
    assert_eq!(region.clip_y(7), 7);
    assert_eq!(region.clip_y(100), 7);
}

#[test]
fn region_clipping_does_not_overflow() {
    let region = Region { x: u32::MAX, y: u32::MAX - 1, width: u32::MAX, height: 2 };
    assert_eq!(region.clip_x(10), 10);
    assert_eq!(region.clip_x(u32::MAX), u32::MAX);
    assert_eq!(region.clip_y(u32::MAX), u32::MAX);
}

#[test]
fn region_grows_to_hold_a_point() {
    let region = Region { x: 4, y: 4, width: 2, height: 2 };
    assert_eq!(region.extended(5, 5), region);
    assert_eq!(region.extended(1, 5), Region { x: 1, y: 4, width: 5, height: 2 });
    assert_eq!(region.extended(9, 4), Region { x: 4, y: 4, width: 6, height: 2 });
    assert_eq!(region.extended(4, 0), Region { x: 4, y: 0, width: 2, height: 6 });
    assert_eq!(region.extended(7, 8), Region { x: 4, y: 4, width: 4, height: 5 });
}
