use watermark_removal::morphology::{any_marked, dilate};
use watermark_removal::raster::Mask;

fn mask_with(width: u32, height: u32, marks: &[(u32, u32)]) -> Mask {
    let mut mask = Mask::new(width, height);
    for &(x, y) in marks {
        mask.put(x, y, 255);
    }
    mask
}

#[test]
fn any_marked_finds_a_single_mark() {
    assert!(!any_marked(&Mask::new(4, 4)));
    assert!(!any_marked(&Mask::new(0, 0)));
    assert!(any_marked(&mask_with(4, 4, &[(3, 3)])));
    assert!(any_marked(&Mask::from_raw(2, 1, vec![0, 1]).unwrap()));
}

#[test]
fn dilate_by_one_grows_a_pixel_to_a_square() {
    let grown = dilate(&mask_with(5, 5, &[(2, 2)]), 1);
    let expected: Vec<u8> = vec![
        0, 0, 0, 0, 0, //
        0, 255, 255, 255, 0, //
        0, 255, 255, 255, 0, //
        0, 255, 255, 255, 0, //
        0, 0, 0, 0, 0,
    ];
    assert_eq!(grown.width(), 5);
    assert_eq!(grown.height(), 5);
    assert_eq!(grown.into_raw(), expected);
}

#[test]
fn dilate_by_three_reaches_three_pixels() {
    let grown = dilate(&mask_with(9, 9, &[(4, 4)]), 3);
    for y in 0..9u32 {
        for x in 0..9u32 {
            let near = (1..=7).contains(&x) && (1..=7).contains(&y);
            assert_eq!(grown.get(x, y), if near { 255 } else { 0 });
        }
    }
}

#[test]
fn dilate_is_cut_at_the_border() {
    let grown = dilate(&mask_with(4, 3, &[(0, 0)]), 1);
    let expected: Vec<u8> = vec![
        255, 255, 0, 0, //
        255, 255, 0, 0, //
        0, 0, 0, 0,
    ];
    assert_eq!(grown.into_raw(), expected);
}

#[test]
fn dilate_makes_any_mark_white() {
    let source = Mask::from_raw(3, 1, vec![0, 0, 7]).unwrap();
    assert_eq!(dilate(&source, 1).into_raw(), vec![0, 255, 255]);
    assert_eq!(dilate(&source, 0).into_raw(), vec![0, 0, 255]);
}

#[test]
fn dilate_of_an_empty_mask_is_empty() {
    assert_eq!(dilate(&Mask::new(6, 4), 3).into_raw(), vec![0u8; 24]);
    assert_eq!(dilate(&Mask::new(1, 1), 3).into_raw(), vec![0u8; 1]);
    assert_eq!(dilate(&Mask::new(2, 1), 3).into_raw(), vec![0u8; 2]);
    assert_eq!(dilate(&Mask::new(0, 0), 1).into_raw(), Vec::<u8>::new());
}
