use watermark_removal::inpaint::{
    find_donors, find_frontier, has_valid_neighbor, Donor, Inpainting, Point, MAX_ITERATIONS, SEARCH_RADIUS,
};
use watermark_removal::raster::{Mask, Raster, Rgb};

fn mask_from(width: u32, height: u32, marks: &[(u32, u32)]) -> Mask {
    let mut mask = Mask::new(width, height);
    for &(x, y) in marks {
        mask.put(x, y, 255);
    }
    mask
}

fn square(x0: u32, y0: u32, x1: u32, y1: u32) -> Vec<(u32, u32)> {
    let mut cells = Vec::new();
    for y in y0..y1 {
        for x in x0..x1 {
            cells.push((x, y));
        }
    }
    cells
}

fn numbered_image(width: u32, height: u32) -> Raster {
    let mut data = Vec::new();
    for i in 0..width * height {
        data.push(i as u8);
        data.push((i + 100) as u8);
        data.push((i + 200) as u8);
    }
    Raster::from_raw(width, height, data).unwrap()
}

fn points(list: &[Point]) -> Vec<(u32, u32)> {
    list.iter().map(|p| (p.x, p.y)).collect()
}

#[test]
fn fill_constants() {
    assert_eq!(MAX_ITERATIONS, 500);
    assert_eq!(SEARCH_RADIUS, 2);
}

#[test]
fn neighbour_check_looks_at_the_eight_neighbours() {
    let mask = mask_from(5, 5, &square(1, 1, 4, 4));
    assert!(has_valid_neighbor(&mask, 1, 1));
    assert!(has_valid_neighbor(&mask, 3, 2));
    assert!(!has_valid_neighbor(&mask, 2, 2));
    // A clear cell two steps away does not count.
    let wide = mask_from(5, 1, &[(0, 0), (1, 0), (2, 0)]);
    assert!(!has_valid_neighbor(&wide, 0, 0));
    assert!(!has_valid_neighbor(&wide, 1, 0));
    assert!(has_valid_neighbor(&wide, 2, 0));
}

#[test]
fn neighbour_check_counts_diagonals_and_ignores_the_cell_itself() {
    let mut mask = mask_from(3, 3, &square(0, 0, 3, 3));
    assert!(!has_valid_neighbor(&mask, 1, 1));
    mask.put(1, 1, 0);
    assert!(!has_valid_neighbor(&mask, 1, 1));
    assert!(has_valid_neighbor(&mask, 0, 0));
    assert!(has_valid_neighbor(&mask, 2, 2));
}

#[test]
fn neighbour_check_is_clipped_at_the_border() {
    let full = mask_from(2, 2, &square(0, 0, 2, 2));
    assert!(!has_valid_neighbor(&full, 0, 0));
    assert!(!has_valid_neighbor(&full, 1, 1));
    let single = mask_from(1, 1, &[(0, 0)]);
    assert!(!has_valid_neighbor(&single, 0, 0));
    let far = Mask::new(4, 4);
    assert!(!has_valid_neighbor(&far, u32::MAX, u32::MAX));
    assert!(has_valid_neighbor(&far, 4, 4));
    assert!(!has_valid_neighbor(&far, 5, 5));
}

#[test]
fn frontier_is_the_rim_of_the_marked_area() {
    let mask = mask_from(7, 7, &square(2, 2, 5, 5));
    let rim = find_frontier(&mask);
    assert_eq!(
        points(&rim),
        vec![(2, 2), (3, 2), (4, 2), (2, 3), (4, 3), (2, 4), (3, 4), (4, 4)]
    );
}

#[test]
fn frontier_of_an_empty_or_full_mask_is_empty() {
    assert_eq!(find_frontier(&Mask::new(4, 4)), vec![]);
    assert_eq!(find_frontier(&mask_from(4, 4, &square(0, 0, 4, 4))), vec![]);
    assert_eq!(find_frontier(&Mask::new(0, 0)), vec![]);
}

#[test]
fn donors_are_the_clear_cells_of_the_window() {
    let image = numbered_image(5, 5);
    let mask = mask_from(5, 5, &square(1, 1, 4, 4));
    let donors = find_donors(&image, &mask, 1, 1);
    let expected: Vec<(u32, u32, u32)> = vec![
        (0, 0, 2),
        (1, 0, 1),
        (2, 0, 2),
        (3, 0, 5),
        (0, 1, 1),
        (0, 2, 2),
        (0, 3, 5),
    ];
    assert_eq!(donors.iter().map(|d| (d.x, d.y, d.dist_sq)).collect::<Vec<_>>(), expected);
    for donor in &donors {
        assert_eq!(donor.color, image.get_pixel(donor.x, donor.y));
    }
    assert_eq!(donors[3], Donor { x: 3, y: 0, dist_sq: 5, color: Rgb { r: 3, g: 103, b: 203 } });
}

#[test]
fn donors_leave_out_the_centre_and_reach_the_corners() {
    let image = numbered_image(7, 7);
    let mask = Mask::new(7, 7);
    let donors = find_donors(&image, &mask, 3, 3);
    assert_eq!(donors.len(), 24);
    assert!(donors.iter().all(|d| !(d.x == 3 && d.y == 3)));
    assert_eq!((donors[0].x, donors[0].y, donors[0].dist_sq), (1, 1, 8));
    assert_eq!((donors[23].x, donors[23].y, donors[23].dist_sq), (5, 5, 8));
    assert_eq!((donors[11].x, donors[11].y, donors[11].dist_sq), (2, 3, 1));
    assert_eq!((donors[12].x, donors[12].y, donors[12].dist_sq), (4, 3, 1));
    let corner = find_donors(&image, &mask, 0, 0);
    assert_eq!(corner.len(), 8);
    let outside = find_donors(&image, &mask, 8, 8);
    assert_eq!(outside.iter().map(|d| (d.x, d.y, d.dist_sq)).collect::<Vec<_>>(), vec![(6, 6, 8)]);
}

#[test]
fn start_wants_one_shape() {
    assert!(Inpainting::start(numbered_image(4, 3), Mask::new(4, 3)).is_some());
    assert!(Inpainting::start(numbered_image(4, 3), Mask::new(3, 4)).is_none());
    assert!(Inpainting::start(numbered_image(4, 3), Mask::new(4, 4)).is_none());
}

#[test]
fn plan_lists_one_task_per_rim_cell() {
    let image = numbered_image(5, 5);
    let job = Inpainting::start(image.clone(), mask_from(5, 5, &square(1, 1, 4, 4))).unwrap();
    assert!(!job.is_finished());
    assert_eq!(job.passes_done(), 0);
    let tasks = job.plan();
    assert_eq!(
        tasks.iter().map(|t| (t.x, t.y)).collect::<Vec<_>>(),
        vec![(1, 1), (2, 1), (3, 1), (1, 2), (3, 2), (1, 3), (2, 3), (3, 3)]
    );
    for task in &tasks {
        assert_eq!(task.current, image.get_pixel(task.x, task.y));
        assert_eq!(task.donors, find_donors(&image, job.current_mask(), task.x, task.y));
    }
}

#[test]
fn commit_writes_colours_and_clears_the_rim() {
    let image = numbered_image(5, 5);
    let job = Inpainting::start(image.clone(), mask_from(5, 5, &square(1, 1, 4, 4))).unwrap();
    let colors: Vec<Rgb> = (0..8u8).map(|k| Rgb { r: k, g: 1, b: 2 }).collect();
    let (job, applied) = job.commit(&colors);
    assert!(applied);
    assert_eq!(job.passes_done(), 1);
    assert_eq!(job.current_mask().as_raw(), mask_from(5, 5, &[(2, 2)]).as_raw());
    let rim = [(1, 1), (2, 1), (3, 1), (1, 2), (3, 2), (1, 3), (2, 3), (3, 3)];
    for y in 0..5 {
        for x in 0..5 {
            let expected = match rim.iter().position(|&p| p == (x, y)) {
                Some(k) => Rgb { r: k as u8, g: 1, b: 2 },
                None => image.get_pixel(x, y),
            };
            assert_eq!(job.current_image().get_pixel(x, y), expected);
        }
    }
    assert_eq!(job.plan().iter().map(|t| (t.x, t.y)).collect::<Vec<_>>(), vec![(2, 2)]);
    let (job, applied) = job.commit(&vec![Rgb { r: 50, g: 60, b: 70 }]);
    assert!(applied);
    assert!(job.is_finished());
    assert_eq!(job.passes_done(), 2);
    assert_eq!(job.plan().len(), 0);
    let out = job.into_image();
    assert_eq!(out.get_pixel(2, 2), Rgb { r: 50, g: 60, b: 70 });
    assert_eq!(out.get_pixel(0, 0), image.get_pixel(0, 0));
}

#[test]
fn commit_refuses_a_wrong_number_of_colours() {
    let image = numbered_image(4, 4);
    let job = Inpainting::start(image.clone(), mask_from(4, 4, &[(1, 1), (2, 2)])).unwrap();
    let (job, applied) = job.commit(&vec![Rgb { r: 1, g: 1, b: 1 }]);
    assert!(!applied);
    assert_eq!(job.passes_done(), 0);
    assert_eq!(job.current_image().as_raw(), image.as_raw());
    assert_eq!(job.current_mask().as_raw(), mask_from(4, 4, &[(1, 1), (2, 2)]).as_raw());
    let (job, applied) = job.commit(&vec![]);
    assert!(!applied);
    let (job, applied) = job.commit(&vec![Rgb { r: 1, g: 1, b: 1 }; 2]);
    assert!(applied);
    assert!(job.is_finished());
}

#[test]
fn finished_fill_commits_nothing() {
    let image = numbered_image(3, 3);
    let job = Inpainting::start(image.clone(), Mask::new(3, 3)).unwrap();
    assert!(job.is_finished());
    assert_eq!(job.plan().len(), 0);
    let (job, applied) = job.commit(&vec![]);
    assert!(!applied);
    assert_eq!(job.passes_done(), 0);
    assert_eq!(job.into_image().into_raw(), image.into_raw());
}

#[test]
fn fully_marked_image_has_nothing_to_start_from() {
    let image = numbered_image(3, 3);
    let job = Inpainting::start(image.clone(), mask_from(3, 3, &square(0, 0, 3, 3))).unwrap();
    assert!(job.is_finished());
    assert_eq!(job.plan().len(), 0);
    assert_eq!(job.into_image().into_raw(), image.into_raw());
}

#[test]
fn fill_stops_after_the_allowed_passes() {
    // A strip that can only be repaired one pixel per pass.
    let width = 600;
    let image = Raster::from_raw(width, 1, vec![9; (width * 3) as usize]).unwrap();
    let mut job = Inpainting::start(image, mask_from(width, 1, &square(1, 0, width, 1))).unwrap();
    let mut passes = 0;
    while !job.is_finished() {
        let tasks = job.plan();
        assert_eq!(tasks.len(), 1);
        assert_eq!(tasks[0].x, passes + 1);
        let (next, applied) = job.commit(&vec![Rgb { r: 1, g: 2, b: 3 }]);
        assert!(applied);
        job = next;
        passes += 1;
    }
    assert_eq!(passes, 500);
    assert_eq!(job.passes_done(), 500);
    assert_eq!(job.plan().len(), 0);
    let (job, applied) = job.commit(&vec![Rgb { r: 1, g: 2, b: 3 }]);
    assert!(!applied);
    assert_eq!(job.current_mask().get(500, 0), 0);
    assert_eq!(job.current_mask().get(501, 0), 255);
    let out = job.into_image();
    assert_eq!(out.get_pixel(500, 0), Rgb { r: 1, g: 2, b: 3 });
    assert_eq!(out.get_pixel(501, 0), Rgb { r: 9, g: 9, b: 9 });
}
