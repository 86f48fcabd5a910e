use watermark_removal::inpaint::{Inpainting, RepairTask, MAX_ITERATIONS};
use watermark_removal::raster::{Mask, Raster, Rgb};
use watermark_removal::region::Region;
use watermark_removal::remover::{InpaintMethod, WatermarkRemover};

/// Runs a fill to its end and returns the image and the passes made.
fn run(mut job: Inpainting, mut blend: impl FnMut(&Vec<RepairTask>) -> Vec<Rgb>) -> (Raster, u32) {
    let mut rounds = 0;
    while !job.is_finished() {
        assert!(rounds < MAX_ITERATIONS);
        let tasks = job.plan();
        let colors = blend(&tasks);
        let (next, applied) = job.commit(&colors);
        job = next;
        if !applied {
            break;
        }
        rounds += 1;
    }
    assert_eq!(job.passes_done(), rounds);
    (job.into_image(), rounds)
}

/// Distance- and confidence-weighted blending in single precision.
struct Weighted {
    width: usize,
    confidence: Vec<f32>,
}

impl Weighted {
    fn new(mask: &Mask) -> Weighted {
        Weighted {
            width: mask.width() as usize,
            confidence: mask.as_raw().iter().map(|&v| if v == 0 { 1.0 } else { 0.0 }).collect(),
        }
    }

    fn blend(&mut self, tasks: &Vec<RepairTask>) -> Vec<Rgb> {
        let mut colors = Vec::new();
        let mut updates = Vec::new();
        for task in tasks {
            let (mut r, mut g, mut b) = (0.0f32, 0.0f32, 0.0f32);
            let (mut weights, mut trust, mut reach) = (0.0f32, 0.0f32, 0.0f32);
            for donor in &task.donors {
                let conf = self.confidence[donor.y as usize * self.width + donor.x as usize];
                let near = (-(donor.dist_sq as f32) / (2.0 * 1.5 * 1.5)).exp();
                let weight = near * conf;
                r += donor.color.r as f32 * weight;
                g += donor.color.g as f32 * weight;
                b += donor.color.b as f32 * weight;
                weights += weight;
                trust += conf * near;
                reach += near;
            }
            colors.push(if weights > 0.0 {
                Rgb {
                    r: (r / weights).clamp(0.0, 255.0) as u8,
                    g: (g / weights).clamp(0.0, 255.0) as u8,
                    b: (b / weights).clamp(0.0, 255.0) as u8,
                }
            } else {
                task.current
            });
            let at = task.y as usize * self.width + task.x as usize;
            updates.push((at, if reach > 0.0 { trust / reach * 0.98 } else { 0.0 }));
        }
        for (at, conf) in updates {
            self.confidence[at] = conf;
        }
        colors
    }
}

fn flat_image(width: u32, height: u32, level: u8) -> Raster {
    Raster::from_raw(width, height, vec![level; (width * height * 3) as usize]).unwrap()
}

fn with_bright_square() -> Raster {
    let mut image = flat_image(10, 10, 0);
    for y in 2..6 {
        for x in 2..6 {
            image.put_pixel(x, y, Rgb { r: 255, g: 255, b: 255 });
        }
    }
    image
}

fn remover() -> WatermarkRemover {
    WatermarkRemover::new(InpaintMethod::Gaussian)
}

const RED: Rgb = Rgb { r: 255, g: 0, b: 0 };
const WHOLE: [Region; 1] = [Region { x: 0, y: 0, width: 10, height: 10 }];

#[test]
fn method_names() {
    assert_eq!(InpaintMethod::from_str("simple"), InpaintMethod::Simple);
    assert_eq!(InpaintMethod::from_str("gaussian"), InpaintMethod::Gaussian);
    assert_eq!(InpaintMethod::from_str("median"), InpaintMethod::Gaussian);
    assert_eq!(InpaintMethod::from_str(""), InpaintMethod::Gaussian);
    assert_eq!(InpaintMethod::from_str("Simple"), InpaintMethod::Gaussian);
    assert_eq!(InpaintMethod::from_str("simple "), InpaintMethod::Gaussian);
}

#[test]
fn remover_keeps_its_method() {
    assert_eq!(WatermarkRemover::new(InpaintMethod::Simple).method(), InpaintMethod::Simple);
    assert_eq!(WatermarkRemover::new(InpaintMethod::Gaussian).method(), InpaintMethod::Gaussian);
}

#[test]
fn begin_hands_out_the_fill_before_the_first_pass() {
    let mut image = flat_image(6, 6, 0);
    image.put_pixel(2, 2, Rgb { r: 255, g: 255, b: 255 });
    let regions = [Region { x: 0, y: 0, width: 6, height: 6 }];
    let job = remover().begin(&image, &regions);
    assert_eq!(job.passes_done(), 0);
    assert!(!job.is_finished());
    assert_eq!(job.current_image().as_raw(), image.as_raw());
    assert_eq!(job.current_mask().as_raw(), remover().create_smart_mask(&image, &regions).as_raw());
    assert_eq!(job.plan().len(), 8);
}

#[test]
fn uniform_image_is_returned_unchanged() {
    let image = flat_image(10, 10, 128);
    let job = remover().begin(&image, &WHOLE);
    assert!(job.is_finished());
    assert_eq!(job.current_mask().as_raw(), &vec![0u8; 100]);
    let mut calls = 0;
    let (out, passes) = run(job, |tasks| {
        calls += 1;
        tasks.iter().map(|_| RED).collect()
    });
    assert_eq!(calls, 0);
    assert_eq!(passes, 0);
    assert_eq!(out.width(), 10);
    assert_eq!(out.height(), 10);
    assert_eq!(out.into_raw(), image.into_raw());
}

#[test]
fn only_masked_pixels_change() {
    let image = with_bright_square();
    let mask = remover().create_smart_mask(&image, &WHOLE);
    let (out, passes) = run(remover().begin(&image, &WHOLE), |tasks| tasks.iter().map(|_| RED).collect());
    // The 6x6 mask is peeled in three rings.
    assert_eq!(passes, 3);
    for y in 0..10 {
        for x in 0..10 {
            if mask.get(x, y) == 0 {
                assert_eq!(out.get_pixel(x, y), image.get_pixel(x, y));
            } else {
                assert_eq!(out.get_pixel(x, y), RED);
            }
        }
    }
}

#[test]
fn each_pass_repairs_the_next_ring() {
    let image = with_bright_square();
    let mut pass = 0u8;
    let (out, passes) = run(remover().begin(&image, &WHOLE), |tasks| {
        pass += 1;
        tasks.iter().map(|_| Rgb { r: pass, g: pass, b: pass }).collect()
    });
    assert_eq!(passes, 3);
    for y in 0..10u32 {
        for x in 0..10u32 {
            // Steps to the nearest pixel outside the 6x6 mask.
            let inside = (1..7).contains(&x) && (1..7).contains(&y);
            let ring = if inside { (x.min(y).min(7 - x).min(7 - y)) as u8 } else { 0 };
            assert_eq!(out.get_pixel(x, y), Rgb { r: ring, g: ring, b: ring });
        }
    }
}

#[test]
fn the_fill_does_not_depend_on_the_method() {
    let image = with_bright_square();
    let simple = WatermarkRemover::new(InpaintMethod::Simple);
    let gaussian = WatermarkRemover::new(InpaintMethod::Gaussian);
    assert_eq!(
        simple.create_smart_mask(&image, &WHOLE).into_raw(),
        gaussian.create_smart_mask(&image, &WHOLE).into_raw()
    );
    let first = simple.begin(&image, &WHOLE);
    let second = gaussian.begin(&image, &WHOLE);
    assert_eq!(first.current_image().as_raw(), second.current_image().as_raw());
    assert_eq!(first.current_mask().as_raw(), second.current_mask().as_raw());
    assert_eq!(first.plan().len(), second.plan().len());
    let mut one = Weighted::new(first.current_mask());
    let mut two = Weighted::new(second.current_mask());
    let (a, _) = run(first, |tasks| one.blend(tasks));
    let (b, _) = run(second, |tasks| two.blend(tasks));
    assert_eq!(a.into_raw(), b.into_raw());
}

#[test]
fn bright_square_fades_into_the_background() {
    let image = with_bright_square();
    let job = remover().begin(&image, &WHOLE);
    let mut blender = Weighted::new(job.current_mask());
    let (out, passes) = run(job, |tasks| blender.blend(tasks));
    assert_eq!(passes, 3);
    assert_eq!(out.width(), 10);
    assert_eq!(out.height(), 10);
    assert_eq!(out.into_raw(), vec![0u8; 300]);
    for y in 0..10usize {
        for x in 0..10usize {
            let conf = blender.confidence[y * 10 + x];
            if (1..7).contains(&x) && (1..7).contains(&y) {
                assert!(conf > 0.0 && conf < 1.0);
            } else {
                assert_eq!(conf, 1.0);
            }
        }
    }
    // One decay step on the outer ring, where every donor is an untouched pixel.
    assert!((blender.confidence[11] - 0.98).abs() < 1e-6);
}

#[test]
fn fill_ends_when_an_answer_falls_short() {
    let mut image = flat_image(8, 8, 10);
    image.put_pixel(4, 4, Rgb { r: 200, g: 200, b: 200 });
    let regions = [Region { x: 0, y: 0, width: 8, height: 8 }];
    let (out, passes) =
        run(remover().begin(&image, &regions), |tasks| tasks.iter().skip(1).map(|_| RED).collect());
    assert_eq!(passes, 0);
    assert_eq!(out.into_raw(), image.into_raw());
}

#[test]
fn pixels_outside_the_regions_are_never_touched() {
    let mut image = flat_image(12, 12, 20);
    image.put_pixel(3, 3, Rgb { r: 250, g: 250, b: 250 });
    image.put_pixel(9, 9, Rgb { r: 250, g: 250, b: 250 });
    let regions = [Region { x: 1, y: 1, width: 5, height: 5 }];
    let (out, _) = run(remover().begin(&image, &regions), |tasks| tasks.iter().map(|_| RED).collect());
    for y in 0..12 {
        for x in 0..12 {
            let inside = (2..5).contains(&x) && (2..5).contains(&y);
            assert_eq!(out.get_pixel(x, y), if inside { RED } else { image.get_pixel(x, y) });
        }
    }
}

#[test]
fn without_regions_nothing_is_repaired() {
    let image = with_bright_square();
    let job = remover().begin(&image, &[]);
    assert!(job.is_finished());
    assert_eq!(job.into_image().into_raw(), image.into_raw());
}

#[test]
fn pixels_beyond_the_last_pass_keep_their_colour() {
    // A strip whose marked part is longer than the passes allowed: what lies
    // more than 500 steps from the clear end is never repaired.
    let width = 520;
    let image = flat_image(width, 1, 7);
    let mut mask = Mask::new(width, 1);
    for x in 1..width {
        mask.put(x, 0, 255);
    }
    let (out, passes) = run(Inpainting::start(image, mask).unwrap(), |tasks| tasks.iter().map(|_| RED).collect());
    assert_eq!(passes, 500);
    for x in 0..width {
        let expected = if (1..=500).contains(&x) { RED } else { Rgb { r: 7, g: 7, b: 7 } };
        assert_eq!(out.get_pixel(x, 0), expected);
    }
}
