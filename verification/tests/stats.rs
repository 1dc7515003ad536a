use basic::raster::Raster;
use basic::stats::{average_color_from_image, histograms, weighted_average};

fn solid(width: u32, height: u32, color: (u8, u8, u8)) -> Raster {
    let mut data = Vec::new();
    for _ in 0..(width * height) {
        data.extend_from_slice(&[color.0, color.1, color.2, 255]);
    }
    Raster::new(width, height, data).unwrap()
}

/// Left half black, right half white.
fn halves(width: u32, height: u32) -> Raster {
    let mut data = Vec::new();
    for _y in 0..height {
        for x in 0..width {
            let v = if x < width / 2 { 0 } else { 255 };
            data.extend_from_slice(&[v, v, v, 255]);
        }
    }
    Raster::new(width, height, data).unwrap()
}

fn error(spread: (u32, u32, u32)) -> f32 {
    0.3 * (spread.0 as f32).sqrt() + 0.6 * (spread.1 as f32).sqrt() + (spread.2 as f32).sqrt() + 0.1
}

#[test]
fn weighted_average_of_small_histogram() {
    let mut histogram = [0u64; 256];
    histogram[10] = 2;
    histogram[20] = 2;
    let (mean, spread) = weighted_average(&histogram);
    assert_eq!(mean, 15);
    assert_eq!(spread, 25);
    assert_eq!((spread as f32).sqrt(), 5.0);
}

#[test]
fn weighted_average_rounds_down() {
    let mut histogram = [0u64; 256];
    histogram[0] = 1;
    histogram[1] = 2;
    // mean 2 / 3 = 0, squares 1 * 0 + 2 * 1 = 2, spread 2 / 3 = 0
    assert_eq!(weighted_average(&histogram), (0, 0));
    histogram[255] = 3;
    // mean 767 / 6 = 127, squares 127^2 + 2 * 126^2 + 3 * 128^2 = 97033, spread 16172
    assert_eq!(weighted_average(&histogram), (127, 16172));
}

#[test]
fn weighted_average_of_empty_histogram() {
    let histogram = [0u64; 256];
    assert_eq!(weighted_average(&histogram), (0, 0));
}

#[test]
fn weighted_average_of_single_bucket() {
    let mut histogram = [0u64; 256];
    histogram[255] = u64::MAX;
    assert_eq!(weighted_average(&histogram), (255, 0));
}

#[test]
fn weighted_average_of_full_histogram() {
    let histogram = [u64::MAX; 256];
    // mean (0 + .. + 255) / 256 = 127, spread (sum of (127 - i)^2) / 256 = 5461
    assert_eq!(weighted_average(&histogram), (127, 5461));
}

#[test]
fn histograms_count_every_pixel_once() {
    let image = halves(8, 8);
    let (red, green, blue) = histograms(&image, 0, 0, 8, 8);
    for h in [red, green, blue] {
        assert_eq!(h[0], 32);
        assert_eq!(h[255], 32);
        assert_eq!(h.iter().sum::<u64>(), 64);
    }
    let (red, _, _) = histograms(&image, 3, 2, 6, 4);
    assert_eq!(red[0], 2);
    assert_eq!(red[255], 4);
}

#[test]
fn histograms_tell_channels_apart() {
    let image = solid(3, 2, (1, 2, 3));
    let (red, green, blue) = histograms(&image, 0, 0, 3, 2);
    assert_eq!((red[1], red[2], red[3]), (6, 0, 0));
    assert_eq!((green[1], green[2], green[3]), (0, 6, 0));
    assert_eq!((blue[1], blue[2], blue[3]), (0, 0, 6));
}

#[test]
fn uniform_region_has_its_colour_and_no_spread() {
    for (w, h) in [(1, 1), (2, 3), (7, 5), (16, 16)] {
        let image = solid(w, h, (200, 17, 93));
        let (color, spread) = average_color_from_image(&image, 0, 0, w, h);
        assert_eq!(color, (200, 17, 93));
        assert_eq!(spread, (0, 0, 0));
        assert!((error(spread) - 0.1).abs() < 1e-6);
    }
}

#[test]
fn mixed_region_is_blended() {
    let image = halves(8, 8);
    let (color, spread) = average_color_from_image(&image, 0, 0, 8, 8);
    // mean 32 * 255 / 64 = 127, spread (32 * 127^2 + 32 * 128^2) / 64 = 16256
    assert_eq!(color, (127, 127, 127));
    assert_eq!(spread, (16256, 16256, 16256));
    let (color, spread) = average_color_from_image(&image, 0, 0, 4, 8);
    assert_eq!(color, (0, 0, 0));
    assert_eq!(spread, (0, 0, 0));
    let (color, spread) = average_color_from_image(&image, 4, 0, 8, 8);
    assert_eq!(color, (255, 255, 255));
    assert_eq!(spread, (0, 0, 0));
    // columns 3, 4, 5: one black, two white: mean 510 / 3 = 170, spread (170^2 + 2 * 85^2) / 3
    let (color, spread) = average_color_from_image(&image, 3, 0, 6, 1);
    assert_eq!(color, (170, 170, 170));
    assert_eq!(spread, (14450, 14450, 14450));
}

#[test]
fn region_is_clipped_to_the_raster() {
    let image = halves(8, 8);
    let inside = average_color_from_image(&image, 6, 6, 8, 8);
    let beyond = average_color_from_image(&image, 6, 6, 100, 100);
    assert_eq!(inside, beyond);
    assert_eq!(inside, ((255, 255, 255), (0, 0, 0)));
}

#[test]
fn region_without_pixels_is_black() {
    let image = solid(4, 4, (9, 9, 9));
    assert_eq!(average_color_from_image(&image, 4, 0, 9, 4), ((0, 0, 0), (0, 0, 0)));
    assert_eq!(average_color_from_image(&image, 2, 2, 2, 4), ((0, 0, 0), (0, 0, 0)));
    assert_eq!(average_color_from_image(&image, 3, 3, 1, 1), ((0, 0, 0), (0, 0, 0)));
    let (red, _, _) = histograms(&image, 0, 7, 4, 9);
    assert_eq!(red.iter().sum::<u64>(), 0);
}
