use basic::Model;
use basic::quads::Quad;
use basic::raster::Raster;
use image::{DynamicImage, Rgb, RgbImage};

fn rank(r: u32, g: u32, b: u32, area: u64) -> u64 {
    let error = 0.3 * (r as f32).sqrt() + 0.6 * (g as f32).sqrt() + (b as f32).sqrt() + 0.1;
    (f64::from(error) * (area as f64).powf(0.25)).to_bits()
}

fn gradient(width: u32, height: u32) -> DynamicImage {
    let mut picture = RgbImage::new(width, height);
    for y in 0..height {
        for x in 0..width {
            picture.put_pixel(x, y, Rgb([(x * 7 % 256) as u8, (y * 5 % 256) as u8, ((x + y) % 256) as u8]));
        }
    }
    DynamicImage::ImageRgb8(picture)
}

fn solid(width: u32, height: u32, color: (u8, u8, u8)) -> Raster {
    let mut data = Vec::new();
    for _ in 0..(width * height) {
        data.extend_from_slice(&[color.0, color.1, color.2, 255]);
    }
    Raster::new(width, height, data).unwrap()
}

/// Left half black, right half white.
fn halves(width: u32, height: u32) -> Raster {
    let mut data = Vec::new();
    for _y in 0..height {
        for x in 0..width {
            let v = if x < width / 2 { 0 } else { 255 };
            data.extend_from_slice(&[v, v, v, 255]);
        }
    }
    Raster::new(width, height, data).unwrap()
}

fn bounds(q: &Quad) -> (u32, u32, u32, u32) {
    (q.left, q.top, q.right, q.bottom)
}

/// Panics unless every pixel of the picture lies in exactly one leaf.
fn assert_tiling(model: &Model) {
    let (width, height) = (model.width(), model.height());
    let mut hits = vec![0u32; (width * height) as usize];
    let mut area = 0u64;
    for leaf in model.snapshot() {
        assert!(leaf.left < leaf.right && leaf.right <= width);
        assert!(leaf.top < leaf.bottom && leaf.bottom <= height);
        assert!(leaf.children.is_empty());
        area += leaf.area();
        for y in leaf.top..leaf.bottom {
            for x in leaf.left..leaf.right {
                hits[(y * width + x) as usize] += 1;
            }
        }
    }
    assert!(hits.iter().all(|&n| n == 1));
    assert_eq!(area, u64::from(width) * u64::from(height));
}

#[test]
fn create_model() {
    let image = gradient(48, 32);
    let (width, height) = (image.width(), image.height());

    let model = Model::new(image, false);

    assert_eq!(model.width(), width);
    assert_eq!(model.height(), height);
    assert_eq!(model.snapshot().len(), 1);
}

#[test]
fn split() {
    let image = gradient(48, 32);

    let mut model = Model::new(image, false);
    model.split(rank);

    assert_eq!(model.snapshot().len(), 4);
}

#[test]
fn model_starts_with_the_whole_picture() {
    let model = Model::new(gradient(37, 21), true);
    assert_eq!((model.width(), model.height()), (37, 21));
    assert!(model.padding());
    assert_eq!(model.pending(), 1);
    let root = &model.snapshot()[0];
    assert_eq!(bounds(root), (0, 0, 37, 21));
    let again = Quad::new(0, 0, 37, 21, &Raster::from_image(&gradient(37, 21)));
    assert_eq!(root.color, again.color);
    assert_eq!(root.spread, again.spread);
    assert_tiling(&model);
}

#[test]
fn model_of_an_empty_picture_has_no_leaf() {
    for (w, h) in [(0, 0), (0, 5), (5, 0)] {
        let mut model = Model::new(DynamicImage::new_rgb8(w, h), false);
        assert_eq!((model.width(), model.height()), (w, h));
        assert_eq!(model.snapshot().len(), 0);
        assert_eq!(model.pending(), 0);
        model.split(rank);
        assert_eq!(model.snapshot().len(), 0);
        let picture = model.get_curr_image().unwrap();
        assert_eq!((picture.width(), picture.height()), (w, h));
    }
}

#[test]
fn leaves_tile_the_picture_after_every_step() {
    for (w, h) in [(48, 32), (17, 9), (5, 64), (1, 1), (2, 2), (3, 1)] {
        let mut model = Model::new(gradient(w, h), false);
        assert_tiling(&model);
        for _ in 0..200 {
            model.split(rank);
            assert_tiling(&model);
        }
    }
}

#[test]
fn step_replaces_the_served_leaf_by_its_quarters() {
    let mut model = Model::from_raster(halves(8, 8), false);
    model.split(rank);
    let found: Vec<_> = model.snapshot().iter().map(bounds).collect();
    assert_eq!(found, vec![(0, 0, 4, 4), (4, 0, 8, 4), (0, 4, 4, 8), (4, 4, 8, 8)]);
    assert_eq!(model.pending(), 4);
    // All four are flat, so the first one that is served is one of them.
    model.split(rank);
    assert_eq!(model.snapshot().len(), 7);
    assert_eq!(model.pending(), 7);
    let first: Vec<_> = model.snapshot().iter().take(4).map(bounds).collect();
    let changed = first.iter().filter(|b| b.2 - b.0 == 2).count();
    assert_eq!(changed, 1);
    assert_tiling(&model);
}

#[test]
fn step_serves_the_worst_region() {
    // Flat but for the lower right quarter, which is chequered.
    let (width, height) = (16u32, 16u32);
    let mut data = Vec::new();
    for y in 0..height {
        for x in 0..width {
            let v = if x >= 8 && y >= 8 && (x + y) % 2 == 0 { 255 } else { 40 };
            data.extend_from_slice(&[v, v, v, 255]);
        }
    }
    let mut model = Model::from_raster(Raster::new(width, height, data).unwrap(), false);
    model.split(rank);
    model.split(rank);
    let found: Vec<_> = model.snapshot().iter().map(bounds).collect();
    assert_eq!(
        found,
        vec![
            (0, 0, 8, 8),
            (8, 0, 16, 8),
            (0, 8, 8, 16),
            (8, 8, 12, 12),
            (12, 8, 16, 12),
            (8, 12, 12, 16),
            (12, 12, 16, 16),
        ]
    );
}

#[test]
fn step_prefers_regions_that_are_not_small() {
    // One region of sixteen, four of eight, sixteen of four: all of them, 21
    // steps, are served before any region smaller than four.
    let mut model = Model::new(gradient(16, 16), false);
    for step in 0..21 {
        model.split(rank);
        assert!(model.snapshot().iter().all(|q| q.width() >= 2 && q.height() >= 2), "step {step}");
    }
    assert_eq!(model.snapshot().len(), 64);
    assert!(model.snapshot().iter().all(|q| q.width() == 2 && q.height() == 2));
    model.split(rank);
    assert_eq!(model.snapshot().iter().filter(|q| q.area() == 1).count(), 4);
}

#[test]
fn steps_converge_and_then_change_nothing() {
    let mut model = Model::new(gradient(7, 5), false);
    for _ in 0..1000 {
        model.split(rank);
    }
    assert_eq!(model.pending(), 0);
    assert!(model.snapshot().iter().all(|q| !q.splittable()));
    assert_tiling(&model);
    let before: Vec<_> = model.snapshot().iter().map(|q| (bounds(q), q.color)).collect();
    for _ in 0..10 {
        model.split(rank);
    }
    let after: Vec<_> = model.snapshot().iter().map(|q| (bounds(q), q.color)).collect();
    assert_eq!(before, after);
    assert_eq!(model.pending(), 0);
}

#[test]
fn step_on_unsplittable_leaves_changes_no_leaf() {
    // One pixel wide: the quarters of nothing.
    let mut model = Model::from_raster(solid(1, 9, (5, 5, 5)), false);
    assert_eq!(model.pending(), 1);
    model.split(rank);
    assert_eq!(model.snapshot().len(), 1);
    assert_eq!(bounds(&model.snapshot()[0]), (0, 0, 1, 9));
    assert_eq!(model.pending(), 0);
    model.split(rank);
    assert_eq!(model.snapshot().len(), 1);
}

#[test]
fn thin_leaf_does_not_hold_up_the_others() {
    // Three by two: quarters one and two pixels wide, one pixel high.
    let mut model = Model::new(gradient(3, 2), false);
    for _ in 0..10 {
        model.split(rank);
    }
    assert_eq!(model.pending(), 0);
    let found: Vec<_> = model.snapshot().iter().map(bounds).collect();
    assert_eq!(found, vec![(0, 0, 1, 1), (1, 0, 3, 1), (0, 1, 1, 2), (1, 1, 3, 2)]);
}

#[test]
fn solid_red_picture_renders_solid_red() {
    let mut model = Model::from_raster(solid(4, 4, (255, 0, 0)), false);
    let picture = model.get_curr_image().unwrap();
    assert_eq!((picture.width(), picture.height()), (4, 4));
    for y in 0..4 {
        for x in 0..4 {
            assert_eq!(picture.get(x, y), Some((255, 0, 0, 255)));
        }
    }
    assert_eq!(model.snapshot().len(), 1);
    for _ in 0..8 {
        model.split(rank);
        let picture = model.get_curr_image().unwrap();
        assert_eq!(picture.into_raw(), solid(4, 4, (255, 0, 0)).into_raw());
    }
}

#[test]
fn black_and_white_halves_after_one_step() {
    let mut model = Model::from_raster(halves(8, 8), false);
    let root = &model.snapshot()[0];
    assert_eq!(root.color, (127, 127, 127));
    let picture = model.get_curr_image().unwrap();
    assert_eq!(picture.get(0, 0), Some((127, 127, 127, 255)));
    assert_eq!(picture.get(7, 7), Some((127, 127, 127, 255)));

    model.split(rank);
    let leaves: Vec<_> = model.snapshot().iter().map(|q| (bounds(q), q.color)).collect();
    assert_eq!(
        leaves,
        vec![
            ((0, 0, 4, 4), (0, 0, 0)),
            ((4, 0, 8, 4), (255, 255, 255)),
            ((0, 4, 4, 8), (0, 0, 0)),
            ((4, 4, 8, 8), (255, 255, 255)),
        ]
    );
    let picture = model.get_curr_image().unwrap();
    assert_eq!((picture.width(), picture.height()), (8, 8));
    for y in 0..8 {
        for x in 0..8 {
            let v = if x < 4 { 0 } else { 255 };
            assert_eq!(picture.get(x, y), Some((v, v, v, 255)));
        }
    }
}

#[test]
fn blended_quarters_where_the_boundary_is_off_centre() {
    // Three black columns, five white ones: the left quarters hold both.
    let mut data = Vec::new();
    for _y in 0..8 {
        for x in 0..8 {
            let v = if x < 3 { 0 } else { 255 };
            data.extend_from_slice(&[v, v, v, 255]);
        }
    }
    let mut model = Model::from_raster(Raster::new(8, 8, data).unwrap(), false);
    model.split(rank);
    let colors: Vec<_> = model.snapshot().iter().map(|q| q.color.0).collect();
    // 4 * 255 / 16 = 63
    assert_eq!(colors, vec![63, 255, 63, 255]);
    let picture = model.get_curr_image().unwrap();
    assert_eq!(picture.get(0, 0), Some((63, 63, 63, 255)));
    assert_eq!(picture.get(3, 7), Some((63, 63, 63, 255)));
    assert_eq!(picture.get(4, 0), Some((255, 255, 255, 255)));
}

#[test]
fn padding_leaves_a_border_round_each_region() {
    let mut model = Model::from_raster(halves(8, 8), true);
    model.split(rank);
    let picture = model.get_curr_image().unwrap();
    assert_eq!((picture.width(), picture.height()), (9, 9));
    for y in 0..9 {
        for x in 0..9 {
            let border = x == 0 || x == 4 || x == 8 || y == 0 || y == 4 || y == 8;
            let expected = if border {
                (0, 0, 0, 0)
            } else if x < 4 {
                (0, 0, 0, 255)
            } else {
                (255, 255, 255, 255)
            };
            assert_eq!(picture.get(x, y), Some(expected), "at {x}, {y}");
        }
    }
}

#[test]
fn snapshot_shows_the_model_as_it_is() {
    let mut model = Model::new(gradient(8, 8), false);
    assert_eq!(model.snapshot().len(), 1);
    model.split(rank);
    assert_eq!(model.snapshot().len(), 4);
    assert_eq!(model.snapshot().len(), 4);
    assert_eq!(model.pending(), 4);
}

#[test]
fn picture_wider_than_a_raster_is_refused() {
    let model = Model::from_raster(Raster::new(u32::MAX, 0, Vec::new()).unwrap(), true);
    assert_eq!(model.snapshot().len(), 0);
    assert!(model.get_curr_image().is_none());
    let model = Model::from_raster(Raster::new(u32::MAX, 0, Vec::new()).unwrap(), false);
    let picture = model.get_curr_image().unwrap();
    assert_eq!((picture.width(), picture.height()), (u32::MAX, 0));
}
