use basic::raster::Raster;
use image::{DynamicImage, GrayImage, Luma, Rgba, RgbaImage};

#[test]
fn raster_wants_four_bytes_per_pixel() {
    assert!(Raster::new(2, 3, vec![0; 24]).is_some());
    assert!(Raster::new(2, 3, vec![0; 23]).is_none());
    assert!(Raster::new(2, 3, vec![0; 25]).is_none());
    assert!(Raster::new(0, 3, vec![]).is_some());
    assert!(Raster::new(0, 0, vec![0]).is_none());
    assert!(Raster::new(u32::MAX, u32::MAX, vec![0; 4]).is_none());
}

#[test]
fn raster_reads_pixels_row_by_row() {
    let data: Vec<u8> = (0..24).collect();
    let raster = Raster::new(3, 2, data.clone()).unwrap();
    assert_eq!(raster.width(), 3);
    assert_eq!(raster.height(), 2);
    assert_eq!(raster.get(0, 0), Some((0, 1, 2, 3)));
    assert_eq!(raster.get(2, 0), Some((8, 9, 10, 11)));
    assert_eq!(raster.get(0, 1), Some((12, 13, 14, 15)));
    assert_eq!(raster.get(2, 1), Some((20, 21, 22, 23)));
    assert_eq!(raster.get(3, 0), None);
    assert_eq!(raster.get(0, 2), None);
    assert_eq!(raster.into_raw(), data);
}

#[test]
fn raster_copies_a_decoded_picture() {
    let mut picture = RgbaImage::new(3, 2);
    for y in 0..2 {
        for x in 0..3 {
            picture.put_pixel(x, y, Rgba([10 * x as u8 + 1, 20 * y as u8 + 2, 77, 200 + x as u8]));
        }
    }
    let raster = Raster::from_image(&DynamicImage::ImageRgba8(picture));
    assert_eq!(raster.width(), 3);
    assert_eq!(raster.height(), 2);
    for y in 0..2 {
        for x in 0..3 {
            assert_eq!(
                raster.get(x, y),
                Some((10 * x as u8 + 1, 20 * y as u8 + 2, 77, 200 + x as u8))
            );
        }
    }
    assert_eq!(raster.get(3, 1), None);
    assert_eq!(raster.get(2, 2), None);
}

#[test]
fn raster_widens_grey_pictures() {
    let mut picture = GrayImage::new(2, 5);
    picture.put_pixel(1, 4, Luma([90]));
    let raster = Raster::from_image(&DynamicImage::ImageLuma8(picture));
    assert_eq!((raster.width(), raster.height()), (2, 5));
    assert_eq!(raster.get(1, 4), Some((90, 90, 90, 255)));
    assert_eq!(raster.get(0, 0), Some((0, 0, 0, 255)));
    assert_eq!(raster.into_raw().len(), 40);
}

#[test]
fn raster_of_an_empty_picture() {
    let raster = Raster::from_image(&DynamicImage::new_rgb8(0, 7));
    assert_eq!((raster.width(), raster.height()), (0, 7));
    assert_eq!(raster.get(0, 0), None);
    assert!(raster.into_raw().is_empty());
}
