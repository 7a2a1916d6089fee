use rustbeam::image::{min_max_keys, Image, PixelWrite, Rgba8};
use rustbeam::scene::worker_pixels;

const BLACK: Rgba8 = Rgba8 { r: 0, g: 0, b: 0, a: 255 };

#[test]
fn make_image() {
    let image = Image::new(640, 480, (0.0f64, 0.0f64, 0.0f64, 1.0f64), BLACK);
    assert_eq!(image.get_size(), (640, 480));
    let bytes = image.get_srgba_vector();
    assert_eq!(bytes.len(), 1_228_800);
    for k in 0..640 * 480 {
        assert_eq!(&bytes[4 * k..4 * k + 4], &[0, 0, 0, 255]);
    }
}

#[test]
fn new_image_is_filled_with_the_given_pixel() {
    let image = Image::new(3, 2, 7u32, BLACK);
    assert_eq!(image.get_size(), (3, 2));
    for y in 0..2 {
        for x in 0..3 {
            assert_eq!(image.get_pixel(x, y), 7u32);
        }
    }
    let bytes = image.get_srgba_vector();
    assert_eq!(bytes.len(), 24);
    for k in 0..6 {
        assert_eq!(bytes[4 * k], 0);
        assert_eq!(bytes[4 * k + 1], 0);
        assert_eq!(bytes[4 * k + 2], 0);
        assert_eq!(bytes[4 * k + 3], 255);
    }
}

#[test]
fn set_pixel_updates_grid_and_bytes() {
    let mut image = Image::new(4, 3, 0u32, BLACK);
    let code = Rgba8 { r: 10, g: 20, b: 30, a: 255 };
    image.set_pixel(2, 1, 99u32, code);
    assert_eq!(image.get_pixel(2, 1), 99);
    assert_eq!(image.get_pixel(1, 2), 0);
    let bytes = image.get_srgba_vector();
    // row-major offset: (y * width + x) * 4 = (1 * 4 + 2) * 4 = 24
    assert_eq!(&bytes[24..28], &[10, 20, 30, 255]);
    // an untouched pixel keeps the fill bytes
    assert_eq!(&bytes[0..4], &[0, 0, 0, 255]);
}

#[test]
fn update_applies_writes_in_order_so_the_last_one_wins() {
    let mut image = Image::new(2, 2, 0u32, BLACK);
    let writes = vec![
        PixelWrite { x: 1, y: 0, pixel: 5u32, code: Rgba8 { r: 5, g: 0, b: 0, a: 255 } },
        PixelWrite { x: 1, y: 0, pixel: 8u32, code: Rgba8 { r: 8, g: 0, b: 0, a: 255 } },
    ];
    image.update(&writes);
    assert_eq!(image.get_pixel(1, 0), 8);
    assert_eq!(&image.get_srgba_vector()[4..8], &[8, 0, 0, 255]);
}

fn shade(x: usize, y: usize) -> (u32, Rgba8) {
    let value = (10 * y + x) as u32;
    let code = Rgba8 { r: x as u8, g: y as u8, b: (x + y) as u8, a: 255 };
    (value, code)
}

#[test]
fn delivery_order_does_not_change_the_image() {
    let width = 3;
    let height = 2;
    let mut forward = Vec::new();
    for y in 0..height {
        for x in 0..width {
            let (pixel, code) = shade(x, y);
            forward.push(PixelWrite { x, y, pixel, code });
        }
    }
    let mut backward: Vec<PixelWrite<u32>> = forward.clone();
    backward.reverse();

    let mut image_fwd = Image::new(width, height, 0u32, BLACK);
    let mut image_bwd = Image::new(width, height, 0u32, BLACK);
    image_fwd.update(&forward);
    image_bwd.update(&backward);

    for y in 0..height {
        for x in 0..width {
            assert_eq!(image_fwd.get_pixel(x, y), image_bwd.get_pixel(x, y));
        }
    }
    assert_eq!(image_fwd.get_srgba_vector(), image_bwd.get_srgba_vector());
}

#[test]
fn worker_partition_renders_the_same_image_as_one_thread() {
    let width = 5;
    let height = 4;
    let mut images = Vec::new();
    for workers in [1usize, 2, 3, 7] {
        let mut image = Image::new(width, height, 0u32, BLACK);
        for worker in 0..workers {
            // each worker delivers its own schedule in order; across workers
            // any interleaving would do, here they arrive worker by worker
            for (x, y) in worker_pixels(width, height, worker, workers) {
                let (pixel, code) = shade(x, y);
                image.set_pixel(x, y, pixel, code);
            }
        }
        images.push(image);
    }
    for image in &images[1..] {
        for y in 0..height {
            for x in 0..width {
                assert_eq!(image.get_pixel(x, y), images[0].get_pixel(x, y));
                assert_eq!(image.get_pixel(x, y), shade(x, y).0);
            }
        }
        assert_eq!(image.get_srgba_vector(), images[0].get_srgba_vector());
    }
}

#[test]
fn min_max_keys_of_nothing_is_none() {
    let keys: Vec<u64> = Vec::new();
    assert_eq!(min_max_keys(&keys), None);
}

#[test]
fn min_max_keys_finds_both_extremes() {
    let keys = vec![40, 10, 90, 20];
    assert_eq!(min_max_keys(&keys), Some((1, 2)));
}

#[test]
fn min_max_keys_one_key_is_both_extremes() {
    let keys = vec![7];
    assert_eq!(min_max_keys(&keys), Some((0, 0)));
}

#[test]
fn min_max_keys_ties_go_to_the_first_index() {
    let keys = vec![5, 3, 9, 3, 9];
    assert_eq!(min_max_keys(&keys), Some((1, 2)));
}

#[test]
fn image_holds_floating_point_pixels() {
    // linear radiance pixels as the renderer produces them
    let mut image = Image::new(2, 2, (0.0f64, 0.0f64, 0.0f64, 1.0f64), BLACK);
    image.set_pixel(0, 1, (0.25, 0.5, 1.5, 1.0), Rgba8 { r: 137, g: 188, b: 255, a: 255 });
    assert_eq!(image.get_pixel(0, 1), (0.25, 0.5, 1.5, 1.0));
    assert_eq!(image.get_pixel(0, 0), (0.0, 0.0, 0.0, 1.0));
    assert_eq!(&image.get_srgba_vector()[8..12], &[137, 188, 255, 255]);
}
