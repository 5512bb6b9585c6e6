use allcolors::color::ColorBase;
use allcolors::growth::grow;
use allcolors::raster::{color_base_to_color, rescale_channel, to_pixels};
use allcolors::{make_image, Config, ConfigError};
use std::collections::HashSet;

fn cube(color_size: u8) -> HashSet<ColorBase> {
    let mut all = HashSet::new();
    for r in 0..color_size {
        for g in 0..color_size {
            for b in 0..color_size {
                all.insert((r, g, b));
            }
        }
    }
    all
}

#[test]
fn scale_two_fills_every_location_once() {
    let cfg = Config::new(2, 4, 0).unwrap();
    assert_eq!(cfg.size(), 8);
    assert_eq!(cfg.color_size(), 4);
    let grid = grow(&cfg);
    assert_eq!(grid.len(), 64);
    let seen: HashSet<ColorBase> = grid.iter().copied().collect();
    assert_eq!(seen.len(), 64);
    assert_eq!(seen, cube(4));
}

#[test]
fn scale_two_image_pixels() {
    let img = make_image(2, 4, 0).unwrap();
    assert_eq!(img.side, 8);
    assert_eq!(img.pixels.len(), 3 * 64);
    let mut seen = HashSet::new();
    for px in img.pixels.chunks(3) {
        for &ch in px {
            assert!(ch == 0 || ch == 85 || ch == 170 || ch == 255);
        }
        seen.insert((px[0], px[1], px[2]));
    }
    assert_eq!(seen.len(), 64);
}

#[test]
fn scale_two_channel_rescaling() {
    assert_eq!(color_base_to_color((0, 0, 0), 4), (0, 0, 0));
    assert_eq!(color_base_to_color((3, 3, 3), 4), (255, 255, 255));
    assert_eq!(color_base_to_color((1, 2, 3), 4), (85, 170, 255));
}

#[test]
fn rescaling_rounds_to_nearest() {
    // 1 * 255 / 8 = 31.875
    assert_eq!(rescale_channel(1, 9), 32);
    // 4 * 255 / 8 = 127.5, halves go up
    assert_eq!(rescale_channel(4, 9), 128);
    assert_eq!(rescale_channel(8, 9), 255);
    assert_eq!(rescale_channel(0, 1), 0);
}

#[test]
fn to_pixels_lays_out_three_bytes_per_location() {
    let grid: Vec<ColorBase> = vec![(0, 1, 2), (3, 0, 1)];
    assert_eq!(to_pixels(&grid, 4), vec![0, 85, 170, 255, 0, 85]);
}

#[test]
fn scale_one_single_black_pixel() {
    let img = make_image(1, 1, 0).unwrap();
    assert_eq!(img.side, 1);
    assert_eq!(img.pixels, vec![0, 0, 0]);
    let grid = grow(&Config::new(1, 1, 7).unwrap());
    assert_eq!(grid, vec![(0, 0, 0)]);
}

#[test]
fn too_many_seeds_rejected() {
    assert_eq!(Config::new(2, 65, 0), Err(ConfigError::TooManySeeds));
    assert!(matches!(make_image(2, 65, 0), Err(ConfigError::TooManySeeds)));
    assert!(Config::new(2, 64, 0).is_ok());
}

#[test]
fn zero_scale_rejected() {
    assert_eq!(Config::new(0, 1, 0), Err(ConfigError::ZeroScale));
    assert!(matches!(make_image(0, 1, 0), Err(ConfigError::ZeroScale)));
}

#[test]
fn zero_seeds_rejected() {
    assert_eq!(Config::new(2, 0, 0), Err(ConfigError::ZeroSeeds));
}

#[test]
fn oversized_scale_rejected() {
    assert_eq!(Config::new(17, 1, 0), Err(ConfigError::ScaleTooLarge));
    assert!(Config::new(16, 1, 0).is_ok());
}

#[test]
fn same_parameters_same_image() {
    let a = make_image(2, 4, 42).unwrap();
    let b = make_image(2, 4, 42).unwrap();
    assert_eq!(a.pixels, b.pixels);
    let c = make_image(3, 6, 5).unwrap();
    let d = make_image(3, 6, 5).unwrap();
    assert_eq!(c.pixels, d.pixels);
}

#[test]
fn scale_three_is_a_bijection() {
    let cfg = Config::new(3, 6, 1).unwrap();
    let grid = grow(&cfg);
    assert_eq!(grid.len(), 27 * 27);
    let seen: HashSet<ColorBase> = grid.iter().copied().collect();
    assert_eq!(seen, cube(9));
}

#[test]
fn single_seed_still_fills() {
    let grid = grow(&Config::new(2, 1, 3).unwrap());
    let seen: HashSet<ColorBase> = grid.iter().copied().collect();
    assert_eq!(seen, cube(4));
}

#[test]
fn every_location_seeded() {
    let grid = grow(&Config::new(2, 64, 3).unwrap());
    let seen: HashSet<ColorBase> = grid.iter().copied().collect();
    assert_eq!(seen, cube(4));
}
