use allcolors::search::{nearby_unused, nearest_member, reference_color};
use allcolors::kernel::{color_kernel, spatial_kernel};
use allcolors::Pool;
use rand::rngs::StdRng;
use rand::SeedableRng;

#[test]
fn spatial_kernel_is_ordered_and_complete() {
    let k = spatial_kernel(3);
    assert_eq!(k.len(), 25);
    assert_eq!(k[0], (0, 0));
    assert_eq!(&k[1..5], &[(-1, 0), (0, -1), (0, 1), (1, 0)]);
    for w in k.windows(2) {
        let a = w[0].0 * w[0].0 + w[0].1 * w[0].1;
        let b = w[1].0 * w[1].0 + w[1].1 * w[1].1;
        assert!(a <= b);
    }
    assert_eq!(k[24], (2, 2));
}

#[test]
fn color_kernel_is_ordered_and_complete() {
    let k = color_kernel(4);
    assert_eq!(k.len(), 343);
    assert_eq!(k[0], (0, 0, 0));
    assert_eq!(k[1], (-1, 0, 0));
    for w in k.windows(2) {
        let a = w[0].0 * w[0].0 + w[0].1 * w[0].1 + w[0].2 * w[0].2;
        let b = w[1].0 * w[1].0 + w[1].1 * w[1].1 + w[1].2 * w[1].2;
        assert!(a <= b);
    }
    assert_eq!(k[342], (3, 3, 3));
}

#[test]
fn pool_draws_every_element_once() {
    let mut rng = StdRng::seed_from_u64(9);
    let mut p = Pool::full(50);
    assert_eq!(p.len(), 50);
    let mut seen = vec![false; 50];
    for _ in 0..50 {
        let k = p.remove_random(&mut rng).unwrap();
        assert!(!seen[k]);
        seen[k] = true;
    }
    assert_eq!(p.len(), 0);
    assert_eq!(p.remove_random(&mut rng), None);
}

#[test]
fn pool_named_removal() {
    let mut p = Pool::full(5);
    p.remove(3);
    assert!(!p.contains(3));
    assert!(p.contains(4));
    assert_eq!(p.len(), 4);
    p.remove(3);
    assert_eq!(p.len(), 4);
    assert!(!p.contains(9));
}

#[test]
fn pool_sampling_is_uniform() {
    let n = 10;
    let trials = 20000;
    let mut counts = vec![0u64; n];
    let mut rng = StdRng::seed_from_u64(12345);
    for t in 0..trials {
        let mut p = Pool::full(n);
        // drain a varying amount first so that the storage order is mixed
        for _ in 0..(t % 3) {
            let k = p.remove_random(&mut rng).unwrap();
            counts[k] += 1;
        }
        let k = p.remove_random(&mut rng).unwrap();
        counts[k] += 1;
    }
    let total: u64 = counts.iter().sum();
    let expected = total as f64 / n as f64;
    let chi2: f64 = counts
        .iter()
        .map(|&c| {
            let d = c as f64 - expected;
            d * d / expected
        })
        .sum();
    // 9 degrees of freedom, p = 0.001
    assert!(chi2 < 27.88, "chi-square {chi2}");
}

#[test]
fn nearest_member_breaks_ties_lexicographically() {
    let members = vec![(2, 1, 1), (1, 2, 1), (1, 1, 2), (0, 1, 1)];
    assert_eq!(nearest_member(&members, (1, 1, 1)), Some((0, 1, 1)));
    assert_eq!(nearest_member(&vec![(3, 3, 3), (0, 0, 1)], (0, 0, 0)), Some((0, 0, 1)));
    assert_eq!(nearest_member(&vec![], (0, 0, 0)), None);
}

#[test]
fn reference_color_finds_nearest_placed_cell() {
    let k = spatial_kernel(3);
    let mut grid: Vec<Option<usize>> = vec![None; 9];
    assert_eq!(reference_color(&grid, 3, &k, 4), None);
    grid[8] = Some(5);
    grid[1] = Some(7);
    // from the center, (1,0) offset is nearer than (1,1)
    assert_eq!(reference_color(&grid, 3, &k, 4), Some(7));
    assert_eq!(reference_color(&grid, 3, &k, 7), Some(5));
}

#[test]
fn nearby_unused_skips_used_colors() {
    let k = color_kernel(2);
    let mut p = Pool::full(8);
    p.remove(0);
    // after (0,0,0) the kernel goes (-1,0,0), (0,-1,0), (0,0,-1), (0,0,1):
    // (0,0,1), code 1, is the first unused color in the cube
    assert_eq!(nearby_unused(&p, 2, &k, 27, (0, 0, 0)), Some((0, 0, 1)));
    assert_eq!(nearby_unused(&p, 2, &k, 1, (0, 0, 0)), None);
    p.remove(1);
    assert_eq!(nearby_unused(&p, 2, &k, 27, (0, 0, 0)), Some((0, 1, 0)));
}
