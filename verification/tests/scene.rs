use rustbeam::scene::{
    default_worker_count, nearest_hit, worker_count_for, worker_pixels, worker_rows,
};
use std::collections::HashSet;

#[test]
fn worker_rows_stripe_the_image() {
    // y % workers == worker
    assert_eq!(worker_rows(7, 0, 3), vec![0, 3, 6]);
    assert_eq!(worker_rows(7, 1, 3), vec![1, 4]);
    assert_eq!(worker_rows(7, 2, 3), vec![2, 5]);
}

#[test]
fn worker_rows_single_worker_gets_everything() {
    assert_eq!(worker_rows(4, 0, 1), vec![0, 1, 2, 3]);
}

#[test]
fn worker_pixels_are_in_row_major_order() {
    let pixels = worker_pixels(3, 5, 1, 2);
    // worker 1 of 2 renders the odd rows 1 and 3
    assert_eq!(pixels, vec![(0, 1), (1, 1), (2, 1), (0, 3), (1, 3), (2, 3)]);
}

#[test]
fn worker_pixels_follow_the_row_residue() {
    // worker 1 of 3 owns exactly the rows with y % 3 == 1
    let pixels = worker_pixels(2, 7, 1, 3);
    assert_eq!(pixels, vec![(0, 1), (1, 1), (0, 4), (1, 4)]);
}

#[test]
fn worker_pixels_cover_the_grid_exactly_once() {
    let width = 4;
    let height = 5;
    let workers = 3;
    let mut seen: HashSet<(usize, usize)> = HashSet::new();
    let mut total = 0;
    for worker in 0..workers {
        for pair in worker_pixels(width, height, worker, workers) {
            assert!(pair.0 < width && pair.1 < height);
            assert!(seen.insert(pair), "pixel delivered twice");
            total += 1;
        }
    }
    assert_eq!(total, width * height);
}

#[test]
fn worker_pixels_with_more_workers_than_rows() {
    let width = 2;
    let height = 2;
    let workers = 5;
    let mut seen: HashSet<(usize, usize)> = HashSet::new();
    for worker in 0..workers {
        for pair in worker_pixels(width, height, worker, workers) {
            assert!(seen.insert(pair));
        }
    }
    assert_eq!(seen.len(), width * height);
}

#[test]
fn nearest_hit_on_no_surfaces_is_none() {
    let hits: Vec<Option<u64>> = Vec::new();
    assert_eq!(nearest_hit(&hits, 10), None);
}

#[test]
fn nearest_hit_ignores_misses() {
    let hits = vec![None, Some(50), None];
    assert_eq!(nearest_hit(&hits, 10), Some(1));
}

#[test]
fn nearest_hit_picks_the_smallest_distance() {
    let hits = vec![Some(400), Some(200), Some(300)];
    assert_eq!(nearest_hit(&hits, 10), Some(1));
}

#[test]
fn nearest_hit_breaks_ties_by_surface_order() {
    let hits = vec![Some(300), Some(200), Some(200)];
    assert_eq!(nearest_hit(&hits, 10), Some(1));
}

#[test]
fn nearest_hit_discards_everything_at_or_below_the_threshold() {
    // A surface the ray just left sits within the threshold: no re-intersection.
    let hits = vec![Some(10), Some(3)];
    assert_eq!(nearest_hit(&hits, 10), None);
}

#[test]
fn nearest_hit_skips_too_close_surfaces_but_keeps_far_ones() {
    let hits = vec![Some(5), Some(800), Some(900)];
    assert_eq!(nearest_hit(&hits, 10), Some(1));
}

#[test]
fn worker_count_reserves_one_cpu_for_the_consumer() {
    assert_eq!(worker_count_for(8), 7);
    assert_eq!(worker_count_for(2), 1);
}

#[test]
fn worker_count_never_drops_below_one() {
    assert_eq!(worker_count_for(1), 1);
    assert_eq!(worker_count_for(0), 1);
}

#[test]
fn default_worker_count_is_at_least_one() {
    assert!(default_worker_count() >= 1);
}
