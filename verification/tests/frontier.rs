use basic::candidate::Candidate;
use basic::frontier::Frontier;
use basic::quads::{is_small, Quad};
use basic::raster::Raster;
use std::cmp::Ordering;

fn rank(r: u32, g: u32, b: u32, area: u64) -> u64 {
    let error = 0.3 * (r as f32).sqrt() + 0.6 * (g as f32).sqrt() + (b as f32).sqrt() + 0.1;
    (f64::from(error) * (area as f64).powf(0.25)).to_bits()
}

fn candidate(slot: usize, q: &Quad) -> Candidate {
    Candidate { slot, small: is_small(q), rank: rank(q.spread.0, q.spread.1, q.spread.2, q.area()) }
}

#[test]
fn candidates_compare_by_kind_then_rank() {
    let big_low = Candidate { slot: 0, small: false, rank: 1 };
    let big_high = Candidate { slot: 1, small: false, rank: 9 };
    let small_low = Candidate { slot: 2, small: true, rank: 1 };
    let small_high = Candidate { slot: 3, small: true, rank: 9 };
    assert_eq!(small_high.cmp(&big_low), Ordering::Less);
    assert_eq!(big_low.cmp(&small_high), Ordering::Greater);
    assert_eq!(big_low.cmp(&big_high), Ordering::Less);
    assert_eq!(big_high.cmp(&big_low), Ordering::Greater);
    assert_eq!(small_low.cmp(&small_high), Ordering::Less);
    assert_eq!(small_high.cmp(&small_low), Ordering::Greater);
    assert_eq!(big_low.cmp(&Candidate { slot: 7, small: false, rank: 1 }), Ordering::Equal);
    assert!(big_low.outranks(small_high));
    assert!(!small_high.outranks(big_low));
    assert!(big_high.outranks(big_low));
    assert!(!big_low.outranks(big_low));
}

#[test]
fn frontier_serves_the_highest_rank_first() {
    let mut frontier = Frontier::new();
    let ranks = [5u64, 3, 9, 1, 7, 7, 0, 8, 2, 6, 4];
    for (slot, rank) in ranks.iter().enumerate() {
        frontier.push(Candidate { slot, small: false, rank: *rank });
    }
    assert_eq!(frontier.len(), ranks.len());
    let mut served = Vec::new();
    while let Some(c) = frontier.pop() {
        assert_eq!(ranks[c.slot], c.rank);
        served.push(c.rank);
    }
    assert_eq!(served, vec![9, 8, 7, 7, 6, 5, 4, 3, 2, 1, 0]);
    assert_eq!(frontier.len(), 0);
    assert_eq!(frontier.pop(), None);
}

#[test]
fn frontier_keeps_what_is_pushed_twice() {
    let mut frontier = Frontier::new();
    let c = Candidate { slot: 4, small: true, rank: 4 };
    frontier.push(c);
    frontier.push(c);
    assert_eq!(frontier.len(), 2);
    assert_eq!(frontier.pop(), Some(c));
    assert_eq!(frontier.pop(), Some(c));
    assert_eq!(frontier.pop(), None);
}

#[test]
fn frontier_serves_small_regions_last() {
    let mut frontier = Frontier::new();
    for slot in 0..20 {
        frontier.push(Candidate { slot, small: slot % 2 == 0, rank: (slot as u64 * 37) % 11 });
    }
    let mut seen_small = false;
    let mut last: Option<Candidate> = None;
    while let Some(c) = frontier.pop() {
        if c.small {
            seen_small = true;
        } else {
            assert!(!seen_small);
        }
        if let Some(before) = last {
            assert!(!c.outranks(before));
        }
        last = Some(c);
    }
    assert!(seen_small);
}

#[test]
fn small_region_with_high_error_waits_for_large_one_with_low_error() {
    // A flat picture but for a chequered corner of two by two pixels.
    let (width, height) = (12u32, 10u32);
    let mut data = Vec::new();
    for y in 0..height {
        for x in 0..width {
            let v = if x >= 10 && y < 2 && (x + y) % 2 == 0 { 255 } else { 0 };
            data.extend_from_slice(&[v, v, v, 255]);
        }
    }
    let image = Raster::new(width, height, data).unwrap();
    let noisy = Quad::new(10, 0, 12, 2, &image);
    let calm = Quad::new(0, 0, 10, 10, &image);
    assert_eq!(noisy.spread, (16256, 16256, 16256));
    assert_eq!(calm.spread, (0, 0, 0));
    let (noisy, calm) = (candidate(0, &noisy), candidate(1, &calm));
    assert!(noisy.small && !calm.small);
    assert!(f64::from_bits(noisy.rank) > f64::from_bits(calm.rank));
    assert!(noisy.rank > calm.rank);

    let mut frontier = Frontier::new();
    frontier.push(noisy);
    frontier.push(calm);
    assert_eq!(frontier.pop(), Some(calm));
    assert_eq!(frontier.pop(), Some(noisy));

    let mut frontier = Frontier::new();
    frontier.push(calm);
    frontier.push(noisy);
    assert_eq!(frontier.pop(), Some(calm));
    assert_eq!(frontier.pop(), Some(noisy));
}
