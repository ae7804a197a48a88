use closest_pair::brute_force::closest_pair as closest_pair_bruteforce;
use closest_pair::divide_and_conquer::closest_pair;
use closest_pair::divide_and_conquer::recursive::closest_pair_recursive;
use closest_pair::divide_and_conquer::sort_by::{
    merge_sort_points, sort_points_by_x, sort_points_by_y, Axis,
};
use closest_pair::divide_and_conquer::strip::{
    closest_pair_in_strip, find_closest_pair_and_distance_in_strip,
};
use closest_pair::measure_execution_time::{closest_pair_timed, measure_execution_time};
use closest_pair::point::{contains_point, PairOfPoints, Point, PointRange, Points, SCALE};

fn pts(coords: &[(i32, i32)]) -> Points {
    coords.iter().map(|&(x, y)| Point::new(x, y)).collect()
}

fn d2(pair: &PairOfPoints) -> u128 {
    pair.0.squared_distance(&pair.1)
}

fn length(pair: &PairOfPoints) -> f64 {
    (d2(pair) as f64).sqrt() / SCALE as f64
}

fn same_pair(pair: &PairOfPoints, a: Point, b: Point) -> bool {
    (pair.0 == a && pair.1 == b) || (pair.0 == b && pair.1 == a)
}

/// A small deterministic generator, so that the larger checks repeat exactly.
struct Lcg(u64);

impl Lcg {
    fn next(&mut self, bound: i32) -> i32 {
        self.0 = self.0.wrapping_mul(6364136223846793005).wrapping_add(1442695040888963407);
        ((self.0 >> 33) % bound as u64) as i32
    }
}

fn random_points(n: usize, bound: i32, seed: u64) -> Points {
    let mut g = Lcg(seed);
    (0..n).map(|_| Point::new(g.next(bound), g.next(bound))).collect()
}

#[test]
fn squared_distance_is_exact() {
    let a = Point::new(0, 0);
    let b = Point::new(300, 400);
    assert_eq!(a.squared_distance(&b), 250_000);
    assert_eq!(b.squared_distance(&a), 250_000);
    assert_eq!(a.squared_distance(&a), 0);
    let far = Point::new(i32::MIN, i32::MIN);
    let other = Point::new(i32::MAX, i32::MAX);
    let span = (i32::MAX as i128 - i32::MIN as i128) as u128;
    assert_eq!(far.squared_distance(&other), 2 * span * span);
}

#[test]
fn three_points_scenario() {
    let points = pts(&[(0, 0), (300, 400), (100, 100)]);
    for found in [closest_pair(&points), closest_pair_bruteforce(&points)] {
        let pair = found.unwrap();
        assert!(same_pair(&pair, Point::new(0, 0), Point::new(100, 100)));
        assert_eq!(d2(&pair), 20_000);
        assert!((length(&pair) - 2f64.sqrt()).abs() < 1e-9);
    }
}

#[test]
fn two_points_scenario() {
    let points = pts(&[(0, 0), (1000, 1000)]);
    for found in [closest_pair(&points), closest_pair_bruteforce(&points)] {
        let pair = found.unwrap();
        assert!(same_pair(&pair, Point::new(0, 0), Point::new(1000, 1000)));
        assert!((length(&pair) - 200f64.sqrt()).abs() < 1e-9);
    }
}

#[test]
fn strip_scenario_across_the_split() {
    let points = pts(&[
        (0, 0),
        (0, 10_000),
        (10_000, 0),
        (10_000, 10_000),
        (5_000, 5_010),
        (5_000, 4_990),
    ]);
    for found in [closest_pair(&points), closest_pair_bruteforce(&points)] {
        let pair = found.unwrap();
        assert!(same_pair(&pair, Point::new(5_000, 5_010), Point::new(5_000, 4_990)));
        assert_eq!(d2(&pair), 400);
        assert!((length(&pair) - 0.2).abs() < 1e-9);
    }
}

#[test]
fn fewer_than_two_points_give_none() {
    let empty: Points = Vec::new();
    let single = pts(&[(7, 7)]);
    assert!(closest_pair(&empty).is_none());
    assert!(closest_pair(&single).is_none());
    assert!(closest_pair_bruteforce(&empty).is_none());
    assert!(closest_pair_bruteforce(&single).is_none());
    assert!(closest_pair_timed(&single).output.is_none());
}

#[test]
fn duplicate_points_give_zero() {
    let points = pts(&[(5, 9), (100, 100), (-40, 3), (100, 100), (7, -8)]);
    assert_eq!(d2(&closest_pair(&points).unwrap()), 0);
    assert_eq!(d2(&closest_pair_bruteforce(&points).unwrap()), 0);
    let all_same = pts(&[(1, 1), (1, 1), (1, 1), (1, 1), (1, 1), (1, 1), (1, 1)]);
    assert_eq!(d2(&closest_pair(&all_same).unwrap()), 0);
}

#[test]
fn repeated_calls_agree() {
    let points = random_points(300, 5_000, 11);
    let first = d2(&closest_pair(&points).unwrap());
    for _ in 0..3 {
        assert_eq!(d2(&closest_pair(&points).unwrap()), first);
        assert_eq!(d2(&closest_pair_bruteforce(&points).unwrap()), first);
    }
}

#[test]
fn reordering_keeps_the_distance() {
    let points = random_points(200, 10_000, 5);
    let expected = d2(&closest_pair(&points).unwrap());
    let mut reversed = points.clone();
    reversed.reverse();
    let mut rotated = points.clone();
    rotated.rotate_left(77);
    let mut g = Lcg(99);
    let mut shuffled = points.clone();
    for i in (1..shuffled.len()).rev() {
        let j = g.next(i as i32 + 1) as usize;
        shuffled.swap(i, j);
    }
    for other in [reversed, rotated, shuffled] {
        assert_eq!(d2(&closest_pair(&other).unwrap()), expected);
        assert_eq!(d2(&closest_pair_bruteforce(&other).unwrap()), expected);
    }
}

#[test]
fn divide_and_conquer_agrees_with_brute_force() {
    let mut seed: u64 = 1;
    for n in [2usize, 3, 4, 5, 6, 7, 8, 9, 10, 16, 17, 31, 64, 100, 257, 1000, 2000] {
        for bound in [3, 50, 100_000_000] {
            seed += 1;
            let points = random_points(n, bound, seed);
            let fast = closest_pair(&points).unwrap();
            let slow = closest_pair_bruteforce(&points).unwrap();
            assert_eq!(d2(&fast), d2(&slow), "n = {}, bound = {}", n, bound);
            assert!(contains_point(&points, &fast.0));
            assert!(contains_point(&points, &fast.1));
        }
    }
}

#[test]
fn points_on_one_vertical_line() {
    let points: Points = (0..50).map(|k| Point::new(10, k * k)).collect();
    let pair = closest_pair(&points).unwrap();
    assert!(same_pair(&pair, Point::new(10, 0), Point::new(10, 1)));
    assert_eq!(d2(&closest_pair_bruteforce(&points).unwrap()), 1);
}

#[test]
fn brute_force_keeps_the_first_of_equal_pairs() {
    let points = pts(&[(0, 0), (0, 5), (100, 0), (100, 5)]);
    let pair = closest_pair_bruteforce(&points).unwrap();
    assert_eq!(pair, (Point::new(0, 0), Point::new(0, 5)));
}

#[test]
fn sorting_by_each_axis() {
    let points = pts(&[(3, 5), (1, 2), (4, 1), (1, -7), (3, 5)]);
    assert_eq!(
        sort_points_by_x(&points),
        pts(&[(1, -7), (1, 2), (3, 5), (3, 5), (4, 1)])
    );
    assert_eq!(
        sort_points_by_y(&points),
        pts(&[(1, -7), (4, 1), (1, 2), (3, 5), (3, 5)])
    );
    assert_eq!(merge_sort_points(&points, Axis::Y), sort_points_by_y(&points));
    assert_eq!(merge_sort_points(&Vec::new(), Axis::X), Vec::new());
    assert_eq!(points, pts(&[(3, 5), (1, 2), (4, 1), (1, -7), (3, 5)]));
}

#[test]
fn sorting_large_input_matches_std() {
    let points = random_points(1500, 40, 3);
    let mut expected = points.clone();
    expected.sort_by_key(|p| (p.x, p.y));
    assert_eq!(sort_points_by_x(&points), expected);
    expected.sort_by_key(|p| (p.y, p.x));
    assert_eq!(sort_points_by_y(&points), expected);
}

#[test]
fn strip_search_finds_window_pair() {
    let strip = pts(&[(0, 0), (50, 10), (3, 12), (40, 30)]);
    let (d, pair) = find_closest_pair_and_distance_in_strip(&strip).unwrap();
    assert_eq!(pair, (Point::new(0, 0), Point::new(3, 12)));
    assert_eq!(d, 153);
    let (d2_again, pair_again) = closest_pair_in_strip(&strip);
    assert_eq!(d2_again, 153);
    assert_eq!(pair_again, Some(pair));
}

#[test]
fn strip_search_looks_fifteen_ahead_only() {
    // The two points at distance 1 stand sixteen positions apart.
    let mut strip = pts(&[(0, 0)]);
    for k in 1..16 {
        strip.push(Point::new(if k % 2 == 0 { 1_000 } else { -1_000 }, 10 * k));
    }
    strip.push(Point::new(1, 0));
    let (d, pair) = find_closest_pair_and_distance_in_strip(&strip).unwrap();
    assert!(d > 1);
    assert_ne!(pair, (Point::new(0, 0), Point::new(1, 0)));
    strip.remove(8);
    let (d, pair) = find_closest_pair_and_distance_in_strip(&strip).unwrap();
    assert_eq!(d, 1);
    assert_eq!(pair, (Point::new(0, 0), Point::new(1, 0)));
}

#[test]
fn strip_search_on_short_strips() {
    let empty: Points = Vec::new();
    assert!(find_closest_pair_and_distance_in_strip(&empty).is_none());
    assert!(find_closest_pair_and_distance_in_strip(&pts(&[(1, 1)])).is_none());
    assert_eq!(closest_pair_in_strip(&empty), (u128::MAX, None));
}

#[test]
fn recursive_search_on_sorted_views() {
    let points = pts(&[(9, 9), (0, 0), (4, 4), (5, 6), (20, 1), (-3, 8), (4, 4)]);
    let px = sort_points_by_x(&points);
    let py = sort_points_by_y(&points);
    let pair = closest_pair_recursive(&px, &py).unwrap();
    assert_eq!(pair, (Point::new(4, 4), Point::new(4, 4)));
    let two = pts(&[(1, 2), (3, 4)]);
    assert!(closest_pair_recursive(&two[..1].to_vec(), &two[..1].to_vec()).is_none());
}

#[test]
fn point_ranges() {
    let range = PointRange::new_from_capacity(5);
    assert_eq!(range.max, 300);
    assert_eq!(range.min, -300);
    assert_eq!(range.to_native_range(), -300..300);
    let even = PointRange::new_from_capacity(10);
    assert_eq!((even.min, even.max), (-500, 500));
    let zero = PointRange::new_from_capacity(0);
    assert_eq!((zero.min, zero.max), (0, 0));
}

#[test]
fn random_points_stay_in_range() {
    let range = PointRange { min: -20, max: 20 };
    let mut seen_negative = false;
    let mut seen_positive = false;
    for _ in 0..500 {
        let p = Point::generate_random(&range);
        assert!(range.min <= p.x && p.x < range.max);
        assert!(range.min <= p.y && p.y < range.max);
        seen_negative |= p.x < 0;
        seen_positive |= p.x > 0;
    }
    assert!(seen_negative && seen_positive);
    let narrow = PointRange { min: 7, max: 8 };
    assert_eq!(Point::generate_random(&narrow), Point::new(7, 7));
}

#[test]
fn contains_point_checks_values() {
    let points = pts(&[(1, 2), (3, 4)]);
    assert!(contains_point(&points, &Point::new(3, 4)));
    assert!(!contains_point(&points, &Point::new(4, 3)));
    assert!(!contains_point(&Vec::new(), &Point::new(0, 0)));
}

#[test]
fn measuring_returns_the_output() {
    let timed = measure_execution_time(|n: u64| n.wrapping_mul(3), 14);
    assert_eq!(timed.output, 42);
    let points = pts(&[(0, 0), (300, 400), (100, 100)]);
    let timed = closest_pair_timed(&points);
    assert_eq!(d2(&timed.output.unwrap()), 20_000);
    assert!(timed.duration.as_secs() < 20);
}
