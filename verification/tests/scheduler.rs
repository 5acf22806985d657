use std::collections::HashMap;

use talon::{ratio_less, DirectedDistanceScheduler, Ratio};

fn value(r: &Ratio) -> f64 {
    r.num as f64 / r.den as f64
}

#[test]
fn temperature_starts_hot() {
    let s = DirectedDistanceScheduler::with_cooling(HashMap::new(), 5_000_000);
    assert_eq!(value(&s.current_temperature(0)), 1.0);
}

#[test]
fn temperature_cools_linearly_until_the_floor() {
    let s = DirectedDistanceScheduler::with_cooling(HashMap::new(), 5_000_000);

    assert_eq!(value(&s.current_temperature(2_500_000)), 0.5);
    assert_eq!(value(&s.current_temperature(5_000_000)), 0.01);
    assert_eq!(value(&s.current_temperature(50_000_000)), 0.01);
}

#[test]
fn temperature_strictly_decreases_while_cooling() {
    let s = DirectedDistanceScheduler::with_cooling(HashMap::new(), 1_000_000);

    let mut last = s.current_temperature(0);
    for step in [200_000, 400_000, 600_000, 800_000] {
        let t = s.current_temperature(step);
        assert!(ratio_less(&t, &last));
        assert!(value(&t) < value(&last));
        last = t;
    }
}

#[test]
fn seed_distance_is_the_mean_over_hit_blocks() {
    let s = DirectedDistanceScheduler::with_cooling(HashMap::from([(100, 2), (102, 4)]), 5_000_000);

    let mut signals = vec![0u8; 103];
    signals[100] = 1;
    signals[102] = 1;
    assert_eq!(value(&s.calculate_seed_distance(&signals)), 3.0);
}

#[test]
fn seed_distance_falls_back_without_hits() {
    let s = DirectedDistanceScheduler::with_cooling(HashMap::from([(100, 2)]), 5_000_000);

    let signals = vec![0u8; 103];
    assert_eq!(value(&s.calculate_seed_distance(&signals)), 1.0);
}

#[test]
fn temperature_is_exactly_one_minus_the_elapsed_fraction() {
    let s = DirectedDistanceScheduler::with_cooling(HashMap::new(), 4_000);
    let t = s.current_temperature(1_000);
    assert_eq!((t.num, t.den), (3_000, 4_000));
    let floor = s.current_temperature(4_000);
    assert_eq!((floor.num, floor.den), (1, 100));
}

#[test]
fn temperature_without_cooling_time_is_the_floor() {
    let s = DirectedDistanceScheduler::with_cooling(HashMap::new(), 0);
    let t = s.current_temperature(0);
    assert_eq!((t.num, t.den), (1, 100));
}

#[test]
fn hits_without_a_known_distance_do_not_count() {
    let s = DirectedDistanceScheduler::with_cooling(HashMap::from([(1, 7), (3, 5)]), 1);
    let signals = [0u8, 4, 9, 0];
    assert_eq!(s.hit_stats(&signals), (1, 7));
    let d = s.calculate_seed_distance(&signals);
    assert_eq!((d.num, d.den), (7, 1));
}

#[test]
fn seed_distance_keeps_the_exact_fraction() {
    let s = DirectedDistanceScheduler::with_cooling(HashMap::from([(0, 1), (1, 2), (2, 2)]), 1);
    let d = s.calculate_seed_distance(&[1, 1, 1]);
    assert_eq!((d.num, d.den), (5, 3));
}

#[test]
fn seed_distance_of_a_mean_lies_between_the_extremes() {
    let s = DirectedDistanceScheduler::with_cooling(HashMap::from([(0, 2), (1, 9), (5, 4)]), 1);
    let d = s.calculate_seed_distance(&[3, 1, 0, 0, 0, 1]);
    let v = value(&d);
    assert!((2.0..=9.0).contains(&v));
    assert_eq!((d.num, d.den), (15, 3));
}

#[test]
fn ratio_comparison_is_exact() {
    let a = Ratio { num: 1, den: 3 };
    let b = Ratio { num: 2, den: 6 };
    assert!(!ratio_less(&a, &b));
    assert!(!ratio_less(&b, &a));
    let big = Ratio { num: u128::MAX, den: u64::MAX };
    let bigger = Ratio { num: u128::MAX, den: u64::MAX - 1 };
    assert!(ratio_less(&big, &bigger));
    assert!(!ratio_less(&bigger, &big));
    assert!(ratio_less(&Ratio { num: 7, den: 10 }, &Ratio { num: 4, den: 5 }));
}

#[test]
fn next_seed_is_the_fallback_while_hot() {
    let mut s = DirectedDistanceScheduler::with_cooling(HashMap::new(), 1_000);
    s.seed_distances.push((4, Ratio { num: 0, den: 1 }));
    assert_eq!(s.select_next(0, 9), 9);
    assert_eq!(s.select_next(199, 9), 9);
    assert_eq!(s.select_next(200, 9), 4);
}

#[test]
fn next_seed_is_the_fallback_without_seed_distances() {
    let s = DirectedDistanceScheduler::with_cooling(HashMap::new(), 1_000);
    assert_eq!(s.select_next(900, 3), 3);
    assert_eq!(s.select_next(5_000, 3), 3);
}

#[test]
fn next_seed_is_the_first_nearest_once_cooled() {
    let mut s = DirectedDistanceScheduler::with_cooling(HashMap::new(), 1_000);
    s.seed_distances.push((10, Ratio { num: 5, den: 2 }));
    s.seed_distances.push((11, Ratio { num: 3, den: 2 }));
    s.seed_distances.push((12, Ratio { num: 6, den: 4 }));
    s.seed_distances.push((13, Ratio { num: 2, den: 1 }));
    assert_eq!(s.select_next(5_000, 0), 11);
}

#[test]
fn next_corpus_id_refuses_an_empty_corpus() {
    let s = DirectedDistanceScheduler::with_cooling(HashMap::new(), 1_000);
    assert_eq!(s.next_corpus_id(0, 0, None, None), None);
    assert_eq!(s.next_corpus_id(5_000, 0, Some(3), Some(0)), None);
}

#[test]
fn next_corpus_id_falls_back_to_the_last_then_the_first_entry() {
    let s = DirectedDistanceScheduler::with_cooling(HashMap::new(), 1_000);
    assert_eq!(s.next_corpus_id(0, 4, Some(3), Some(0)), Some(3));
    assert_eq!(s.next_corpus_id(0, 4, None, Some(0)), Some(0));
}

#[test]
fn next_corpus_id_picks_the_nearest_seed_once_cooled() {
    let mut s = DirectedDistanceScheduler::with_cooling(HashMap::new(), 1_000);
    s.seed_distances.push((1, Ratio { num: 9, den: 1 }));
    s.seed_distances.push((2, Ratio { num: 1, den: 2 }));
    assert_eq!(s.next_corpus_id(100, 3, Some(2), Some(0)), Some(2));
    assert_eq!(s.next_corpus_id(900, 3, Some(0), Some(0)), Some(2));
}

#[test]
fn seeds_with_the_same_hits_have_the_same_distance() {
    let s = DirectedDistanceScheduler::with_cooling(HashMap::from([(1, 4), (2, 8)]), 1);
    let a = s.calculate_seed_distance(&[0, 1, 1]);
    let b = s.calculate_seed_distance(&[9, 200, 3, 5, 0, 0]);
    assert_eq!((a.num, a.den), (b.num, b.den));
    assert_eq!((a.num, a.den), (12, 2));
}

#[test]
fn seed_distance_lies_between_the_hit_extremes() {
    let s = DirectedDistanceScheduler::with_cooling(HashMap::from([(0, 100), (1, 3), (2, 5)]), 1);
    let d = s.calculate_seed_distance(&[0, 1, 1]);
    let v = value(&d);
    assert!((3.0..=5.0).contains(&v));
}
