use skiplist::{level_from_trials, LevelGenerator, SkipList, DEFAULT_MAX_LEVEL};

#[test]
fn level_from_leading_successes() {
    assert_eq!(level_from_trials(&vec![], 16), 1);
    assert_eq!(level_from_trials(&vec![false, true, true], 16), 1);
    assert_eq!(level_from_trials(&vec![true, true, false, true], 16), 3);
    assert_eq!(level_from_trials(&vec![true; 20], 4), 4);
    assert_eq!(level_from_trials(&vec![true, true], 16), 3);
    assert_eq!(level_from_trials(&vec![true; 5], 1), 1);
}

#[test]
fn generator_config_checks() {
    assert!(LevelGenerator::with_config(0, 1, 2).is_none());
    assert!(LevelGenerator::with_config(4, 3, 2).is_none());
    assert!(LevelGenerator::with_config(4, 1, 0).is_none());
    let g = LevelGenerator::with_config(4, 2, 2).unwrap();
    assert_eq!(g.max_level, 4);
    let d = LevelGenerator::new();
    assert_eq!(d.max_level, DEFAULT_MAX_LEVEL);
    assert_eq!((d.numerator, d.denominator), (1, 2));
}

#[test]
fn certain_and_impossible_trials() {
    let always = LevelGenerator::with_config(8, 1, 1).unwrap();
    let never = LevelGenerator::with_config(8, 0, 5).unwrap();
    for _ in 0..100 {
        assert_eq!(always.next_level(), 8);
        assert_eq!(never.next_level(), 1);
    }
}

#[test]
fn level_distribution_is_geometric() {
    let g = LevelGenerator::new();
    let trials = 40_000usize;
    let mut counts = vec![0usize; DEFAULT_MAX_LEVEL + 1];
    for _ in 0..trials {
        let l = g.next_level();
        assert!(l >= 1 && l <= DEFAULT_MAX_LEVEL);
        counts[l] += 1;
    }
    let f1 = counts[1] as f64 / trials as f64;
    let f2 = counts[2] as f64 / trials as f64;
    let f3 = counts[3] as f64 / trials as f64;
    assert!((f1 - 0.5).abs() < 0.03, "level 1: {}", f1);
    assert!((f2 - 0.25).abs() < 0.03, "level 2: {}", f2);
    assert!((f3 - 0.125).abs() < 0.03, "level 3: {}", f3);
}

#[test]
fn generator_with_single_level_cap() {
    let g = LevelGenerator::with_config(1, 1, 1).unwrap();
    assert_eq!(g.next_level(), 1);
    let mut s: SkipList<i64> = SkipList::with_generator(g);
    for k in 0..50i64 {
        assert_eq!(s.insert(k, k), Ok(()));
    }
    assert_eq!(s.height(), 1);
    assert_eq!(s.snapshot_levels().len(), 1);
}

#[test]
fn tall_generator_raises_height() {
    let g = LevelGenerator::with_config(6, 1, 1).unwrap();
    let mut s: SkipList<i64> = SkipList::with_generator(g);
    assert_eq!(s.insert(3, 30), Ok(()));
    assert_eq!(s.height(), 6);
    assert_eq!(s.snapshot_levels(), vec![vec![3]; 6]);
}
