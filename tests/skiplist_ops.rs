use skiplist::{Node, SkipList, SkipListError, DEFAULT_MAX_LEVEL};

fn sorted_strictly(keys: &[i64]) -> bool {
    keys.windows(2).all(|w| w[0] < w[1])
}

#[test]
fn concrete_scenario() {
    let mut s: SkipList<i64> = SkipList::new();
    assert_eq!(s.insert(1, 10), Ok(()));
    assert_eq!(s.insert(2, 20), Ok(()));
    assert_eq!(s.insert(3, 30), Ok(()));
    assert_eq!(s.find(2), Some(&20));
    assert_eq!(s.delete(2), Ok(Some(20)));
    assert_eq!(s.find(2), None);
    assert_eq!(s.find(1), Some(&10));
    assert_eq!(s.find(3), Some(&30));
}

#[test]
fn round_trip_single_keys() {
    for &k in &[0i64, 1, -1, 42, i64::MIN, i64::MAX] {
        let mut s: SkipList<i64> = SkipList::new();
        assert_eq!(s.insert(k, k.wrapping_mul(3)), Ok(()));
        assert_eq!(s.find(k), Some(&k.wrapping_mul(3)));
    }
}

#[test]
fn find_on_empty_list() {
    let s: SkipList<i64> = SkipList::new();
    assert_eq!(s.find(0), None);
    assert_eq!(s.height(), 1);
    assert_eq!(s.snapshot_levels(), vec![Vec::<i64>::new()]);
}

#[test]
fn update_keeps_one_node() {
    let mut s: SkipList<&str> = SkipList::new();
    assert_eq!(s.insert(5, "first"), Ok(()));
    assert_eq!(s.insert(7, "other"), Ok(()));
    assert_eq!(s.insert(5, "second"), Ok(()));
    assert_eq!(s.find(5), Some(&"second"));
    let levels = s.snapshot_levels();
    assert_eq!(levels[0], vec![5, 7]);
    for level in &levels {
        assert_eq!(level.iter().filter(|&&k| k == 5).count() <= 1, true);
    }
}

#[test]
fn delete_then_find_and_delete_again() {
    let mut s: SkipList<i64> = SkipList::new();
    assert_eq!(s.insert(9, 90), Ok(()));
    assert_eq!(s.delete(9), Ok(Some(90)));
    assert_eq!(s.find(9), None);
    assert_eq!(s.delete(9), Ok(None));
    assert_eq!(s.delete(123), Ok(None));
    assert_eq!(s.snapshot_levels(), vec![Vec::<i64>::new()]);
}

#[test]
fn disjoint_blocks_all_found() {
    let mut s: SkipList<i64> = SkipList::new();
    for t in 0..4i64 {
        for k in t * 1000..t * 1000 + 1000 {
            assert_eq!(s.insert(k, k + 1), Ok(()));
        }
    }
    for k in 0..4000i64 {
        assert_eq!(s.find(k), Some(&(k + 1)));
    }
    for k in [-1i64, 4000, 4001, 10_000, i64::MIN, i64::MAX] {
        assert_eq!(s.find(k), None);
    }
    let levels = s.snapshot_levels();
    assert_eq!(levels[0].len(), 4000);
}

#[test]
fn levels_sorted_and_nested() {
    let mut s: SkipList<u32> = SkipList::new();
    let mut k: i64 = 7;
    for i in 0..500u32 {
        k = (k * 7919 + 13) % 1009;
        assert_eq!(s.insert(k - 500, i), Ok(()));
    }
    for i in 0..200i64 {
        let _ = s.delete((i * 37) % 1009 - 500);
    }
    let levels = s.snapshot_levels();
    assert_eq!(levels.len(), s.height());
    assert!(s.height() >= 1 && s.height() <= DEFAULT_MAX_LEVEL);
    for l in 0..levels.len() {
        assert!(sorted_strictly(&levels[l]));
        if l > 0 {
            for key in &levels[l] {
                assert!(levels[l - 1].contains(key));
            }
        }
    }
    assert!(!levels[levels.len() - 1].is_empty() || levels.len() == 1);
}

#[test]
fn insert_with_level_places_node_on_its_levels() {
    let mut s: SkipList<i64> = SkipList::new();
    assert_eq!(s.insert_with_level(10, 100, 3), Ok(()));
    assert_eq!(s.insert_with_level(20, 200, 1), Ok(()));
    assert_eq!(s.insert_with_level(5, 50, 2), Ok(()));
    assert_eq!(s.height(), 3);
    assert_eq!(
        s.snapshot_levels(),
        vec![vec![5, 10, 20], vec![5, 10], vec![10]]
    );
    // an update keeps the node and its levels
    assert_eq!(s.insert_with_level(10, 101, 1), Ok(()));
    assert_eq!(s.find(10), Some(&101));
    assert_eq!(
        s.snapshot_levels(),
        vec![vec![5, 10, 20], vec![5, 10], vec![10]]
    );
}

#[test]
fn delete_lowers_height() {
    let mut s: SkipList<i64> = SkipList::new();
    assert_eq!(s.insert_with_level(1, 1, 5), Ok(()));
    assert_eq!(s.insert_with_level(2, 2, 2), Ok(()));
    assert_eq!(s.height(), 5);
    assert_eq!(s.delete(1), Ok(Some(1)));
    assert_eq!(s.height(), 2);
    assert_eq!(s.snapshot_levels(), vec![vec![2], vec![2]]);
    assert_eq!(s.delete(2), Ok(Some(2)));
    assert_eq!(s.height(), 1);
}

#[test]
fn deleted_slot_is_reused() {
    let mut s: SkipList<String> = SkipList::new();
    for k in 1..=5i64 {
        assert_eq!(s.insert_with_level(k, format!("v{}", k), 2), Ok(()));
    }
    assert_eq!(s.delete(3), Ok(Some("v3".to_string())));
    assert_eq!(s.insert_with_level(6, "v6".to_string(), 1), Ok(()));
    assert_eq!(s.insert_with_level(0, "v0".to_string(), 2), Ok(()));
    assert_eq!(
        s.snapshot_levels(),
        vec![vec![0, 1, 2, 4, 5, 6], vec![0, 1, 2, 4, 5]]
    );
    for k in [0i64, 1, 2, 4, 5, 6] {
        assert_eq!(s.find(k), Some(&format!("v{}", k)));
    }
    assert_eq!(s.find(3), None);
}

#[test]
fn error_variant_compares() {
    let e = SkipListError::AllocationFailure;
    assert_eq!(e, SkipListError::AllocationFailure);
    assert_eq!(format!("{:?}", e), "AllocationFailure");
}

#[test]
fn node_constructors() {
    let head: Node<i64> = Node::new(4);
    assert_eq!(head.forward, vec![None; 4]);
    assert_eq!(head.value, None);
    let n = Node::node(2, -3, 7u8);
    assert_eq!(n.key, -3);
    assert_eq!(n.value, Some(7u8));
    assert_eq!(n.forward, vec![None, None]);
}

#[test]
fn insert_order_does_not_matter() {
    let mut a: SkipList<i64> = SkipList::new();
    let mut b: SkipList<i64> = SkipList::new();
    for k in 0..300i64 {
        assert_eq!(a.insert(k, -k), Ok(()));
        assert_eq!(b.insert(299 - k, k - 299), Ok(()));
    }
    assert_eq!(a.snapshot_levels()[0], b.snapshot_levels()[0]);
    for k in -5..305i64 {
        assert_eq!(a.find(k), b.find(k));
    }
}
