use bbst::left_leaning_rbtree::{collect, is_valid, Rbtree};
use rand::{rngs::StdRng, Rng, SeedableRng};
use std::collections::BTreeSet;

#[test]
fn test_insert_remove() {
    let mut rng = StdRng::seed_from_u64(42);
    for _ in 0..2000 {
        let q = 100;
        let insert_ratio = rng.random_range(0.0..=1.0);
        let key_lim = 30;
        let mut tree = Rbtree::default();
        let mut btree_set = BTreeSet::new();
        for _ in 0..q {
            let die = rng.random_range(0.0..=1.0);
            let key = rng.random_range(0..key_lim);
            if die <= insert_ratio {
                println!("Insert {key}");
                tree.insert(key);
                btree_set.insert(key);
            } else {
                println!("Remove {key}");
                tree.remove(key);
                btree_set.remove(&key);
            }
            assert!(is_valid(tree.root()));
            assert_eq!(
                collect(tree.root()),
                btree_set.iter().copied().collect::<Vec<_>>().as_slice(),
            );
        }
    }
}

#[test]
fn keyed_insert_keeps_keys_in_order_and_once() {
    let mut tree = Rbtree::default();
    for key in [5, 1, 9, 5, -3, 9, 0, i64::MAX, i64::MIN] {
        tree.insert(key);
        assert!(is_valid(tree.root()));
    }
    assert_eq!(
        collect(tree.root()),
        vec![i64::MIN, -3, 0, 1, 5, 9, i64::MAX]
    );
}

#[test]
fn keyed_remove_of_absent_key_changes_nothing() {
    let mut tree = Rbtree::default();
    tree.remove(4);
    assert_eq!(collect(tree.root()), Vec::<i64>::new());
    for key in 0..20 {
        tree.insert(2 * key);
    }
    let before = collect(tree.root());
    for key in [-1, 1, 7, 39, 100] {
        tree.remove(key);
        assert!(is_valid(tree.root()));
        assert_eq!(collect(tree.root()), before);
    }
}

#[test]
fn keyed_remove_takes_out_exactly_the_key() {
    for n in 1..40i64 {
        for gone in 0..n {
            let mut tree = Rbtree::default();
            for key in 0..n {
                tree.insert(if key % 2 == 0 { key / 2 } else { n - 1 - key / 2 });
            }
            tree.remove(gone);
            assert!(is_valid(tree.root()));
            let expected: Vec<i64> = (0..n).filter(|&k| k != gone).collect();
            assert_eq!(collect(tree.root()), expected);
        }
    }
}

#[test]
fn keyed_insert_then_remove_restores_the_set() {
    let mut tree = Rbtree::default();
    for key in [10, 20, 30, 40] {
        tree.insert(key);
    }
    tree.insert(25);
    assert_eq!(collect(tree.root()), vec![10, 20, 25, 30, 40]);
    tree.remove(25);
    assert_eq!(collect(tree.root()), vec![10, 20, 30, 40]);
    for key in [10, 20, 30, 40] {
        tree.remove(key);
        assert!(is_valid(tree.root()));
    }
    assert_eq!(collect(tree.root()), Vec::<i64>::new());
}
