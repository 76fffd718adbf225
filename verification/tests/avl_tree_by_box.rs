use bbst::bbst_comparison::avl_tree_by_box::{merge2, split2, AvlTreeByBox};
use bbst::bbst_comparison::test_utils::{analyze_tree_stats, collect, validate};
use rand::{rngs::StdRng, Rng, SeedableRng};

#[derive(Debug, Clone, Copy)]
enum Query {
    Insert { index: usize, value: i32 },
    Remove { index: usize },
}

#[test]
fn avl_tree_by_box_test_from_iter() {
    let mut rng = StdRng::seed_from_u64(42);
    for tid in 1..=200 {
        println!("==== Case #{tid}");
        let n = rng.random_range(0..=20);
        let value_lim = 20;
        let vec = std::iter::repeat_with(|| rng.random_range(0..value_lim))
            .take(n)
            .collect::<Vec<_>>();
        let tree = AvlTreeByBox::from_iter(vec.clone());
        println!("vec = {vec:?}");
        assert!(validate(&tree));
        println!("tree validated!");
        assert_eq!(collect(&tree), vec);
    }
}

#[test]
fn avl_tree_by_box_test_random() {
    let mut rng = StdRng::seed_from_u64(42);
    for tid in 1..=200 {
        let q = 200;
        let len_max = rng.random_range(5..=50);
        let value_lim = 20;
        let mut n = 0_usize;
        let queries: Vec<_> = std::iter::repeat_with(|| {
            if rng.random_ratio(n as u32, len_max) {
                let index = rng.random_range(0..n);
                n -= 1;
                Query::Remove { index }
            } else {
                let index = rng.random_range(0..=n);
                let value = rng.random_range(0..value_lim);
                n += 1;
                Query::Insert { index, value }
            }
        })
        .take(q)
        .collect();
        let mut tree = AvlTreeByBox::new();
        let mut vec = vec![];
        for (qid, &query) in (1..).zip(&queries) {
            println!("==== Case #{tid}.{qid}: {query:?}");
            match query {
                Query::Insert { index, value } => {
                    tree.insert(index, value);
                    vec.insert(index, value);
                }
                Query::Remove { index } => {
                    let result = tree.remove(index);
                    let expected = vec.remove(index);
                    assert_eq!(result, expected);
                }
            }
            println!("vec = {vec:?}");
            assert!(validate(&tree));
            println!("tree validated!");
            assert_eq!(collect(&tree), vec);
        }
    }
}

#[test]
fn avl_tree_by_box_midpoint_construction_height() {
    for (n, h) in [(0usize, 0u8), (1, 1), (2, 2), (3, 2), (4, 3), (7, 3), (8, 4), (1000, 10)] {
        let values: Vec<i32> = (0..n as i32).collect();
        let tree = AvlTreeByBox::from_iter(values.clone());
        assert_eq!(tree.len(), n);
        assert_eq!(tree.height(), h);
        assert_eq!(tree.is_empty(), n == 0);
        assert_eq!(collect(&tree), values);
    }
}

#[test]
fn avl_tree_by_box_insert_remove_exact() {
    let mut tree = AvlTreeByBox::new();
    tree.insert(0, 3);
    tree.insert(1, 5);
    tree.insert(0, 1);
    tree.insert(2, 4);
    assert_eq!(collect(&tree), vec![1, 3, 4, 5]);
    assert_eq!(tree.remove(1), 3);
    assert_eq!(tree.remove(2), 5);
    assert_eq!(collect(&tree), vec![1, 4]);
    assert_eq!(tree.remove(0), 1);
    assert_eq!(tree.remove(0), 4);
    assert!(tree.is_empty());
    assert_eq!(tree.height(), 0);
}

#[test]
fn avl_tree_by_box_analyze_tree_stats() {
    let stats = analyze_tree_stats::<AvlTreeByBox>();
    assert_eq!(stats.initial.len, 200_000);
    assert_eq!(stats.initial.height, 18);
    assert_eq!(stats.samples.len(), 10);
    assert_eq!(stats.last.queries, 200_000);
    assert!(stats.min_len <= stats.last.len && stats.last.len <= stats.max_len);
    assert!(stats.max_len <= 200_000);
    assert!(stats.max_height <= 26);
    for (k, sample) in stats.samples.iter().enumerate() {
        assert_eq!(sample.queries, (k + 1) * 20_000);
        println!(
            "After {:6} queries: len={:6}, height={:2}",
            sample.queries, sample.len, sample.height
        );
    }
}

#[test]
fn avl_tree_by_box_split_then_merge_restores_sequence() {
    let values: Vec<i32> = (0..37).map(|i| (i * 7) % 11).collect();
    for index in 0..=values.len() {
        let tree = AvlTreeByBox::from_iter(values.clone());
        let (l, r) = split2(tree.into_root(), index);
        let left = AvlTreeByBox::from_root(l);
        let right = AvlTreeByBox::from_root(r);
        assert_eq!(collect(&left), values[..index].to_vec());
        assert_eq!(collect(&right), values[index..].to_vec());
        assert!(validate(&left));
        assert!(validate(&right));
        let joined = AvlTreeByBox::from_root(merge2(left.into_root(), right.into_root()));
        assert_eq!(collect(&joined), values);
        assert!(validate(&joined));
    }
}
