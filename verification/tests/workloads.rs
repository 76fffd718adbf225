use bbst::bbst_comparison::avl_tree_by_box::AvlTreeByBox;
use bbst::bbst_comparison::avl_tree_with_parent::AvlTreeWithParent;
use bbst::bbst_comparison::rb_tree_with_parent::RbTreeWithParent;
use bbst::bbst_comparison::test_utils::BenchmarkableTree;
use bbst::bbst_comparison::unbalanced_tree_with_parent::UnbalancedTreeWithParent;
use bbst::bbst_comparison::bench_utils::{
    draw_queries, draw_values, generate_initial_values, generate_queries, Query,
};
use bbst::bbst_comparison::test_utils;
use bbst::bbst_comparison::test_utils::{collect, generate_benchmark_queries, run_workload};
use rand::{rngs::StdRng, SeedableRng};

fn check_valid(queries: &[Query], start: usize, limit: usize) {
    let mut n = start;
    for query in queries {
        match *query {
            Query::Insert { index, value } => {
                assert!(index <= n);
                assert!((0..1_000_000_000).contains(&value));
                n += 1;
            }
            Query::Remove { index } => {
                assert!(index < n);
                n -= 1;
            }
        }
        assert!(n <= limit);
    }
}

#[test]
fn generated_queries_always_name_positions_that_exist() {
    let queries = generate_queries();
    assert_eq!(queries.len(), 200_000);
    check_valid(&queries, 200_000, 200_000);
    assert!(matches!(queries[0], Query::Remove { .. }));
    assert!(queries.iter().any(|q| matches!(q, Query::Insert { .. })));
}

#[test]
fn generated_initial_values_lie_below_the_limit() {
    let values = generate_initial_values();
    assert_eq!(values.len(), 200_000);
    assert!(values.iter().all(|v| (0..1_000_000_000).contains(v)));
    assert!(values.iter().any(|&v| v != values[0]));
}

#[test]
fn drawn_queries_respect_start_and_limit() {
    let mut rng = StdRng::seed_from_u64(7);
    for (start, limit) in [(0usize, 1u32), (0, 5), (3, 3), (10, 50)] {
        let queries = draw_queries(&mut rng, start, limit, 500, 20);
        assert_eq!(queries.len(), 500);
        let mut n = start;
        for query in &queries {
            match *query {
                Query::Insert { index, value } => {
                    assert!(index <= n && (0..20).contains(&value));
                    n += 1;
                }
                Query::Remove { index } => {
                    assert!(index < n);
                    n -= 1;
                }
            }
            assert!(n <= limit as usize);
        }
    }
    let values = draw_values(&mut rng, 300, 7);
    assert_eq!(values.len(), 300);
    assert!(values.iter().all(|v| (0..7).contains(v)));
}

#[test]
fn a_workload_does_to_a_tree_what_it_does_to_a_vector() {
    let mut rng = StdRng::seed_from_u64(99);
    let drawn = draw_queries(&mut rng, 4, 40, 1000, 100);
    let queries: Vec<test_utils::Query> = drawn
        .iter()
        .map(|q| match *q {
            Query::Insert { index, value } => test_utils::Query::Insert { index, value },
            Query::Remove { index } => test_utils::Query::Remove { index },
        })
        .collect();
    let mut vec = vec![1, 2, 3, 4];
    let mut tree = AvlTreeByBox::from_iter(vec.clone());
    let stats = run_workload(&mut tree, &queries, 100);
    let mut min_len = vec.len();
    let mut max_len = vec.len();
    for q in &queries {
        match *q {
            test_utils::Query::Insert { index, value } => vec.insert(index, value),
            test_utils::Query::Remove { index } => {
                vec.remove(index);
            }
        }
        min_len = min_len.min(vec.len());
        max_len = max_len.max(vec.len());
    }
    assert_eq!(collect(&tree), vec);
    assert_eq!(stats.initial.len, 4);
    assert_eq!(stats.last.len, vec.len());
    assert_eq!(stats.last.queries, 1000);
    assert_eq!(stats.min_len, min_len);
    assert_eq!(stats.max_len, max_len);
    assert_eq!(stats.samples.len(), 10);
    assert_eq!(stats.samples[9].queries, 1000);
    assert_eq!(stats.samples[9].len, vec.len());
}

#[test]
fn benchmark_setup_builds_the_tree_and_its_queries() {
    let (tree, queries) = generate_benchmark_queries::<AvlTreeByBox>();
    assert_eq!(tree.len(), 200_000);
    assert_eq!(tree.height(), 18);
    assert_eq!(queries.len(), 200_000);
    assert!(matches!(queries[0], test_utils::Query::Remove { .. }));
}

#[test]
fn every_tree_reports_its_own_height_to_the_workload() {
    let values: Vec<i32> = (0..100).collect();
    let by_box = AvlTreeByBox::from_iter(values.clone());
    assert_eq!(<AvlTreeByBox as BenchmarkableTree>::height(&by_box), 7);
    let with_path = AvlTreeWithParent::from_iter(values.clone());
    assert_eq!(<AvlTreeWithParent as BenchmarkableTree>::height(&with_path), 7);
    let red_black = RbTreeWithParent::from_iter(values.clone());
    assert_eq!(<RbTreeWithParent as BenchmarkableTree>::height(&red_black), 6);
    assert_eq!(red_black.black_height(), 6);
    let plain = UnbalancedTreeWithParent::from_iter(values);
    assert_eq!(<UnbalancedTreeWithParent as BenchmarkableTree>::height(&plain), 0);
}
