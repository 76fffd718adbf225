use bbst::error::TreeError;
use bbst::fp::P;
use bbst::reversible_avltree::{collect, AvlTree};
use rand::{rngs::StdRng, Rng, SeedableRng};

type Fp = bbst::fp::Fp<P>;

#[derive(Debug)]
enum Query {
    Insert { index: usize, value: Fp },
    Remove { index: usize },
    Reverse { start: usize, end: usize },
}

#[test]
fn reversible_avltree_test() {
    let mut rng = StdRng::seed_from_u64(42);
    for tid in 0..300 {
        let q = 200;
        let len_max = rng.random_range(5..=100);
        let value_max = 100;
        let mut tree = AvlTree::default();
        let mut vec = vec![];
        let mut n = 0usize;
        for qid in 0..q {
            let query = match rng.random_range(0..=3) {
                0 => {
                    let mut start = rng.random_range(0..=n + 1);
                    let mut end = rng.random_range(0..=n);
                    if start > end {
                        (start, end) = (end, start - 1);
                    }
                    Query::Reverse { start, end }
                }
                1..=3 => {
                    if rng.random_ratio(n as u32, len_max as u32) {
                        let index = rng.random_range(0..n);
                        Query::Remove { index }
                    } else {
                        let index = rng.random_range(0..=n);
                        let value = Fp::new(rng.random_range(0..value_max));
                        Query::Insert { index, value }
                    }
                }
                _ => unreachable!(),
            };
            println!("Query #{tid}.{qid}: {query:?}");
            match query {
                Query::Insert { index, value } => {
                    n += 1;
                    tree.insert(index, value);
                    vec.insert(index, value);
                }
                Query::Remove { index } => {
                    n -= 1;
                    tree.remove(index);
                    vec.remove(index);
                }
                Query::Reverse { start, end } => {
                    tree.reverse(start, end);
                    vec[start..end].reverse();
                }
            }
            let result = collect(tree.root());
            assert_eq!(result, vec);
        }
    }
}

#[test]
fn calls_out_of_range_are_turned_down_and_change_nothing() {
    let values: Vec<Fp> = (1..=5).map(Fp::new).collect();
    let mut tree = AvlTree::from_values(&values);
    assert_eq!(tree.try_insert(6, Fp::new(9)), Err(TreeError::IndexOutOfRange));
    assert_eq!(tree.try_remove(5), Err(TreeError::IndexOutOfRange));
    assert_eq!(tree.try_reverse(3, 2), Err(TreeError::IndexOutOfRange));
    assert_eq!(tree.try_reverse(0, 6), Err(TreeError::IndexOutOfRange));
    assert_eq!(tree.to_vec(), values);
    assert_eq!(tree.try_insert(5, Fp::new(9)), Ok(()));
    assert_eq!(tree.try_remove(0), Ok(Fp::new(1)));
    assert_eq!(tree.try_reverse(0, 5), Ok(()));
    assert_eq!(
        tree.to_vec().iter().map(|v| v.value()).collect::<Vec<_>>(),
        vec![9, 5, 4, 3, 2]
    );

    let mut lazy = bbst::reversible_avltree_by_box::AvlTree::from_values(&values);
    assert_eq!(lazy.try_insert(7, Fp::new(0)), Err(TreeError::IndexOutOfRange));
    assert_eq!(lazy.try_remove(9), Err(TreeError::IndexOutOfRange));
    assert_eq!(lazy.try_reverse(4, 3), Err(TreeError::IndexOutOfRange));
    assert_eq!(
        lazy.try_affine(2, 6, Fp::new(2), Fp::new(2)),
        Err(TreeError::IndexOutOfRange)
    );
    assert_eq!(lazy.try_sum(6, 6), Err(TreeError::IndexOutOfRange));
    assert_eq!(lazy.to_vec(), values);
    assert_eq!(lazy.try_sum(1, 4), Ok(Fp::new(9)));
    assert_eq!(lazy.try_affine(0, 5, Fp::new(2), Fp::new(1)), Ok(()));
    assert_eq!(lazy.try_sum(0, 5), Ok(Fp::new(35)));

    let mut rb = bbst::reversible_left_leaning_rbtree::Rbtree::new();
    assert_eq!(rb.try_remove(0), Err(TreeError::IndexOutOfRange));
    assert_eq!(rb.try_insert(1, Fp::new(1)), Err(TreeError::IndexOutOfRange));
    assert_eq!(rb.try_insert(0, Fp::new(1)), Ok(()));
    assert_eq!(rb.try_sum(0, 2), Err(TreeError::IndexOutOfRange));
    assert_eq!(rb.try_reverse(1, 0), Err(TreeError::IndexOutOfRange));
    assert_eq!(
        rb.try_affine(0, 2, Fp::new(1), Fp::new(1)),
        Err(TreeError::IndexOutOfRange)
    );
    assert_eq!(rb.try_affine(0, 1, Fp::new(3), Fp::new(1)), Ok(()));
    assert_eq!(rb.try_sum(0, 1), Ok(Fp::new(4)));
    assert_eq!(rb.try_remove(0), Ok(Fp::new(4)));
    assert!(rb.is_empty());
}
