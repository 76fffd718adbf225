use bbst::fp::P;
use bbst::reversible_left_leaning_rbtree::{collect, merge2, split2, Rbtree};
use rand::{rngs::StdRng, Rng, SeedableRng};

type Fp = bbst::fp::Fp<P>;

#[derive(Clone, Copy, PartialEq, Debug)]
enum Query {
    Insert {
        index: usize,
        value: Fp,
    },
    Remove {
        index: usize,
    },
    Reverse {
        start: usize,
        end: usize,
    },
    Affine {
        start: usize,
        end: usize,
        c1: Fp,
        c0: Fp,
    },
    Sum {
        start: usize,
        end: usize,
    },
}

fn raw(values: &[Fp]) -> Vec<u64> {
    values.iter().map(|v| v.value()).collect()
}

fn build(values: &[u64]) -> Rbtree {
    let mut tree = Rbtree::new();
    for (i, &v) in values.iter().enumerate() {
        tree.insert(i, Fp::new(v));
    }
    tree
}

#[test]
fn reversible_left_leaning_rbtree_test() {
    let mut rng = StdRng::seed_from_u64(42);
    for _tid in 0..200 {
        let query_count = 300;
        let value_lim = P;
        let init_len = 100;
        let q = rng.random_range(1..=query_count);
        let mut queries = Vec::new();
        let mut n = 0;
        for _ in 0..rng.random_range(0..=init_len) {
            let index = rng.random_range(0..=n);
            let value = Fp::new(rng.random_range(0..value_lim));
            n += 1;
            queries.push(Query::Insert { index, value });
        }
        for _ in 0..q {
            let index = rng.random_range(0..=n);
            let value = Fp::new(rng.random_range(0..value_lim));
            let query = if n == 0 {
                n += 1;
                Query::Insert { index, value }
            } else {
                let mut start = rng.random_range(0..n);
                let mut end = rng.random_range(0..=n);
                if start >= end {
                    std::mem::swap(&mut start, &mut end);
                    end += 1;
                }
                match rng.random_range(0i32..=4) {
                    0 => {
                        n += 1;
                        Query::Insert { index, value }
                    }
                    1 => {
                        let index = rng.random_range(0..n);
                        n -= 1;
                        Query::Remove { index }
                    }
                    2 => Query::Reverse { start, end },
                    3 => {
                        let c1 = Fp::new(rng.random_range(0..value_lim));
                        Query::Affine {
                            start,
                            end,
                            c1,
                            c0: value,
                        }
                    }
                    4 => Query::Sum { start, end },
                    _ => unreachable!(),
                }
            };
            queries.push(query);
        }
        let mut rb = Rbtree::default();
        let mut vec = Vec::new();
        for &query in queries.iter() {
            match query {
                Query::Insert { index, value } => {
                    rb.insert(index, value);
                    vec.insert(index, value);
                }
                Query::Remove { index } => {
                    rb.remove(index);
                    vec.remove(index);
                }
                Query::Reverse { start, end } => {
                    rb.reverse(start, end);
                    vec[start..end].reverse();
                }
                Query::Affine { start, end, c1, c0 } => {
                    rb.affine(start, end, c1, c0);
                    for x in &mut vec[start..end] {
                        *x = x.mul(c1).add(c0);
                    }
                }
                Query::Sum { start, end } => {
                    let result = rb.sum(start, end);
                    let expected = vec[start..end]
                        .iter()
                        .copied()
                        .fold(Fp::new(0), |a, b| a.add(b));
                    assert_eq!(result, expected);
                }
            }
            assert_eq!(&collect(rb.root()), &vec);
            assert_eq!(rb.len(), vec.len());
        }
    }
}

#[test]
fn left_leaning_scenario_insert_reverse_affine_sum_remove() {
    let mut tree = Rbtree::new();
    tree.insert(0, Fp::new(3));
    tree.insert(1, Fp::new(5));
    tree.insert(0, Fp::new(1));
    assert_eq!(raw(&tree.to_vec()), vec![1, 3, 5]);
    tree.reverse(0, 2);
    assert_eq!(raw(&tree.to_vec()), vec![3, 1, 5]);
    tree.affine(1, 3, Fp::new(2), Fp::new(1));
    assert_eq!(raw(&tree.to_vec()), vec![3, 3, 11]);
    assert_eq!(tree.sum(0, 3).value(), 17);
    assert_eq!(tree.remove(1).value(), 3);
    assert_eq!(raw(&tree.to_vec()), vec![3, 11]);
    assert_eq!(tree.len(), 2);
}

#[test]
fn left_leaning_build_then_sum_leaves_sequence_unchanged() {
    let mut tree = build(&[4, 8, 15, 16, 23, 42]);
    assert_eq!(tree.sum(1, 4).value(), 39);
    assert_eq!(raw(&tree.to_vec()), vec![4, 8, 15, 16, 23, 42]);
}

#[test]
fn left_leaning_empty_ranges_and_empty_tree() {
    let mut tree = Rbtree::new();
    assert!(tree.is_empty());
    assert_eq!(tree.black_height(), 0);
    tree.reverse(0, 0);
    tree.affine(0, 0, Fp::new(2), Fp::new(3));
    assert_eq!(tree.sum(0, 0).value(), 0);
    let mut tree = build(&[1, 2, 3]);
    for at in 0..=3 {
        tree.reverse(at, at);
        tree.affine(at, at, Fp::new(5), Fp::new(5));
        assert_eq!(tree.sum(at, at).value(), 0);
    }
    assert_eq!(raw(&tree.to_vec()), vec![1, 2, 3]);
}

#[test]
fn left_leaning_split_then_merge_restores_sequence() {
    let values: Vec<u64> = (0..41).map(|i| (i * 13) % 17).collect();
    for index in 0..=values.len() {
        let mut tree = build(&values);
        tree.reverse(3, 30);
        tree.affine(10, 40, Fp::new(3), Fp::new(4));
        let expected = tree.to_vec();
        let (l, r) = split2(tree.into_root(), index);
        assert_eq!(collect(&l), expected[..index].to_vec());
        assert_eq!(collect(&r), expected[index..].to_vec());
        let joined = Rbtree::from_root(merge2(l, r));
        assert_eq!(joined.to_vec(), expected);
    }
}

#[test]
fn left_leaning_reversing_twice_and_composing_affine_maps() {
    let values: Vec<u64> = (1..=12).collect();
    let (m1, a1) = (Fp::new(123_456_789), Fp::new(987_654_321));
    let (m2, a2) = (Fp::new(998_244_350), Fp::new(17));
    for start in 0..=values.len() {
        for end in start..=values.len() {
            let mut tree = build(&values);
            tree.reverse(start, end);
            tree.reverse(start, end);
            assert_eq!(raw(&tree.to_vec()), values);
            let mut twice = build(&values);
            twice.affine(start, end, m1, a1);
            twice.affine(start, end, m2, a2);
            let mut once = build(&values);
            once.affine(start, end, m2.mul(m1), m2.mul(a1).add(a2));
            assert_eq!(twice.to_vec(), once.to_vec());
        }
    }
}

#[test]
fn left_leaning_black_height_stays_logarithmic() {
    let mut tree = Rbtree::new();
    for i in 0..1000u64 {
        tree.insert((i as usize * 7) % (i as usize + 1), Fp::new(i));
    }
    assert_eq!(tree.len(), 1000);
    assert!(tree.black_height() >= 5 && tree.black_height() <= 10);
}

#[test]
fn a_sound_tree_passes_the_named_check() {
    let mut tree = build(&[4, 8, 15, 16, 23, 42]);
    assert_eq!(bbst::reversible_left_leaning_rbtree::ensure_valid(tree.root()), Ok(()));
    tree.reverse(1, 5);
    tree.affine(0, 4, Fp::new(3), Fp::new(2));
    assert_eq!(bbst::reversible_left_leaning_rbtree::ensure_valid(tree.root()), Ok(()));
    assert_eq!(
        bbst::reversible_left_leaning_rbtree::ensure_valid(Rbtree::new().root()),
        Ok(())
    );
}

#[test]
fn a_centre_with_a_pending_map_breaks_the_aggregate_and_is_reported() {
    let mut whole = build(&[1, 2, 3]);
    whole.affine(0, 3, Fp::new(2), Fp::new(1));
    let centre = whole.into_root().unwrap();
    let l = build(&[5]).into_root();
    let r = build(&[7]).into_root();
    let joined = Some(bbst::reversible_left_leaning_rbtree::merge3(l, centre, r));
    assert!(!bbst::reversible_left_leaning_rbtree::is_valid(&joined));
    assert_eq!(
        bbst::reversible_left_leaning_rbtree::ensure_valid(&joined),
        Err(bbst::error::TreeError::InvariantViolation)
    );
}
