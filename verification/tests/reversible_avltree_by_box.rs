use bbst::fp::P;
use bbst::reversible_avltree_by_box::{collect, merge2, split2, AvlTree};
use rand::{rngs::StdRng, Rng, SeedableRng};

type Fp = bbst::fp::Fp<P>;

#[derive(Debug)]
enum Query {
    Insert {
        index: usize,
        value: Fp,
    },
    Remove {
        index: usize,
    },
    Reverse {
        start: usize,
        end: usize,
    },
    Affine {
        start: usize,
        end: usize,
        c1: Fp,
        c0: Fp,
    },
    Sum {
        start: usize,
        end: usize,
    },
}

fn fps(values: &[u64]) -> Vec<Fp> {
    values.iter().map(|&v| Fp::new(v)).collect()
}

fn raw(values: &[Fp]) -> Vec<u64> {
    values.iter().map(|v| v.value()).collect()
}

#[test]
fn lib_test() {
    let mut rng = StdRng::seed_from_u64(42);
    for tid in 0..300 {
        let q = 200;
        let len_max = rng.random_range(5..=100);
        let value_lim = 10;
        let mut tree = AvlTree::default();
        let mut vec = vec![];
        let mut n = 0usize;
        for qid in 0..q {
            let query = match rng.random_range(0..=5) {
                0 => {
                    let mut start = rng.random_range(0..=n + 1);
                    let mut end = rng.random_range(0..=n);
                    if start > end {
                        (start, end) = (end, start - 1);
                    }
                    Query::Reverse { start, end }
                }
                1 => {
                    let mut start = rng.random_range(0..=n + 1);
                    let mut end = rng.random_range(0..=n);
                    if start > end {
                        (start, end) = (end, start - 1);
                    }
                    let c1 = Fp::new(rng.random_range(0..value_lim));
                    let c0 = Fp::new(rng.random_range(0..value_lim));
                    Query::Affine { start, end, c1, c0 }
                }
                2 => {
                    let mut start = rng.random_range(0..=n + 1);
                    let mut end = rng.random_range(0..=n);
                    if start > end {
                        (start, end) = (end, start - 1);
                    }
                    Query::Sum { start, end }
                }
                3..=5 => {
                    if rng.random_ratio(n as u32, len_max as u32) {
                        let index = rng.random_range(0..n);
                        Query::Remove { index }
                    } else {
                        let index = rng.random_range(0..=n);
                        let value = Fp::new(rng.random_range(0..value_lim));
                        Query::Insert { index, value }
                    }
                }
                _ => unreachable!(),
            };
            println!("Query #{tid}.{qid}: {query:?}");
            match query {
                Query::Insert { index, value } => {
                    n += 1;
                    tree.insert(index, value);
                    vec.insert(index, value);
                }
                Query::Remove { index } => {
                    n -= 1;
                    tree.remove(index);
                    vec.remove(index);
                }
                Query::Reverse { start, end } => {
                    tree.reverse(start, end);
                    vec[start..end].reverse();
                }
                Query::Affine { start, end, c1, c0 } => {
                    tree.affine(start, end, c1, c0);
                    for x in &mut vec[start..end] {
                        *x = x.mul(c1).add(c0);
                    }
                }
                Query::Sum { start, end } => {
                    let result = tree.sum(start, end);
                    let expected = vec[start..end]
                        .iter()
                        .fold(Fp::new(0), |acc, x| acc.add(*x));
                    assert_eq!(result, expected);
                }
            }
            let result = collect(tree.root());
            println!("n = {n}");
            println!("vec = {vec:?}");
            println!("result = {result:?}");
            assert_eq!(result, vec);
        }
    }
}

#[test]
fn scenario_insert_reverse_affine_sum_remove() {
    let mut tree = AvlTree::new();
    tree.insert(0, Fp::new(3));
    tree.insert(1, Fp::new(5));
    tree.insert(0, Fp::new(1));
    assert_eq!(raw(&tree.to_vec()), vec![1, 3, 5]);
    tree.reverse(0, 2);
    assert_eq!(raw(&tree.to_vec()), vec![3, 1, 5]);
    tree.affine(1, 3, Fp::new(2), Fp::new(1));
    assert_eq!(raw(&tree.to_vec()), vec![3, 3, 11]);
    assert_eq!(tree.sum(0, 3).value(), 17);
    assert_eq!(tree.remove(1).value(), 3);
    assert_eq!(raw(&tree.to_vec()), vec![3, 11]);
    assert_eq!(tree.len(), 2);
    assert!(!tree.is_empty());
}

#[test]
fn scenario_build_then_sum_leaves_sequence_unchanged() {
    let values = fps(&[4, 8, 15, 16, 23, 42]);
    let mut tree = AvlTree::from_values(&values);
    assert_eq!(tree.sum(1, 4).value(), 39);
    assert_eq!(raw(&tree.to_vec()), vec![4, 8, 15, 16, 23, 42]);
    assert_eq!(tree.len(), 6);
    assert_eq!(tree.height(), 3);
}

#[test]
fn empty_tree_edge_cases() {
    let mut tree = AvlTree::new();
    assert!(tree.is_empty());
    assert_eq!(tree.len(), 0);
    assert_eq!(tree.height(), 0);
    assert_eq!(tree.sum(0, 0).value(), 0);
    tree.reverse(0, 0);
    tree.affine(0, 0, Fp::new(7), Fp::new(9));
    assert_eq!(raw(&tree.to_vec()), Vec::<u64>::new());
    tree.insert(0, Fp::new(P + 5));
    assert_eq!(raw(&tree.to_vec()), vec![5]);
    assert_eq!(tree.remove(0).value(), 5);
    assert!(tree.is_empty());
}

#[test]
fn split_then_merge_restores_sequence() {
    let values = fps(&[9, 8, 7, 6, 5, 4, 3, 2, 1, 0, 11]);
    for index in 0..=values.len() {
        let mut tree = AvlTree::from_values(&values);
        tree.reverse(2, 9);
        tree.affine(1, 6, Fp::new(3), Fp::new(4));
        let expected = tree.to_vec();
        let (l, r) = split2(tree.into_root(), index);
        assert_eq!(collect(&l), expected[..index].to_vec());
        assert_eq!(collect(&r), expected[index..].to_vec());
        let joined = AvlTree::from_root(merge2(l, r));
        assert_eq!(joined.to_vec(), expected);
        assert_eq!(joined.len(), expected.len());
    }
}

#[test]
fn reversing_twice_restores_sequence() {
    let values = fps(&[1, 2, 3, 4, 5, 6, 7, 8, 9]);
    for start in 0..=values.len() {
        for end in start..=values.len() {
            let mut tree = AvlTree::from_values(&values);
            tree.reverse(start, end);
            let mut once = values.clone();
            once[start..end].reverse();
            assert_eq!(tree.to_vec(), once);
            tree.reverse(start, end);
            assert_eq!(tree.to_vec(), values);
        }
    }
}

#[test]
fn two_affine_maps_compose() {
    let values = fps(&[0, 1, 2, 3, 998_244_352, 5, 6]);
    let (m1, a1) = (Fp::new(123_456_789), Fp::new(987_654_321));
    let (m2, a2) = (Fp::new(998_244_350), Fp::new(17));
    for start in 0..=values.len() {
        for end in start..=values.len() {
            let mut twice = AvlTree::from_values(&values);
            twice.affine(start, end, m1, a1);
            twice.affine(start, end, m2, a2);
            let mut once = AvlTree::from_values(&values);
            once.affine(start, end, m2.mul(m1), m2.mul(a1).add(a2));
            assert_eq!(twice.to_vec(), once.to_vec());
        }
    }
}

#[test]
fn affine_formula_exact_values() {
    let values = fps(&[10, 20, 30]);
    let mut tree = AvlTree::from_values(&values);
    tree.affine(0, 3, Fp::new(998_244_352), Fp::new(1));
    assert_eq!(
        raw(&tree.to_vec()),
        vec![998_244_353 - 9, 998_244_353 - 19, 998_244_353 - 29]
    );
    assert_eq!(tree.sum(0, 3).value(), 3 * 998_244_353 - 57 - 2 * 998_244_353);
}

#[test]
fn heights_stay_logarithmic() {
    let mut tree = AvlTree::new();
    for i in 0..1000u64 {
        tree.insert(0, Fp::new(i));
    }
    assert_eq!(tree.len(), 1000);
    assert!(tree.height() <= 14);
    for _ in 0..990 {
        tree.remove(0);
    }
    assert_eq!(raw(&tree.to_vec()), (0..10u64).rev().collect::<Vec<_>>());
    assert!(tree.height() <= 4);
}

#[test]
fn fp_arithmetic_is_modular() {
    assert_eq!(Fp::new(P).value(), 0);
    assert_eq!(Fp::new(P + 1).value(), 1);
    assert_eq!(Fp::new(P - 1).add(Fp::new(2)).value(), 1);
    assert_eq!(Fp::new(P - 1).mul(Fp::new(P - 1)).value(), 1);
    assert_eq!(Fp::new(2).mul(Fp::new(3)).add(Fp::new(4)).value(), 10);
    let mut x = Fp::new(5);
    x.add_assign(Fp::new(P - 3));
    assert_eq!(x.value(), 2);
}

#[test]
fn fp_works_modulo_the_modulus_of_its_type() {
    let a = bbst::fp::Fp::<7>::new(10);
    let b = bbst::fp::Fp::<7>::new(6);
    assert_eq!(a.value(), 3);
    assert_eq!(a.add(b).value(), 2);
    assert_eq!(a.mul(b).value(), 4);
    assert_eq!(bbst::fp::Fp::<1>::new(5).value(), 0);
    let big = bbst::fp::Fp::<4_294_967_296>::new(4_294_967_295);
    assert_eq!(big.mul(big).value(), 1);
    assert_eq!(big.add(big).value(), 4_294_967_294);
}
