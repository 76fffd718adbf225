use bbst::bbst_comparison::avl_tree_by_box::{pretty, validate, AvlTreeByBox};
use bbst::fp::P;
use bbst::reversible_avltree::AvlTree as RevTree;
use bbst::reversible_avltree_by_box::{display, AvlTree};
use bbst::reversible_left_leaning_rbtree::{is_valid, Rbtree};

type Fp = bbst::fp::Fp<P>;

#[test]
fn display_of_empty_trees() {
    assert_eq!(display(AvlTree::new().root()), "(empty)\n");
    assert_eq!(
        bbst::reversible_avltree::display(RevTree::new().root()),
        "(empty)\n"
    );
    assert_eq!(
        bbst::reversible_left_leaning_rbtree::display(Rbtree::new().root()),
        "× (empty)\n"
    );
    assert_eq!(pretty(&AvlTreeByBox::new().into_root()), "(empty)");
}

fn one_to_seven() -> Vec<Fp> {
    (1..=7).map(Fp::new).collect()
}

#[test]
fn display_shows_stored_nodes_and_pending_tags() {
    let mut tree = AvlTree::from_values(&vec![Fp::new(4), Fp::new(8), Fp::new(15)]);
    assert_eq!(
        display(tree.root()),
        " ▶4 { sum: 4, c1: 1, c0: 0 } \n▶8 { sum: 27, c1: 1, c0: 0 } \n ▶15 { sum: 15, c1: 1, c0: 0 } \n"
    );
    let mut tree = AvlTree::from_values(&one_to_seven());
    tree.affine(0, 4, Fp::new(2), Fp::new(1));
    assert_eq!(
        display(tree.root()),
        "  ▶3 { sum: 3, c1: 1, c0: 0 } \n ▶5 { sum: 8, c1: 1, c0: 0 } \n▶7 { sum: 42, c1: 1, c0: 0 } \n  ▶9 { sum: 9, c1: 2, c0: 1 } \n ▶5 { sum: 27, c1: 1, c0: 0 } \n   ▶6 { sum: 6, c1: 1, c0: 0 } \n  ▶7 { sum: 13, c1: 1, c0: 0 } \n"
    );
    assert_eq!(
        tree.to_vec().iter().map(|v| v.value()).collect::<Vec<_>>(),
        vec![3, 5, 7, 9, 5, 6, 7]
    );
    assert_eq!(tree.len(), 7);
}

#[test]
fn display_of_the_reversal_only_tree() {
    let mut tree = RevTree::from_values(&one_to_seven());
    tree.reverse(0, 4);
    assert_eq!(
        bbst::reversible_avltree::display(tree.root()),
        "  ▶4\n ▶3\n▶2\n  ▶1 [rev]\n ▶5\n   ▶6\n  ▶7\n"
    );
    assert_eq!(
        tree.to_vec().iter().map(|v| v.value()).collect::<Vec<_>>(),
        vec![4, 3, 2, 1, 5, 6, 7]
    );
}

#[test]
fn display_of_the_left_leaning_tree() {
    let mut tree = Rbtree::new();
    tree.insert(0, Fp::new(7));
    tree.insert(1, Fp::new(9));
    assert_eq!(
        bbst::reversible_left_leaning_rbtree::display(tree.root()),
        " ○ { value: 7, rev: false, affine: (1,0), sum: 7, len: 1 }\n● { value: 9, rev: false, affine: (1,0), sum: 16, len: 2 }\n"
    );
    assert!(is_valid(tree.root()));
}

#[test]
fn pretty_draws_the_shape() {
    let tree = AvlTreeByBox::from_iter(vec![-3, 10, 25]);
    let root = tree.into_root();
    assert!(validate(&root));
    assert_eq!(
        pretty(&root),
        " ┌╴ ┄┄┄ -3 { left: *, right: *, ht: 1, len: 1 }\n─┤ ┄┄┄┄ 10 { left: -3, right: 25, ht: 2, len: 3 }\n └╴ ┄┄┄ 25 { left: *, right: *, ht: 1, len: 1 }"
    );
}

#[test]
fn is_valid_holds_along_a_run_of_operations() {
    let mut tree = Rbtree::new();
    for i in 0..200u64 {
        tree.insert((i as usize * 5) % (i as usize + 1), Fp::new(i * i));
        assert!(is_valid(tree.root()));
    }
    tree.reverse(10, 150);
    assert!(is_valid(tree.root()));
    tree.affine(40, 190, Fp::new(3), Fp::new(8));
    assert!(is_valid(tree.root()));
    for i in 0..150usize {
        tree.remove((i * 31) % tree.len());
        assert!(is_valid(tree.root()));
    }
    assert_eq!(tree.len(), 50);
}
