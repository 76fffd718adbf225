use bbst::bbst_comparison::avl_tree_by_box;
use bbst::bbst_comparison::avl_tree_with_parent;
use bbst::bbst_comparison::rb_tree_with_parent;
use bbst::bbst_comparison::test_utils::{HasRoot, TreeNode};
use bbst::bbst_comparison::unbalanced_tree_with_parent;

fn midpoints<N: TreeNode>(node: Option<&N>, values: &[i32]) {
    match node {
        None => assert!(values.is_empty()),
        Some(n) => {
            let mid = values.len() / 2;
            assert_eq!(n.value(), values[mid]);
            midpoints(n.left(), &values[..mid]);
            midpoints(n.right(), &values[mid + 1..]);
        }
    }
}

fn samples() -> Vec<Vec<i32>> {
    let mut all = vec![vec![], vec![9], vec![4, 8, 15, 16, 23, 42]];
    for n in 2..40 {
        all.push((0..n).map(|i| (i * 13) % 17 - 5).collect());
    }
    all
}

#[test]
fn height_balanced_box_tree_is_built_from_midpoints() {
    for values in samples() {
        let tree = avl_tree_by_box::AvlTreeByBox::from_iter(values.clone());
        midpoints(tree.root(), &values);
    }
    let tree = avl_tree_by_box::AvlTreeByBox::from_iter(vec![4, 8, 15, 16, 23, 42]);
    assert_eq!(tree.root().unwrap().value(), 16);
}

#[test]
fn height_balanced_path_tree_is_built_from_midpoints() {
    for values in samples() {
        let tree = avl_tree_with_parent::AvlTreeWithParent::from_iter(values.clone());
        midpoints(tree.root(), &values);
    }
}

#[test]
fn red_black_tree_is_built_from_midpoints() {
    for values in samples() {
        let tree = rb_tree_with_parent::RbTreeWithParent::from_iter(values.clone());
        midpoints(tree.root(), &values);
    }
}

#[test]
fn unbalanced_tree_is_built_from_midpoints() {
    for values in samples() {
        let tree = unbalanced_tree_with_parent::UnbalancedTreeWithParent::from_iter(values.clone());
        midpoints(tree.root(), &values);
    }
}

#[test]
fn joining_box_trees_of_equal_height_hangs_both_below_the_centre() {
    let l = avl_tree_by_box::AvlTreeByBox::from_iter(vec![1, 2, 3]).into_root();
    let r = avl_tree_by_box::AvlTreeByBox::from_iter(vec![5, 6, 7]).into_root();
    let one = avl_tree_by_box::AvlTreeByBox::from_iter(vec![4]).into_root().unwrap();
    let (_, c, _) = avl_tree_by_box::split3(one, 0);
    let z = avl_tree_by_box::merge3(l, c, r);
    assert_eq!(z.value(), 4);
    assert_eq!(z.left().unwrap().value(), 2);
    assert_eq!(z.right().unwrap().value(), 6);
    midpoints(Some(&*z), &[1, 2, 3, 4, 5, 6, 7]);
}

#[test]
fn joining_path_trees_of_equal_height_hangs_both_below_the_centre() {
    let l = avl_tree_with_parent::AvlTreeWithParent::from_iter(vec![1, 2, 3]).into_root();
    let r = avl_tree_with_parent::AvlTreeWithParent::from_iter(vec![5, 6, 7]).into_root();
    let one = avl_tree_with_parent::AvlTreeWithParent::from_iter(vec![4])
        .into_root()
        .unwrap();
    let (_, c, _) = avl_tree_with_parent::split3(one, 0);
    let z = avl_tree_with_parent::merge3(l, c, r);
    midpoints(Some(&*z), &[1, 2, 3, 4, 5, 6, 7]);
}

#[test]
fn joining_path_trees_within_one_level_hangs_both_below_the_centre() {
    let l = avl_tree_with_parent::AvlTreeWithParent::from_iter(vec![1, 2, 3]).into_root();
    let r = avl_tree_with_parent::AvlTreeWithParent::from_iter(vec![5]).into_root();
    let one = avl_tree_with_parent::AvlTreeWithParent::from_iter(vec![4])
        .into_root()
        .unwrap();
    let (_, c, _) = avl_tree_with_parent::split3(one, 0);
    let z = avl_tree_with_parent::merge3(l, c, r);
    assert_eq!(z.value(), 4);
    assert_eq!(z.left().unwrap().value(), 2);
    assert_eq!(z.right().unwrap().value(), 5);
}

#[test]
fn joining_box_trees_of_unequal_height_keeps_the_higher_root() {
    let l = avl_tree_by_box::AvlTreeByBox::from_iter(vec![1, 2, 3, 4, 5, 6, 7]).into_root();
    let one = avl_tree_by_box::AvlTreeByBox::from_iter(vec![8]).into_root().unwrap();
    let (_, c, _) = avl_tree_by_box::split3(one, 0);
    let z = avl_tree_by_box::merge3(l, c, None);
    assert_eq!(z.value(), 4);
    assert_eq!(z.left().unwrap().value(), 2);
    let right = z.right().unwrap();
    assert_eq!(right.value(), 6);
    let last = right.right().unwrap();
    assert_eq!(last.value(), 7);
    assert_eq!(last.right().unwrap().value(), 8);
    assert!(last.left().is_none());
}

#[test]
fn joining_red_black_trees_of_equal_black_height_hangs_both_below_the_centre() {
    let l = rb_tree_with_parent::RbTreeWithParent::from_iter(vec![1, 2, 3]).into_root();
    let r = rb_tree_with_parent::RbTreeWithParent::from_iter(vec![5, 6, 7]).into_root();
    let one = rb_tree_with_parent::RbTreeWithParent::from_iter(vec![4])
        .into_root()
        .unwrap();
    let (_, c, _) = rb_tree_with_parent::split3(one, 0);
    let z = rb_tree_with_parent::merge3(l, c, r);
    midpoints(Some(&*z), &[1, 2, 3, 4, 5, 6, 7]);
}

#[test]
fn joining_unbalanced_trees_always_hangs_both_below_the_centre() {
    let l = unbalanced_tree_with_parent::UnbalancedTreeWithParent::from_iter(vec![1, 2, 3, 4, 5])
        .into_root();
    let r = unbalanced_tree_with_parent::UnbalancedTreeWithParent::from_iter(vec![7]).into_root();
    let one = unbalanced_tree_with_parent::UnbalancedTreeWithParent::from_iter(vec![6])
        .into_root()
        .unwrap();
    let (_, c, _) = unbalanced_tree_with_parent::split3(one, 0);
    let z = unbalanced_tree_with_parent::merge3(l, c, r);
    assert_eq!(z.value(), 6);
    assert_eq!(z.left().unwrap().value(), 3);
    assert_eq!(z.right().unwrap().value(), 7);
}

#[test]
fn comparison_trees_turn_positions_that_do_not_exist_down() {
    let values = vec![4, 8, 15, 16, 23, 42];
    let mut a = avl_tree_by_box::AvlTreeByBox::from_iter(values.clone());
    assert_eq!(a.try_insert(7, 0), Err(bbst::error::TreeError::IndexOutOfRange));
    assert_eq!(a.try_remove(6), Err(bbst::error::TreeError::IndexOutOfRange));
    assert_eq!(bbst::bbst_comparison::test_utils::collect(&a), values);
    assert_eq!(a.try_insert(6, 99), Ok(()));
    assert_eq!(a.try_remove(0), Ok(4));
    assert_eq!(
        bbst::bbst_comparison::test_utils::collect(&a),
        vec![8, 15, 16, 23, 42, 99]
    );

    let mut b = avl_tree_with_parent::AvlTreeWithParent::from_iter(values.clone());
    assert_eq!(b.try_insert(7, 0), Err(bbst::error::TreeError::IndexOutOfRange));
    assert_eq!(b.try_remove(6), Err(bbst::error::TreeError::IndexOutOfRange));
    assert_eq!(b.try_insert(0, 1), Ok(()));
    assert_eq!(b.try_remove(6), Ok(42));
    assert_eq!(
        bbst::bbst_comparison::test_utils::collect(&b),
        vec![1, 4, 8, 15, 16, 23]
    );

    let mut c = rb_tree_with_parent::RbTreeWithParent::from_iter(values.clone());
    assert_eq!(c.try_insert(7, 0), Err(bbst::error::TreeError::IndexOutOfRange));
    assert_eq!(c.try_remove(6), Err(bbst::error::TreeError::IndexOutOfRange));
    assert_eq!(c.try_insert(3, 7), Ok(()));
    assert_eq!(c.try_remove(3), Ok(7));
    assert_eq!(bbst::bbst_comparison::test_utils::collect(&c), values);

    let mut d = unbalanced_tree_with_parent::UnbalancedTreeWithParent::new();
    assert_eq!(d.try_remove(0), Err(bbst::error::TreeError::IndexOutOfRange));
    assert_eq!(d.try_insert(1, 5), Err(bbst::error::TreeError::IndexOutOfRange));
    assert_eq!(d.try_insert(0, 5), Ok(()));
    assert_eq!(d.try_remove(0), Ok(5));
    assert_eq!(
        bbst::bbst_comparison::test_utils::collect(&d),
        Vec::<i32>::new()
    );
}
