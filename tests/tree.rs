use rc_tree::tree::Tree;

fn sample() -> Tree<i32> {
    Tree::branch(5, Tree::leaf(3), Tree::branch(8, Tree::leaf(7), Tree::leaf(9)))
}

#[test]
fn test_cursor() {
    let tree = Tree::branch(5, Tree::leaf(3), Tree::branch(8, Tree::leaf(7), Tree::leaf(9)));

    let three: &i32 = tree.root().left().get().unwrap();
    println!("{}", three);
    assert_eq!(*three, 3);

    drop(tree);
}

#[test]
fn test_clone() {
    let tree = Tree::branch(5, Tree::leaf(3), Tree::branch(8, Tree::leaf(7), Tree::leaf(9)));

    let eight = tree.root().right().parent().right();
    assert_eq!(*eight.left().get().unwrap(), 7);
    assert_eq!(*eight.right().get().unwrap(), 9);
}

#[test]
fn sample_navigation() {
    let tree = sample();
    assert_eq!(tree.root().get(), Some(&5));
    assert_eq!(tree.root().left().get(), Some(&3));
    assert_eq!(tree.root().right().get(), Some(&8));
    assert_eq!(tree.root().right().parent().right().left().get(), Some(&7));
    assert_eq!(tree.root().right().parent().right().right().get(), Some(&9));
    assert_eq!(tree.root().right().right().parent().parent().get(), Some(&5));
}

#[test]
fn branch_keeps_subtrees_and_parent() {
    let tree = Tree::branch(1, Tree::leaf(2), Tree::leaf(3));
    assert_eq!(tree.root().left().get(), Some(&2));
    assert_eq!(tree.root().right().get(), Some(&3));
    assert_eq!(tree.root().left().parent().get(), Some(&1));
    assert_eq!(tree.root().right().parent().get(), Some(&1));
}

#[test]
fn empty_tree_root_is_nothing() {
    let tree: Tree<i32> = Tree::empty();
    assert_eq!(tree.root().get(), None);
    assert_eq!(tree.root().left().get(), None);
    assert_eq!(tree.root().parent().get(), None);
}

#[test]
fn moves_from_nothing_stay_at_nothing() {
    let tree = sample();
    let nothing = tree.root().parent();
    assert_eq!(nothing.get(), None);
    assert_eq!(nothing.left().get(), None);
    assert_eq!(nothing.right().get(), None);
    assert_eq!(nothing.parent().get(), None);
    assert_eq!(nothing.left().right().parent().left().left().get(), None);
}

#[test]
fn leaf_has_no_children_or_parent() {
    let tree = Tree::leaf(42);
    assert_eq!(tree.root().get(), Some(&42));
    assert_eq!(tree.root().left().get(), None);
    assert_eq!(tree.root().right().get(), None);
    assert_eq!(tree.root().parent().get(), None);
}

#[test]
fn walking_past_a_leaf_gives_nothing() {
    let tree = sample();
    assert_eq!(tree.root().left().left().get(), None);
    assert_eq!(tree.root().left().right().parent().get(), None);
}

#[test]
fn equal_values_keep_distinct_positions() {
    let tree = Tree::branch(0, Tree::leaf(0), Tree::branch(0, Tree::leaf(0), Tree::leaf(1)));
    assert_eq!(tree.root().right().right().get(), Some(&1));
    assert_eq!(tree.root().right().right().parent().parent().left().get(), Some(&0));
    assert_eq!(tree.root().left().parent().right().right().get(), Some(&1));
}

#[test]
fn deep_left_spine() {
    let mut tree = Tree::leaf(0u32);
    let mut i: u32 = 1;
    while i < 50 {
        tree = Tree::branch(i, tree, Tree::leaf(1000 + i));
        i += 1;
    }
    let mut c = tree.root();
    let mut expect: u32 = 49;
    while expect > 0 {
        assert_eq!(c.get(), Some(&expect));
        assert_eq!(c.right().get(), Some(&(1000 + expect)));
        c = c.left();
        expect -= 1;
    }
    assert_eq!(c.get(), Some(&0));
    assert_eq!(c.parent().get(), Some(&1));
}
