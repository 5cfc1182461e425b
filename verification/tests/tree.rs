use logfilter::tree::node::NodeId;
use logfilter::tree::Tree;

#[test]
fn new_tree_holds_the_root() {
    let (tree, root) = Tree::new(7);
    assert_eq!(tree.get_node(usize::from(root)), 7);
    assert!(tree.removable(root));
}

#[test]
fn add_node_under_missing_parent_is_refused() {
    let (mut tree, root) = Tree::new(1);
    let missing = NodeId::from(usize::from(root) + 100);
    assert_eq!(tree.add_node(missing, 2), None);
    assert!(!tree.removable(missing));
}

#[test]
fn added_nodes_get_fresh_ids_and_keep_their_values() {
    let (mut tree, root) = Tree::new(1);
    let a = tree.add_node(root, 10).unwrap();
    let b = tree.add_node(root, 20).unwrap();
    let c = tree.add_node(a, 30).unwrap();
    assert_ne!(a, root);
    assert_ne!(b, a);
    assert_ne!(c, b);
    assert_ne!(c, root);
    assert_eq!(tree.get_node(usize::from(a)), 10);
    assert_eq!(tree.get_node(usize::from(b)), 20);
    assert_eq!(tree.get_node(usize::from(c)), 30);
}

#[test]
fn collect_ids_walks_in_preorder() {
    let (mut tree, root) = Tree::new(0);
    let a = tree.add_node(root, 1).unwrap();
    let b = tree.add_node(root, 2).unwrap();
    let c = tree.add_node(a, 3).unwrap();
    let d = tree.add_node(c, 4).unwrap();
    let mut all = vec![NodeId::from(99)];
    tree.collect_ids(root, &mut all);
    assert_eq!(all, vec![NodeId::from(99), root, a, c, d, b]);
}

#[test]
fn remove_node_removes_the_whole_subtree() {
    let (mut tree, root) = Tree::new(0);
    let a = tree.add_node(root, 1).unwrap();
    let b = tree.add_node(root, 2).unwrap();
    let c = tree.add_node(a, 3).unwrap();
    let d = tree.add_node(c, 4).unwrap();
    let removed = tree.remove_node(a);
    assert_eq!(removed, vec![1, 3, 4]);
    assert!(!tree.removable(c));
    assert!(!tree.removable(d));
    assert_eq!(tree.get_node(usize::from(b)), 2);
    assert_eq!(tree.add_node(c, 9), None);
    // the removed id stays listed under the root
    assert!(!tree.removable(root));
}

#[test]
fn removed_ids_are_reused() {
    let (mut tree, root) = Tree::new(0);
    let a = tree.add_node(root, 1).unwrap();
    let removed = tree.remove_node(a);
    assert_eq!(removed, vec![1]);
    let b = tree.add_node(root, 5).unwrap();
    assert_eq!(b, a);
    assert_eq!(tree.get_node(usize::from(b)), 5);
}

#[test]
fn removing_the_root_empties_the_tree() {
    let (mut tree, root) = Tree::new(0);
    let a = tree.add_node(root, 1).unwrap();
    let _b = tree.add_node(a, 2).unwrap();
    assert_eq!(tree.remove_node(root), vec![0, 1, 2]);
    assert_eq!(tree.add_node(root, 3), None);
}

#[test]
fn node_id_converts_both_ways() {
    assert_eq!(usize::from(NodeId::from(42)), 42);
    assert_eq!(NodeId::from(usize::from(NodeId(5))), NodeId(5));
}

#[test]
fn adding_then_removing_a_leaf_restores_the_nodes() {
    let (mut tree, root) = Tree::new(0);
    let a = tree.add_node(root, 1).unwrap();
    let b = tree.add_node(a, 2).unwrap();
    assert_eq!(tree.remove_node(b), vec![2]);
    assert_eq!(tree.get_node(usize::from(root)), 0);
    assert_eq!(tree.get_node(usize::from(a)), 1);
    assert!(!tree.removable(b));
    // b stays listed under a, so a can no longer be removed
    assert!(!tree.removable(a));
    assert_eq!(tree.add_node(b, 5), None);
}

#[test]
fn ids_are_handed_out_in_order() {
    let (mut tree, r) = Tree::new(0);
    assert_eq!(r, NodeId(0));
    let a = tree.add_node(r, 1);
    assert_eq!(a, Some(NodeId(1)));
    let b = tree.add_node(NodeId(1), 2);
    assert_eq!(b, Some(NodeId(2)));
    assert_eq!(tree.add_node(NodeId(7), 3), None);
    assert!(tree.contains(NodeId(2)));
    assert!(!tree.contains(NodeId(7)));
}

#[test]
fn freed_id_is_handed_out_next() {
    let (mut tree, r) = Tree::new(0);
    let a = tree.add_node(r, 1).unwrap();
    let _b = tree.add_node(a, 2).unwrap();
    let c = tree.add_node(r, 3).unwrap();
    assert_eq!(c, NodeId(3));
    // the walk from a is a, b: b is freed last and handed out first
    assert_eq!(tree.remove_node(a), vec![1, 2]);
    assert_eq!(tree.add_node(r, 4), Some(NodeId(2)));
    assert_eq!(tree.add_node(r, 5), Some(NodeId(1)));
    assert_eq!(tree.add_node(r, 6), Some(NodeId(4)));
}
