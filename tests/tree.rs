use table_extractor::tree::SimpleTree;

#[test]
fn add_child_makes_parent_the_root() {
    let mut t = SimpleTree::new("leaf");
    let p = t.add_node("parent");
    t.add_child(p, 0);
    assert_eq!(t.get_root_id(), 1);
    assert_eq!(*t.get_root(), "parent");
    assert_eq!(t.get_child_ids(1), &[0]);
    assert_eq!(t.len(), 2);
    assert!(!t.is_empty());
}

#[test]
fn empty_tree_has_no_nodes() {
    let t: SimpleTree<u8> = SimpleTree::empty();
    assert!(t.is_empty());
    assert_eq!(t.len(), 0);
    assert_eq!(t.iter_id_preorder(), Vec::<usize>::new());
}

#[test]
fn preorder_visits_children_in_order() {
    let mut t = SimpleTree::new(0u32);
    let a = t.add_node(1);
    let b = t.add_node(2);
    let c = t.add_node(3);
    t.add_child(0, a);
    t.add_child(a, c);
    t.add_child(0, b);
    assert_eq!(t.iter_id_preorder(), vec![0, 1, 3, 2]);
    let nodes: Vec<u32> = t.iter_node_preorder().into_iter().copied().collect();
    assert_eq!(nodes, vec![0, 1, 3, 2]);
    assert_eq!(t.iter_id_preorder_from(a), vec![1, 3]);
}

#[test]
fn node_updates_in_place() {
    let mut t = SimpleTree::new(5u32);
    let a = t.add_node(6);
    *t.get_node_mut(a) = 60;
    *t.get_root_mut() = 50;
    assert_eq!(*t.get_node(a), 60);
    assert_eq!(t.iter(), &[50, 60]);
    t.iter_mut()[1] = 61;
    assert_eq!(*t.get_node(1), 61);
}

#[test]
fn merge_subtree_offsets_ids() {
    let mut t = SimpleTree::new("r");
    let x = t.add_node("x");
    t.add_child(0, x);
    let mut sub = SimpleTree::new("s");
    let y = sub.add_node("y");
    sub.add_child(0, y);
    t.merge_subtree(0, sub);
    assert_eq!(t.len(), 4);
    assert_eq!(t.get_child_ids(0), &[1, 2]);
    assert_eq!(t.get_child_ids(2), &[3]);
    assert_eq!(*t.get_node(3), "y");
    assert_eq!(t.iter_id_preorder(), vec![0, 1, 2, 3]);
}

#[test]
fn merge_subtree_no_root_reparents_children() {
    let mut t = SimpleTree::new("r");
    let mut sub = SimpleTree::new("a");
    let w = sub.add_node("wrapper");
    sub.add_child(w, 0);
    let b = sub.add_node("b");
    sub.add_child(w, b);
    assert_eq!(sub.get_root_id(), 1);
    t.merge_subtree_no_root(0, sub);
    assert_eq!(t.len(), 3);
    assert_eq!(t.iter(), &["r", "a", "b"]);
    assert_eq!(t.get_child_ids(0), &[1, 2]);
    assert_eq!(t.iter_id_preorder(), vec![0, 1, 2]);
}
