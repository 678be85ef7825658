use ego_tree::id::{IdGen, TreeError};
use ego_tree::tree::Tree;

#[test]
fn root_has_no_parent() {
    let mut gen = IdGen::new();
    let tree = Tree::new('a', &mut gen);
    assert!(tree.root().parent().is_none());
    assert_eq!(*tree.root().value(), 'a');
}

#[test]
fn sequential_trees_get_distinct_ids() {
    let mut gen = IdGen::new();
    let a = Tree::new('x', &mut gen);
    let b = Tree::new('x', &mut gen);
    let id_a = a.root().id();
    let id_b = b.root().id();
    assert_ne!(id_a, id_b);
    assert!(matches!(b.get(id_a), Err(TreeError::InvalidHandle)));
    assert!(matches!(a.get(id_b), Err(TreeError::InvalidHandle)));
    assert!(a.get(id_a).is_ok());
}

#[test]
fn append_wires_parent_and_last_child() {
    let mut gen = IdGen::new();
    let tree = Tree::new('a', &mut gen);
    let mut root = tree.root_mut();
    let b = root.append('b');
    let c = root.append('c');
    let tree = root.into_tree();
    let root = tree.root();
    assert_eq!(*tree.get(b).unwrap().value(), 'b');
    assert_eq!(*tree.get(c).unwrap().value(), 'c');
    assert_eq!(*root.first_child().unwrap().value(), 'b');
    assert_eq!(*root.last_child().unwrap().value(), 'c');
    let b_ref = tree.get(b).unwrap();
    assert_eq!(*b_ref.next_sibling().unwrap().value(), 'c');
    assert_eq!(*tree.get(c).unwrap().prev_sibling().unwrap().value(), 'b');
    assert_eq!(*tree.get(c).unwrap().parent().unwrap().value(), 'a');
}

#[test]
fn children_order_is_insertion_order() {
    let mut gen = IdGen::new();
    let tree = Tree::new(0u32, &mut gen);
    let mut root = tree.root_mut();
    for v in 1..5u32 {
        root.append(v);
    }
    let tree = root.into_tree();
    let vals: Vec<u32> = tree.root().children().iter().map(|n| *n.value()).collect();
    assert_eq!(vals, vec![1, 2, 3, 4]);
}

#[test]
fn end_to_end_build_and_detach() {
    let mut gen = IdGen::new();
    let tree = Tree::new('a', &mut gen);
    let mut root = tree.root_mut();
    root.append('b');
    let c = root.append('c');
    let tree = root.into_tree();
    let mut cm = tree.get_mut(c).ok().unwrap();
    let d = cm.append('d');
    let e = cm.append('e');
    let tree = cm.into_tree();

    let root = tree.root();
    assert_eq!(*root.first_child().unwrap().value(), 'b');
    assert_eq!(*root.last_child().unwrap().value(), 'c');
    let cr = tree.get(c).unwrap();
    assert_eq!(*cr.first_child().unwrap().value(), 'd');
    assert_eq!(*cr.first_child().unwrap().next_sibling().unwrap().value(), 'e');
    assert!(cr.last_child().unwrap().next_sibling().is_none());

    // Detach c: b stays as the only child; c keeps d and e.
    let mut cm = tree.get_mut(c).ok().unwrap();
    assert!(cm.detach().is_ok());
    let tree = cm.into_tree();
    assert_eq!(*tree.root().first_child().unwrap().value(), 'b');
    assert_eq!(*tree.root().last_child().unwrap().value(), 'b');
    let cr = tree.get(c).unwrap();
    assert!(cr.parent().is_none());
    assert_eq!(*tree.get(d).unwrap().value(), 'd');
    assert_eq!(*tree.get(e).unwrap().value(), 'e');
    assert_eq!(*cr.first_child().unwrap().value(), 'd');
    assert_eq!(*cr.last_child().unwrap().value(), 'e');
}

#[test]
fn detach_middle_child_links_neighbours() {
    let mut gen = IdGen::new();
    let tree = Tree::new(0u32, &mut gen);
    let mut root = tree.root_mut();
    let a = root.append(1);
    let b = root.append(2);
    let c = root.append(3);
    let mut bm = root.into_tree().get_mut(b).ok().unwrap();
    bm.detach().unwrap();
    let tree = bm.into_tree();
    assert_eq!(*tree.get(a).unwrap().next_sibling().unwrap().value(), 3);
    assert_eq!(*tree.get(c).unwrap().prev_sibling().unwrap().value(), 1);
}

#[test]
fn detach_root_is_rejected() {
    let mut gen = IdGen::new();
    let tree = Tree::new('r', &mut gen);
    let mut root = tree.root_mut();
    assert_eq!(root.detach(), Err(TreeError::CannotDetachRoot));
}

#[test]
fn insert_on_root_is_rejected() {
    let mut gen = IdGen::new();
    let tree = Tree::new('r', &mut gen);
    let mut root = tree.root_mut();
    assert_eq!(root.insert_before('x').unwrap_err(), TreeError::RootHasNoSiblings);
    assert_eq!(root.insert_after('x').unwrap_err(), TreeError::RootHasNoSiblings);
}

#[test]
fn insert_before_and_after_splice() {
    let mut gen = IdGen::new();
    let tree = Tree::new(0u32, &mut gen);
    let mut root = tree.root_mut();
    let b = root.append(2);
    let mut bm = root.into_tree().get_mut(b).ok().unwrap();
    bm.insert_before(1).unwrap();
    bm.insert_after(3).unwrap();
    let tree = bm.into_tree();
    let vals: Vec<u32> = tree.root().children().iter().map(|n| *n.value()).collect();
    assert_eq!(vals, vec![1, 2, 3]);
}

#[test]
fn prepend_makes_first_child() {
    let mut gen = IdGen::new();
    let tree = Tree::new(0u32, &mut gen);
    let mut root = tree.root_mut();
    root.append(2);
    root.prepend(1);
    let tree = root.into_tree();
    let vals: Vec<u32> = tree.root().children().iter().map(|n| *n.value()).collect();
    assert_eq!(vals, vec![1, 2]);
}

#[test]
fn orphan_is_addressable_but_unattached() {
    let mut gen = IdGen::new();
    let tree = Tree::new('r', &mut gen);
    let orphan = tree.orphan('o');
    let oid = orphan.id();
    let tree = orphan.into_tree();
    let o = tree.get(oid).unwrap();
    assert_eq!(*o.value(), 'o');
    assert!(o.parent().is_none());
    assert!(tree.root().children().is_empty());
}

#[test]
fn ancestors_walk_to_root() {
    let mut gen = IdGen::new();
    let tree = Tree::new('a', &mut gen);
    let mut root = tree.root_mut();
    let b = root.append('b');
    let mut bm = root.into_tree().get_mut(b).ok().unwrap();
    let c = bm.append('c');
    let tree = bm.into_tree();
    let anc: Vec<char> = tree.get(c).unwrap().ancestors().iter().map(|n| *n.value()).collect();
    assert_eq!(anc, vec!['b', 'a']);
    assert!(tree.root().ancestors().is_empty());
}

#[test]
fn duplicate_is_equal_then_independent() {
    let mut gen = IdGen::new();
    let tree = Tree::new('a', &mut gen);
    let mut root = tree.root_mut();
    root.append('b');
    let tree = root.into_tree();
    let copy = tree.duplicate(&mut gen);
    // Equal structure and values right after the copy.
    assert_eq!(tree.len(), copy.len());
    assert_eq!(*copy.root().first_child().unwrap().value(), 'b');
    // Handles from the original are rejected by the copy.
    let bid = tree.root().first_child().unwrap().id();
    assert!(matches!(copy.get(bid), Err(TreeError::InvalidHandle)));
    // Mutating the copy leaves the original untouched.
    let mut croot = copy.root_mut();
    croot.append('z');
    assert_eq!(tree.root().children().len(), 1);
    assert_eq!(croot.into_tree().root().children().len(), 2);
}

#[test]
fn with_capacity_builds_same_root() {
    let mut gen = IdGen::new();
    let tree = Tree::with_capacity('a', 16, &mut gen);
    assert_eq!(*tree.root().value(), 'a');
    assert_eq!(tree.len(), 1);
}
