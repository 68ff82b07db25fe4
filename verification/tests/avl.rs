use rhizome_trees::avl::{release_stored, Tree};
use rhizome_trees::hash::HashRoot;
use rhizome_trees::manager::NodeManager;
use rhizome_trees::store::{MemNodeStore, NullNodeStore};
use rhizome_trees::value::Int32BigEndian;
use rhizome_trees::Error;

fn null_manager() -> NodeManager<NullNodeStore> {
    NodeManager::new(NullNodeStore {}, 16)
}

#[test]
fn test_tree() {
    let mut mgr = null_manager();
    let mut tree: Tree = Tree::default();
    let mut i = 0;
    while i < 10 {
        tree = tree
            .insert(Int32BigEndian(i), Int32BigEndian(i), &mut mgr)
            .unwrap();
        assert!(tree.balanced(&mut mgr).unwrap());
        assert_eq!(
            Some(Int32BigEndian(i)),
            tree.get(&Int32BigEndian(i), &mut mgr).unwrap()
        );
        let _ = tree.to_graphviz(&mut mgr).unwrap();
        i += 1
    }

    while i >= 0 {
        tree = tree.delete(&Int32BigEndian(i), &mut mgr).unwrap();
        assert_eq!(None, tree.get(&Int32BigEndian(i), &mut mgr).unwrap());
        assert!(tree.balanced(&mut mgr).unwrap());
        let _ = tree.to_graphviz(&mut mgr).unwrap();
        i -= 1
    }
}

#[test]
fn test_tree_mut() {
    let mut mgr = null_manager();
    let mut tree: Tree = Tree::default();
    let mut i = 0;
    while i < 10 {
        tree.insert_mut(Int32BigEndian(i), Int32BigEndian(i), &mut mgr)
            .unwrap();
        assert!(tree.balanced(&mut mgr).unwrap());
        assert_eq!(
            Some(Int32BigEndian(i)),
            tree.get(&Int32BigEndian(i), &mut mgr).unwrap()
        );
        i += 1
    }
}

#[test]
fn ascending_inserts_stay_balanced() {
    let mut mgr = null_manager();
    let mut tree: Tree = Tree::default();
    for i in 0..10 {
        tree = tree
            .insert(Int32BigEndian(i), Int32BigEndian(i), &mut mgr)
            .unwrap();
        assert!(tree.balanced(&mut mgr).unwrap());
        assert_eq!(
            Some(Int32BigEndian(i)),
            tree.get(&Int32BigEndian(i), &mut mgr).unwrap()
        );
    }
    let (elements, edges, _) = tree.to_graphviz(&mut mgr).unwrap();
    assert_eq!(elements.len(), 10);
    assert_eq!(edges.len(), 9);
    // The root vertex comes first; ten ascending inserts leave height 4.
    assert_eq!(elements[0].height, 4);
}

#[test]
fn descending_deletes_empty_the_tree() {
    let mut mgr = null_manager();
    let mut tree: Tree = Tree::default();
    for i in 0..10 {
        tree = tree
            .insert(Int32BigEndian(i), Int32BigEndian(i), &mut mgr)
            .unwrap();
    }
    for i in (0..=10).rev() {
        tree = tree.delete(&Int32BigEndian(i), &mut mgr).unwrap();
        assert_eq!(None, tree.get(&Int32BigEndian(i), &mut mgr).unwrap());
        assert!(tree.balanced(&mut mgr).unwrap());
    }
    // The empty tree's root hash is the empty byte sequence.
    let mut sink = HashRoot::new();
    tree.merkle_hash(&mut mgr, &mut sink).unwrap();
    assert!(sink.result.is_empty());
}

#[test]
fn permutation_builds_the_same_map() {
    let mut mgr = null_manager();
    let mut tree: Tree = Tree::default();
    for k in [5, 3, 7, 1, 4, 6, 9, 2, 8, 0] {
        tree = tree
            .insert(Int32BigEndian(k), Int32BigEndian(k), &mut mgr)
            .unwrap();
    }
    for i in 0..10 {
        assert_eq!(
            Some(Int32BigEndian(i)),
            tree.get(&Int32BigEndian(i), &mut mgr).unwrap()
        );
    }
    assert!(tree.balanced(&mut mgr).unwrap());
    let entries = tree.in_order(&mut mgr).unwrap();
    let expected: Vec<(i32, i32)> = (0..10).map(|i| (i, i)).collect();
    assert_eq!(entries, expected);
}

#[test]
fn digest_depends_on_shape() {
    let mut mgr = null_manager();
    // Same shape from different insertion orders: same digest.
    let mut a: Tree = Tree::default();
    for k in [1, 2, 3] {
        a = a.insert(Int32BigEndian(k), Int32BigEndian(k), &mut mgr).unwrap();
    }
    let mut b: Tree = Tree::default();
    for k in [2, 1, 3] {
        b = b.insert(Int32BigEndian(k), Int32BigEndian(k), &mut mgr).unwrap();
    }
    let mut da = HashRoot::new();
    a.merkle_hash(&mut mgr, &mut da).unwrap();
    let mut db = HashRoot::new();
    b.merkle_hash(&mut mgr, &mut db).unwrap();
    assert_eq!(da.result, db.result);

    // Same entries, different shapes: the digest tells them apart.
    let mut c: Tree = Tree::default();
    for k in [1, 2] {
        c = c.insert(Int32BigEndian(k), Int32BigEndian(k), &mut mgr).unwrap();
    }
    let mut d: Tree = Tree::default();
    for k in [2, 1] {
        d = d.insert(Int32BigEndian(k), Int32BigEndian(k), &mut mgr).unwrap();
    }
    let mut dc = HashRoot::new();
    c.merkle_hash(&mut mgr, &mut dc).unwrap();
    let mut dd = HashRoot::new();
    d.merkle_hash(&mut mgr, &mut dd).unwrap();
    assert_ne!(dc.result, dd.result);
}

#[test]
fn hashing_twice_gives_the_same_bytes() {
    let mut mgr = null_manager();
    let mut tree: Tree = Tree::default();
    for i in 0..10 {
        tree = tree
            .insert(Int32BigEndian(i), Int32BigEndian(i), &mut mgr)
            .unwrap();
    }
    let mut first = HashRoot::new();
    tree.merkle_hash(&mut mgr, &mut first).unwrap();
    let mut second = HashRoot::new();
    tree.merkle_hash(&mut mgr, &mut second).unwrap();
    assert_eq!(first.result, second.result);
    assert_eq!(first.result.len(), 32);
}

#[test]
fn persistent_versions_are_independent() {
    let mut mgr = null_manager();
    let mut t: Tree = Tree::default();
    for i in 0..10 {
        t = t.insert(Int32BigEndian(i), Int32BigEndian(i), &mut mgr).unwrap();
    }
    let t2 = t.insert(Int32BigEndian(11), Int32BigEndian(11), &mut mgr).unwrap();
    assert_eq!(None, t.get(&Int32BigEndian(11), &mut mgr).unwrap());
    assert_eq!(
        Some(Int32BigEndian(11)),
        t2.get(&Int32BigEndian(11), &mut mgr).unwrap()
    );
    assert_eq!(
        Some(Int32BigEndian(5)),
        t.get(&Int32BigEndian(5), &mut mgr).unwrap()
    );
    assert_eq!(
        Some(Int32BigEndian(5)),
        t2.get(&Int32BigEndian(5), &mut mgr).unwrap()
    );
}

#[test]
fn shared_handles_fall_back_to_copy_on_write() {
    let mut mgr = null_manager();
    let mut tree: Tree = Tree::default();
    for i in 0..10 {
        tree.insert_mut(Int32BigEndian(i), Int32BigEndian(i), &mut mgr)
            .unwrap();
    }
    let mut clone = tree.clone();
    clone
        .insert_mut(Int32BigEndian(100), Int32BigEndian(100), &mut mgr)
        .unwrap();
    assert_eq!(None, tree.get(&Int32BigEndian(100), &mut mgr).unwrap());
    assert_eq!(
        Some(Int32BigEndian(100)),
        clone.get(&Int32BigEndian(100), &mut mgr).unwrap()
    );
}

#[test]
fn save_reload_and_release() {
    let mut mgr = NodeManager::new(MemNodeStore::new(), 16);
    let mut tree: Tree = Tree::default();
    for i in 0..10 {
        tree = tree
            .insert(Int32BigEndian(i), Int32BigEndian(i), &mut mgr)
            .unwrap();
    }
    let root_ptr = tree.save(&mut mgr).unwrap().unwrap();
    // Saving into the empty store added exactly the tree's nodes.
    assert_eq!(mgr.node_store.len(), 10);
    drop(tree);
    let restored = Tree::from_ptr(root_ptr);
    for i in 0..10 {
        assert_eq!(
            Some(Int32BigEndian(i)),
            restored.get(&Int32BigEndian(i), &mut mgr).unwrap()
        );
    }
    assert!(restored.balanced(&mut mgr).unwrap());
    // Dropping the one reference deletes every node exactly once.
    release_stored(root_ptr, &mut mgr, 64).unwrap();
    assert_eq!(mgr.node_store.len(), 0);
}

#[test]
fn null_store_rejects_saving() {
    let mut mgr = null_manager();
    let mut tree: Tree = Tree::default();
    tree = tree
        .insert(Int32BigEndian(1), Int32BigEndian(1), &mut mgr)
        .unwrap();
    assert_eq!(Err(Error::NotImplemented), tree.save(&mut mgr));
}

#[test]
fn overwrite_keeps_last_value() {
    let mut mgr = null_manager();
    let mut tree: Tree = Tree::default();
    tree = tree
        .insert(Int32BigEndian(7), Int32BigEndian(1), &mut mgr)
        .unwrap();
    tree = tree
        .insert(Int32BigEndian(7), Int32BigEndian(2), &mut mgr)
        .unwrap();
    assert_eq!(
        Some(Int32BigEndian(2)),
        tree.get(&Int32BigEndian(7), &mut mgr).unwrap()
    );
    tree = tree.delete(&Int32BigEndian(7), &mut mgr).unwrap();
    assert_eq!(None, tree.get(&Int32BigEndian(7), &mut mgr).unwrap());
}

#[test]
fn release_walk_needs_depth() {
    let mut mgr = NodeManager::new(MemNodeStore::new(), 16);
    let mut tree: Tree = Tree::default();
    tree = tree
        .insert(Int32BigEndian(1), Int32BigEndian(1), &mut mgr)
        .unwrap();
    let root_ptr = tree.save(&mut mgr).unwrap().unwrap();
    assert_eq!(
        Err(Error::Invariant),
        release_stored(root_ptr, &mut mgr, 0)
    );
}
