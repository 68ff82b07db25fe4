use rhizome_trees::avl::Node;
use rhizome_trees::store::{MemNodeStore, NodeStore, NullNodeStore};
use rhizome_trees::value::Int32BigEndian;
use rhizome_trees::Error;

fn leaf(k: i32) -> Node {
    Node::new_node(Int32BigEndian(k), Int32BigEndian(k))
}

#[test]
fn memory_store_counts_references() {
    let mut store: MemNodeStore<Node> = MemNodeStore::new();
    let p = store.create(leaf(1)).unwrap();
    assert_eq!(store.len(), 1);
    assert_eq!(store.inc_ref_count(p), Ok(2));
    assert_eq!(store.dec_ref_count(p), Ok(1));
    assert_eq!(store.dec_ref_count(p), Ok(0));
    // Decrementing saturates at zero.
    assert_eq!(store.dec_ref_count(p), Ok(0));
    store.delete(p).unwrap();
    assert_eq!(store.len(), 0);
}

#[test]
fn memory_store_pointers_are_unique() {
    let mut store: MemNodeStore<Node> = MemNodeStore::new();
    let p1 = store.create(leaf(1)).unwrap();
    let p2 = store.create(leaf(1)).unwrap();
    assert_ne!(p1, p2);
    let mut q = store.dec_ref_count(p1).unwrap();
    assert_eq!(q, 0);
    store.delete(p1).unwrap();
    // Pointers are not reused even after a delete.
    let p3 = store.create(leaf(2)).unwrap();
    assert_ne!(p3, p1);
    assert_ne!(p3, p2);
    q = store.dec_ref_count(p2).unwrap();
    assert_eq!(q, 0);
    store.delete(p2).unwrap();
    q = store.dec_ref_count(p3).unwrap();
    assert_eq!(q, 0);
    store.delete(p3).unwrap();
    assert_eq!(store.len(), 0);
}

#[test]
fn memory_store_read_unknown_pointer_fails() {
    let store: MemNodeStore<Node> = MemNodeStore::new();
    assert!(matches!(store.read(42), Err(Error::NotFound)));
}

#[test]
fn null_store_behaviour() {
    let mut store = NullNodeStore {};
    assert!(matches!(
        NodeStore::<Node>::create(&mut store, leaf(1)),
        Err(Error::NotImplemented)
    ));
    assert!(matches!(
        NodeStore::<Node>::read(&store, 0),
        Err(Error::NotImplemented)
    ));
    assert!(matches!(
        NodeStore::<Node>::delete(&mut store, 0),
        Err(Error::NotImplemented)
    ));
    assert_eq!(NodeStore::<Node>::inc_ref_count(&mut store, 0), Ok(1));
    assert_eq!(NodeStore::<Node>::dec_ref_count(&mut store, 0), Ok(1));
}

#[test]
fn test_manager() {
    let _mgr: rhizome_trees::manager::NodeManager<MemNodeStore<Node>> =
        rhizome_trees::manager::NodeManager::new(MemNodeStore::new(), 16);
}

#[test]
fn error_messages_name_the_failure() {
    assert_eq!(Error::NotFound.message(), "not found");
    assert_eq!(Error::NotImplemented.message(), "not implemented");
    assert_eq!(Error::Invariant.message(), "invariant violation");
}
