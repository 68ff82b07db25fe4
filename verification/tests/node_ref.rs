use rhizome_trees::avl::Node;
use rhizome_trees::node_ref::{NodeRef, NodeRefInner};
use rhizome_trees::store::{MemNodeStore, NodeStore};
use rhizome_trees::value::Int32BigEndian;

#[test]
fn test_default() {
    match NodeRef::default() {
        NodeRef::Inner(_) => panic!(),
        NodeRef::Empty => {}
    }
}

#[test]
fn test_new() {
    let node = Node::new_node(Int32BigEndian(1), Int32BigEndian(1));
    match NodeRef::new(node.clone()) {
        NodeRef::Inner(inner) => match &*inner {
            NodeRefInner::MemNode(node2) => {
                assert_eq!(&node, node2)
            }
            NodeRefInner::StoredNode { .. } => {
                panic!()
            }
        },
        NodeRef::Empty => panic!(),
    }
}

#[test]
fn test_from_pointer() {
    match NodeRef::from_ptr(1) {
        NodeRef::Inner(inner) => match &*inner {
            NodeRefInner::MemNode(_) => panic!(),
            NodeRefInner::StoredNode { pointer } => {
                assert_eq!(pointer, &1);
            }
        },
        NodeRef::Empty => panic!(),
    }
}

#[test]
fn saving_a_reference_transitions_it_in_place() {
    let mut store: MemNodeStore<Node> = MemNodeStore::new();
    let mut r = NodeRef::new(Node::new_node(Int32BigEndian(1), Int32BigEndian(2)));
    let p1 = r.save(&mut store).unwrap().unwrap();
    match &r {
        NodeRef::Inner(cell) => {
            assert!(matches!(&**cell, NodeRefInner::StoredNode { .. }))
        }
        NodeRef::Empty => panic!(),
    }
    // Saving the stored form again bumps the count instead of duplicating.
    let p2 = r.save(&mut store).unwrap().unwrap();
    assert_eq!(p1, p2);
    assert_eq!(store.len(), 1);
    assert_eq!(store.dec_ref_count(p1), Ok(1));
    assert_eq!(store.dec_ref_count(p1), Ok(0));
    store.delete(p1).unwrap();
    assert_eq!(store.len(), 0);
}
