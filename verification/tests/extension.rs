use merkle_trie::trie::db::TrieDB;
use merkle_trie::trie::nibble::{Nibble, NibbleSlice, NibbleVec};
use merkle_trie::trie::node::{BranchNode, ExtensionNode, LeafNode, Node};
use merkle_trie::trie::node_ref::NodeRef;

fn leaf(db: &mut TrieDB, path: Vec<u8>, value: Vec<u8>) -> NodeRef {
    db.insert_node(Node::Leaf(LeafNode::new(path, value))).unwrap()
}

fn branch(db: &mut TrieDB, children: &[(usize, NodeRef)]) -> NodeRef {
    let mut choices = [NodeRef::default(); 16];
    for (choice, child) in children {
        choices[*choice] = *child;
    }
    db.insert_node(Node::Branch(BranchNode::new(choices))).unwrap()
}

/// extension { prefix, branch { 0 => leaf { first }, 1 => leaf { second } } }
fn extension_of_two(
    db: &mut TrieDB,
    prefix: Vec<Nibble>,
    first: (Vec<u8>, Vec<u8>),
    second: (Vec<u8>, Vec<u8>),
) -> ExtensionNode {
    let zero = leaf(db, first.0, first.1);
    let one = leaf(db, second.0, second.1);
    let child = branch(db, &[(0, zero), (1, one)]);
    ExtensionNode::new(NibbleVec::from_nibbles(prefix), child)
}

fn one_nibble(db: &mut TrieDB) -> ExtensionNode {
    extension_of_two(
        db,
        vec![Nibble::V0],
        (vec![0x00], vec![0x12, 0x34, 0x56, 0x78]),
        (vec![0x01], vec![0x34, 0x56, 0x78, 0x9A]),
    )
}

fn two_nibbles(db: &mut TrieDB) -> ExtensionNode {
    extension_of_two(
        db,
        vec![Nibble::V0, Nibble::V0],
        (vec![0x00, 0x00], vec![0x12, 0x34, 0x56, 0x78]),
        (vec![0x00, 0x10], vec![0x34, 0x56, 0x78, 0x9A]),
    )
}

#[test]
fn new() {
    let node = ExtensionNode::new(NibbleVec::new(), Default::default());

    assert_eq!(node.prefix.len(), 0);
    assert_eq!(node.child, NodeRef::default());
}

#[test]
fn get_some() {
    let mut db = TrieDB::new();
    let node = one_nibble(&mut db);

    assert_eq!(
        node.get(&db, NibbleSlice::new(&[0x00])).unwrap(),
        Some(vec![0x12, 0x34, 0x56, 0x78]),
    );
    assert_eq!(
        node.get(&db, NibbleSlice::new(&[0x01])).unwrap(),
        Some(vec![0x34, 0x56, 0x78, 0x9A]),
    );
}

#[test]
fn get_none() {
    let mut db = TrieDB::new();
    let node = one_nibble(&mut db);

    assert_eq!(node.get(&db, NibbleSlice::new(&[0x02])).unwrap(), None);
}

#[test]
fn insert_passthrough() {
    let mut db = TrieDB::new();
    let node = one_nibble(&mut db);

    let node = node
        .insert(&mut db, NibbleSlice::new(&[0x02]), vec![])
        .unwrap();
    let node = match node {
        Node::Extension(x) => x,
        _ => panic!("expected an extension node"),
    };
    assert_eq!(node.prefix.to_vec(), vec![Nibble::V0]);
}

#[test]
fn insert_branch() {
    let mut db = TrieDB::new();
    let node = one_nibble(&mut db);

    let node = node
        .insert(&mut db, NibbleSlice::new(&[0x10]), vec![])
        .unwrap();
    let node = match node {
        Node::Branch(x) => x,
        _ => panic!("expected a branch node"),
    };
    assert!(node.choices.iter().any(|x| &x == &&NodeRef::new(3)));
}

#[test]
fn insert_branch_extension() {
    let mut db = TrieDB::new();
    let node = two_nibbles(&mut db);

    let node = node
        .insert(&mut db, NibbleSlice::new(&[0x10]), vec![])
        .unwrap();
    let node = match node {
        Node::Branch(x) => x,
        _ => panic!("expected a branch node"),
    };
    assert!(node.choices.iter().any(|x| &x == &&NodeRef::new(4)));
}

#[test]
fn insert_extension_branch() {
    let mut db = TrieDB::new();
    let node = two_nibbles(&mut db);

    let path = NibbleSlice::new(&[0x01]);
    let value = vec![0x02];

    let node = node
        .insert(&mut db, path.clone(), value.clone())
        .unwrap();

    assert!(matches!(node, Node::Extension(_)));
    assert_eq!(node.get(&mut db, path).unwrap(), Some(value));
}

#[test]
fn insert_extension_branch_extension() {
    let mut db = TrieDB::new();
    let node = two_nibbles(&mut db);

    let path = NibbleSlice::new(&[0x01]);
    let value = vec![0x04];

    let node = node
        .insert(&mut db, path.clone(), value.clone())
        .unwrap();

    assert!(matches!(node, Node::Extension(_)));
    assert_eq!(node.get(&mut db, path).unwrap(), Some(value));
}

#[test]
fn remove_none() {
    let mut db = TrieDB::new();
    let node = extension_of_two(
        &mut db,
        vec![Nibble::V0],
        (vec![0x00], vec![0x00]),
        (vec![0x01], vec![0x01]),
    );

    let (node, value) = node
        .remove(&mut db, NibbleSlice::new(&[0x02]))
        .unwrap();

    assert!(matches!(node, Some(Node::Extension(_))));
    assert_eq!(value, None);
}

#[test]
fn remove_into_leaf() {
    let mut db = TrieDB::new();
    let node = extension_of_two(
        &mut db,
        vec![Nibble::V0],
        (vec![0x00], vec![0x00]),
        (vec![0x01], vec![0x01]),
    );

    let (node, value) = node
        .remove(&mut db, NibbleSlice::new(&[0x01]))
        .unwrap();

    assert!(matches!(node, Some(Node::Leaf(_))));
    assert_eq!(value, Some(vec![0x01]));
}

#[test]
fn remove_into_extension() {
    let mut db = TrieDB::new();
    let zero = leaf(&mut db, vec![0x00], vec![0x00]);
    let inner = extension_of_two(
        &mut db,
        vec![Nibble::V0],
        (vec![0x01, 0x00], vec![0x01, 0x00]),
        (vec![0x01, 0x01], vec![0x01, 0x01]),
    );
    let one = db.insert_node(Node::Extension(inner)).unwrap();
    let child = branch(&mut db, &[(0, zero), (1, one)]);
    let node = ExtensionNode::new(NibbleVec::from_nibbles(vec![Nibble::V0]), child);

    let (node, value) = node
        .remove(&mut db, NibbleSlice::new(&[0x00]))
        .unwrap();

    assert!(matches!(node, Some(Node::Extension(_))));
    assert_eq!(value, Some(vec![0x00]));
}

#[test]
fn compute_hash() {
    let mut db = TrieDB::new();
    let mut node = extension_of_two(
        &mut db,
        vec![Nibble::V0, Nibble::V0],
        (vec![0x00, 0x00], vec![0x12, 0x34]),
        (vec![0x00, 0x10], vec![0x56, 0x78]),
    );

    let node_hash_ref = node.compute_hash(&db, 0).unwrap();
    assert_eq!(
        node_hash_ref.as_ref(),
        &[
            0xDD, 0x82, 0x00, 0x00, 0xD9, 0xC4, 0x30, 0x82, 0x12, 0x34, 0xC4, 0x30, 0x82, 0x56,
            0x78, 0x80, 0x80, 0x80, 0x80, 0x80, 0x80, 0x80, 0x80, 0x80, 0x80, 0x80, 0x80, 0x80,
            0x80, 0x80,
        ],
    );
}

#[test]
fn compute_hash_long() {
    let mut db = TrieDB::new();
    let mut node = extension_of_two(
        &mut db,
        vec![Nibble::V0, Nibble::V0],
        (vec![0x00, 0x00], vec![0x12, 0x34, 0x56, 0x78, 0x9A]),
        (vec![0x00, 0x10], vec![0x34, 0x56, 0x78, 0x9A, 0xBC]),
    );

    let node_hash_ref = node.compute_hash(&db, 0).unwrap();
    assert_eq!(
        node_hash_ref.as_ref(),
        &[
            0xFA, 0xBA, 0x42, 0x79, 0xB3, 0x9B, 0xCD, 0xEB, 0x7C, 0x53, 0x0F, 0xD7, 0x6E, 0x5A,
            0xA3, 0x48, 0xD3, 0x30, 0x76, 0x26, 0x14, 0x84, 0x55, 0xA0, 0xAE, 0xFE, 0x0F, 0x52,
            0x89, 0x5F, 0x36, 0x06,
        ],
    );
}
