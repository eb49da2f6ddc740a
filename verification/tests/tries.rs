use merkle_trie::error::StoreError;
use merkle_trie::trie::db::TrieDB;
use merkle_trie::trie::hashing::NodeHashRef;
use merkle_trie::trie::nibble::{Nibble, NibbleSlice, NibbleVec};
use merkle_trie::trie::node::{
    compute_extension_hash, BranchNode, ExtensionNode, LeafNode, Node,
};
use merkle_trie::trie::node_ref::NodeRef;

fn path(key: &[u8]) -> NibbleSlice<'_> {
    NibbleSlice::new(key)
}

fn put(db: &mut TrieDB, node: Option<Node>, key: &[u8], value: &[u8]) -> Option<Node> {
    match node {
        Some(node) => Some(node.insert(db, path(key), value.to_vec()).unwrap()),
        None => Some(Node::Leaf(LeafNode::new(key.to_vec(), value.to_vec()))),
    }
}

fn trie_of(db: &mut TrieDB, pairs: &[(&[u8], &[u8])]) -> Node {
    let mut node = None;
    for (key, value) in pairs {
        node = put(db, node, key, value);
    }
    node.unwrap()
}

fn find(db: &TrieDB, node: &Node, key: &[u8]) -> Option<Vec<u8>> {
    node.get(db, path(key)).unwrap()
}

fn root(db: &TrieDB, node: &Node) -> Vec<u8> {
    node.clone().compute_hash(db, 0).unwrap().as_ref().to_vec()
}

fn hex(text: &str) -> Vec<u8> {
    (0..text.len() / 2)
        .map(|i| u8::from_str_radix(&text[2 * i..2 * i + 2], 16).unwrap())
        .collect()
}

/// The trie spelled out, without what was computed.
fn spell(db: &TrieDB, node: &Node) -> String {
    match node {
        Node::Leaf(leaf) => format!("leaf({:?}={:?})", leaf.path, leaf.value),
        Node::Extension(extension) => {
            let child = db.get_node(extension.child).unwrap().unwrap();
            format!("extension({:?} {})", extension.prefix.to_vec(), spell(db, &child))
        }
        Node::Branch(branch) => {
            let mut text = String::new();
            for (i, child) in branch.choices.iter().enumerate() {
                if let Some(child) = db.get_node(*child).unwrap() {
                    text.push_str(&format!(" {}:{}", i, spell(db, &child)));
                }
            }
            match &branch.value {
                Some(value) => format!("branch({} {:?}={:?})", text, branch.path, value),
                None => format!("branch({})", text),
            }
        }
    }
}

const PUPPY: [(&[u8], &[u8]); 4] = [
    (b"do", b"verb"),
    (b"horse", b"stallion"),
    (b"doge", b"coin"),
    (b"dog", b"puppy"),
];

#[test]
fn roots_of_well_known_tries() {
    let mut db = TrieDB::new();
    let node = trie_of(&mut db, &PUPPY);
    assert_eq!(
        root(&db, &node),
        hex("5991bb8c6514148a29db676a14ac506cd2cd5775ace63c30a4fe457715e9ac84"),
    );

    let mut db = TrieDB::new();
    let node = trie_of(
        &mut db,
        &[(b"doe", b"reindeer"), (b"dog", b"puppy"), (b"dogglesworth", b"cat")],
    );
    assert_eq!(
        root(&db, &node),
        hex("8aad789dff2f538bca5d8ea56e8abe10f4c7ba3a5dea95fea4cd6e7c3a1168d3"),
    );

    let db = TrieDB::new();
    let node = Node::Leaf(LeafNode::new(b"A".to_vec(), vec![b'a'; 50]));
    assert_eq!(
        root(&db, &node),
        hex("d23786fb4a010da3ce639d66d5e904a11dbc02746d1ce25029e53290cabf28ab"),
    );
}

#[test]
fn an_insertion_changes_one_key() {
    let mut db = TrieDB::new();
    let node = trie_of(&mut db, &PUPPY);
    for (key, value) in PUPPY {
        assert_eq!(find(&db, &node, key), Some(value.to_vec()));
    }
    let node = node.insert(&mut db, path(b"dot"), b"point".to_vec()).unwrap();
    assert_eq!(find(&db, &node, b"dot"), Some(b"point".to_vec()));
    for (key, value) in PUPPY {
        assert_eq!(find(&db, &node, key), Some(value.to_vec()));
    }
    for key in [&b""[..], b"d", b"dogs", b"dogecoin", b"hors", b"horsf"] {
        assert_eq!(find(&db, &node, key), None);
    }
}

#[test]
fn a_removal_changes_one_key() {
    for (removed, held) in PUPPY {
        let mut db = TrieDB::new();
        let node = trie_of(&mut db, &PUPPY);
        let (node, value) = node.remove(&mut db, path(removed)).unwrap();
        assert_eq!(value, Some(held.to_vec()));
        let node = node.unwrap();
        for (key, value) in PUPPY {
            let left = if key == removed { None } else { Some(value.to_vec()) };
            assert_eq!(find(&db, &node, key), left);
        }
    }
}

#[test]
fn to_remove_what_is_absent_changes_nothing() {
    let mut db = TrieDB::new();
    let node = trie_of(&mut db, &PUPPY);
    let before = spell(&db, &node);
    for key in [&b""[..], b"d", b"dogs", b"dogecoin", b"cat"] {
        let (left, value) = node.clone().remove(&mut db, path(key)).unwrap();
        assert_eq!(value, None);
        assert_eq!(spell(&db, &left.unwrap()), before);
    }
}

#[test]
fn the_order_of_insertions_makes_no_difference() {
    let mut db = TrieDB::new();
    let forth = trie_of(&mut db, &PUPPY);
    let mut pairs = PUPPY;
    pairs.reverse();
    let back = trie_of(&mut db, &pairs);
    assert_eq!(spell(&db, &forth), spell(&db, &back));
    assert_eq!(root(&db, &forth), root(&db, &back));
}

#[test]
fn the_last_insertion_for_a_key_counts() {
    let mut db = TrieDB::new();
    let once = trie_of(&mut db, &PUPPY);
    let mut pairs = vec![(&b"doge"[..], &b"money"[..])];
    pairs.extend(PUPPY);
    let twice = trie_of(&mut db, &pairs);
    assert_eq!(find(&db, &twice, b"doge"), Some(b"coin".to_vec()));
    assert_eq!(spell(&db, &once), spell(&db, &twice));
}

#[test]
fn a_removal_undoes_an_insertion() {
    let mut db = TrieDB::new();
    let node = trie_of(&mut db, &PUPPY);
    let before = spell(&db, &node);
    for key in [&b""[..], b"dogs", b"dogecoin", b"zebra", b"hors"] {
        let grown = node.clone().insert(&mut db, path(key), vec![7]).unwrap();
        assert_ne!(spell(&db, &grown), before);
        let (shrunk, value) = grown.remove(&mut db, path(key)).unwrap();
        assert_eq!(value, Some(vec![7]));
        assert_eq!(spell(&db, &shrunk.unwrap()), before);
    }
}

#[test]
fn an_insertion_undoes_a_removal() {
    let mut db = TrieDB::new();
    let node = trie_of(&mut db, &PUPPY);
    let before = spell(&db, &node);
    for (key, value) in PUPPY {
        let (shrunk, held) = node.clone().remove(&mut db, path(key)).unwrap();
        assert_eq!(held, Some(value.to_vec()));
        let back = shrunk.unwrap().insert(&mut db, path(key), held.unwrap()).unwrap();
        assert_eq!(spell(&db, &back), before);
    }
}

#[test]
fn no_node_is_left_when_the_last_key_is_taken_out() {
    let mut db = TrieDB::new();
    let node = trie_of(&mut db, &[(b"dog", b"puppy")]);
    let (left, value) = node.remove(&mut db, path(b"dog")).unwrap();
    assert!(left.is_none());
    assert_eq!(value, Some(b"puppy".to_vec()));
}

#[test]
fn no_node_can_be_spared_after_removals() {
    let mut db = TrieDB::new();
    let node = trie_of(&mut db, &PUPPY);
    let (node, _) = node.remove(&mut db, path(b"horse")).unwrap();
    let (node, _) = node.unwrap().remove(&mut db, path(b"do")).unwrap();
    let fewer = trie_of(&mut db, &[(b"dog", b"puppy"), (b"doge", b"coin")]);
    assert_eq!(spell(&db, &node.unwrap()), spell(&db, &fewer));
}

#[test]
fn every_value_stands_where_its_key_leads() {
    let mut db = TrieDB::new();
    let node = trie_of(&mut db, &[(&[0x12, 0x34], &[1]), (&[0x12, 0x56], &[2]), (&[0x12], &[3])]);
    assert_eq!(
        spell(&db, &node),
        "extension([V1, V2] branch( 3:leaf([18, 52]=[1]) 5:leaf([18, 86]=[2]) [18]=[3]))",
    );
}

#[test]
fn an_empty_value_is_a_value() {
    let mut db = TrieDB::new();
    let node = trie_of(&mut db, &[(&[0x12, 0x34], &[1]), (&[0x12, 0x56], &[2]), (&[0x12], &[])]);
    assert_eq!(find(&db, &node, &[0x12]), Some(vec![]));
    let (node, value) = node.remove(&mut db, path(&[0x12])).unwrap();
    assert_eq!(value, Some(vec![]));
    assert_eq!(find(&db, &node.unwrap(), &[0x12]), None);
}

fn pair(db: &mut TrieDB) -> ExtensionNode {
    match trie_of(db, &[(&[0x12, 0x34], &[1]), (&[0x12, 0x56], &[2])]) {
        Node::Extension(node) => node,
        _ => panic!("expected an extension node"),
    }
}

#[test]
fn an_insertion_gives_an_extension_by_a_part_of_the_prefix_or_a_branch() {
    let mut db = TrieDB::new();
    let node = pair(&mut db);
    for (key, prefix) in [
        (&[0x12, 0x78][..], vec![Nibble::V1, Nibble::V2]),
        (&[0x12][..], vec![Nibble::V1, Nibble::V2]),
        (&[0x13][..], vec![Nibble::V1]),
    ] {
        match node.clone().insert(&mut db, path(key), vec![3]).unwrap() {
            Node::Extension(node) => assert_eq!(node.prefix.to_vec(), prefix),
            _ => panic!("expected an extension node"),
        }
    }
    for key in [&[0x22][..], &[]] {
        let new = node.clone().insert(&mut db, path(key), vec![3]).unwrap();
        assert!(matches!(new, Node::Branch(_)));
        assert_eq!(find(&db, &new, key), Some(vec![3]));
        assert_eq!(find(&db, &new, &[0x12, 0x56]), Some(vec![2]));
    }
}

#[test]
fn a_removal_gives_an_extension_by_a_longer_prefix_or_a_leaf() {
    let mut db = TrieDB::new();
    let node = trie_of(&mut db, &[(&[0x12, 0x34], &[1]), (&[0x12, 0x35], &[2]), (&[0x12], &[3])]);
    let (node, _) = node.remove(&mut db, path(&[0x12])).unwrap();
    let node = match node {
        Some(Node::Extension(node)) => node,
        _ => panic!("expected an extension node"),
    };
    assert_eq!(node.prefix.to_vec(), vec![Nibble::V1, Nibble::V2, Nibble::V3]);
    let (node, _) = node.remove(&mut db, path(&[0x12, 0x34])).unwrap();
    match node {
        Some(Node::Leaf(leaf)) => assert_eq!((leaf.path, leaf.value), (vec![0x12, 0x35], vec![2])),
        _ => panic!("expected a leaf node"),
    }
}

#[test]
fn notes_do_not_change_what_stands_for_a_trie() {
    let mut db = TrieDB::new();
    let mut node = trie_of(&mut db, &PUPPY);
    let first = node.compute_hash(&db, 0).unwrap();
    let second = node.compute_hash(&db, 0).unwrap();
    assert_eq!(first.as_ref(), second.as_ref());

    // The notes of the nodes on the way do not outlive a change below them.
    let grown = node.clone().insert(&mut db, path(b"dot"), vec![1]).unwrap();
    let mut pairs = PUPPY.to_vec();
    pairs.push((b"dot", &[1]));
    let fresh = trie_of(&mut db, &pairs);
    assert_eq!(root(&db, &grown), root(&db, &fresh));

    let (mut grown, mut shrunk) = (grown, None);
    grown.compute_hash(&db, 0).unwrap();
    for key in [&b"dot"[..], b"do"] {
        let (left, _) = grown.clone().remove(&mut db, path(key)).unwrap();
        grown = left.unwrap();
        grown.compute_hash(&db, 0).unwrap();
        shrunk = Some(grown.clone());
    }
    let fewer = trie_of(&mut db, &PUPPY[1..]);
    assert_eq!(root(&db, &shrunk.unwrap()), root(&db, &fewer));
}

#[test]
fn what_is_stored_stays() {
    let mut db = TrieDB::new();
    let node = trie_of(&mut db, &PUPPY);
    let (before, hash) = (spell(&db, &node), root(&db, &node));
    let other = node.clone().insert(&mut db, path(b"dog"), b"hound".to_vec()).unwrap();
    other.remove(&mut db, path(b"horse")).unwrap();
    assert_eq!(spell(&db, &node), before);
    assert_eq!(root(&db, &node), hash);
    assert_eq!(find(&db, &node, b"dog"), Some(b"puppy".to_vec()));
}

#[test]
fn the_hash_of_an_extension_follows_from_its_child() {
    let mut db = TrieDB::new();
    let mut node = pair(&mut db);
    let mut child = db.get_node(node.child).unwrap().unwrap();
    let child_hash = child.compute_hash(&db, 2).unwrap();
    let prefix = node.prefix.clone();
    let expected = compute_extension_hash(&mut Default::default(), &prefix, child_hash);
    assert_eq!(node.compute_hash(&db, 0).unwrap().as_ref(), expected.as_ref());
    assert_eq!(node.hash.extract_ref().unwrap().as_ref(), expected.as_ref());

    // An odd prefix and a child that is referred to by its hash.
    let mut hash = Default::default();
    let hashed = NodeHashRef::Hashed([0x11; 32]);
    let prefix = NibbleVec::from_nibbles(vec![Nibble::V10]);
    let long = compute_extension_hash(&mut hash, &prefix, hashed);
    assert!(matches!(long, NodeHashRef::Hashed(_)));
    assert_eq!(long.as_ref().len(), 32);
    let inline = NodeHashRef::Inline(vec![0xC0]);
    let short = compute_extension_hash(&mut hash, &prefix, inline);
    assert_eq!(short.as_ref(), &[0xC2, 0x1A, 0xC0]);
}

#[test]
fn a_leaf_is_hashed_from_where_it_stands() {
    let leaf = LeafNode::new(vec![0x12, 0x34], vec![0x05]);
    for (offset, encoded) in [
        (0, vec![0xC5, 0x83, 0x20, 0x12, 0x34, 0x05]),
        (1, vec![0xC4, 0x82, 0x32, 0x34, 0x05]),
        (3, vec![0xC2, 0x34, 0x05]),
        (4, vec![0xC2, 0x20, 0x05]),
    ] {
        assert_eq!(leaf.clone().compute_hash(offset).as_ref(), &encoded[..]);
    }
}

#[test]
fn a_full_store_refuses_what_needs_more_room() {
    // Two leaves and a branch.
    for limit in 3..8 {
        let mut db = TrieDB::with_limit(limit);
        let node = pair(&mut db);
        // The right part of the prefix, the leaf: two more nodes.
        let result = node.insert(&mut db, path(&[0x22]), vec![3]);
        match result {
            Ok(_) => assert!(limit >= 5),
            Err(e) => {
                assert!(limit < 5);
                assert_eq!(e, StoreError::Full);
            }
        }
    }
    let mut db = TrieDB::with_limit(3);
    let node = pair(&mut db);
    assert_eq!(node.get(&db, path(&[0x12, 0x34])), Ok(Some(vec![1])));
    assert!(node.clone().compute_hash(&db, 0).is_ok());
    // What needs no room is done.
    let (left, value) = node.clone().remove(&mut db, path(&[0x12, 0x34])).unwrap();
    assert!(matches!(left, Some(Node::Leaf(_))));
    assert_eq!(value, Some(vec![1]));
    // To remove what is absent stores the way to it again.
    assert_eq!(
        node.remove(&mut db, path(&[0x12, 0x78])).err(),
        Some(StoreError::Full),
    );
}

#[test]
fn a_closed_store_refuses_what_needs_to_be_read() {
    let mut db = TrieDB::new();
    let node = pair(&mut db);
    let mut noted = node.clone();
    let hash = noted.compute_hash(&db, 0).unwrap();
    db.close();
    assert_eq!(node.get(&db, path(&[0x12, 0x34])), Err(StoreError::Closed));
    assert_eq!(node.get(&db, path(&[0x13])), Ok(None));
    assert_eq!(
        node.clone().insert(&mut db, path(&[0x12, 0x34]), vec![1]).err(),
        Some(StoreError::Closed),
    );
    assert_eq!(
        node.clone().remove(&mut db, path(&[0x12, 0x34])).err(),
        Some(StoreError::Closed),
    );
    assert!(matches!(
        node.clone().remove(&mut db, path(&[0x13])),
        Ok((Some(Node::Extension(_)), None))
    ));
    assert_eq!(node.clone().compute_hash(&db, 0).err(), Some(StoreError::Closed));
    assert_eq!(noted.compute_hash(&db, 0).unwrap().as_ref(), hash.as_ref());
}

#[test]
fn references_tell_where_nodes_stand() {
    let mut db = TrieDB::new();
    let leaf = LeafNode::new(vec![0x12], vec![1]);
    assert_eq!(db.insert_node(Node::Leaf(leaf.clone())), Ok(NodeRef::new(0)));
    assert_eq!(db.insert_node(Node::Leaf(leaf)), Ok(NodeRef::new(1)));
    assert!(db.get_node(NodeRef::new(1)).unwrap().is_some());
    assert!(db.get_node(NodeRef::new(2)).unwrap().is_none());
    assert!(db.get_node(NodeRef::default()).unwrap().is_none());
    assert_eq!(NodeRef::new(1).index(), Some(1));
    assert!(!NodeRef::default().is_valid());
}

#[test]
fn a_branch_with_one_child_gives_its_place_to_it() {
    let mut db = TrieDB::new();
    let leaf = db.insert_node(Node::Leaf(LeafNode::new(vec![0x12], vec![1]))).unwrap();
    let mut choices = [NodeRef::default(); 16];
    choices[1] = leaf;
    let node = BranchNode::new_with_value(choices, vec![], vec![2]);
    assert_eq!(node.get(&db, path(&[])), Ok(Some(vec![2])));
    let (left, value) = node.remove(&mut db, path(&[])).unwrap();
    assert_eq!(value, Some(vec![2]));
    match left {
        Some(Node::Leaf(leaf)) => assert_eq!((leaf.path, leaf.value), (vec![0x12], vec![1])),
        _ => panic!("expected a leaf node"),
    }
}

#[test]
fn little_is_stored() {
    let mut db = TrieDB::new();
    trie_of(&mut db, &PUPPY);
    let spare = db.insert_node(Node::Leaf(LeafNode::new(vec![], vec![]))).unwrap();
    let used = spare.index().unwrap();
    for key in [&b""[..], b"dogs", b"dogecoin", b"zebra", b"hors", b"doge"] {
        let mut db = TrieDB::with_limit(used + 2 * key.len() + 1);
        let node = trie_of(&mut db, &PUPPY);
        assert!(node.insert(&mut db, path(key), vec![7]).is_ok());
        let mut db = TrieDB::with_limit(used + 2 * key.len());
        let node = trie_of(&mut db, &PUPPY);
        assert!(node.remove(&mut db, path(key)).is_ok());
    }
}

#[test]
fn keys_of_one_length_are_hashed_at_their_depth() {
    let mut db = TrieDB::new();
    let (first, second) = ([0xAB; 40], [0xAC; 40]);
    let mut node = trie_of(&mut db, &[(&first, &[1]), (&second, &[2])]);
    assert!(node.compute_hash(&db, 0).is_ok());
    match node {
        Node::Extension(node) => assert_eq!(node.prefix.to_vec(), vec![Nibble::V10]),
        _ => panic!("expected an extension node"),
    }
}

fn dangling(prefix: Vec<Nibble>) -> ExtensionNode {
    ExtensionNode::new(NibbleVec::from_nibbles(prefix), NodeRef::default())
}

#[test]
fn off_the_prefix_no_child_is_read() {
    let mut db = TrieDB::new();
    db.close();
    let prefix = vec![Nibble::V0, Nibble::V1, Nibble::V2];
    for key in [&[0x01][..], &[], &[0x01, 0x30], &[0x10]] {
        let node = dangling(prefix.clone());
        assert_eq!(node.get(&db, path(key)), Ok(None));
        match node.remove(&mut db, path(key)).unwrap() {
            (Some(Node::Extension(left)), None) => {
                assert_eq!(left.prefix.to_vec(), prefix);
                assert_eq!(left.child, NodeRef::default());
            }
            _ => panic!("expected the extension node and no value"),
        }
    }
}

#[test]
fn off_the_prefix_a_value_is_put_in_beside_any_child() {
    let mut db = TrieDB::new();
    let node = dangling(vec![Nibble::V0, Nibble::V1, Nibble::V2]);
    match node.insert(&mut db, path(&[0x01]), vec![9]).unwrap() {
        Node::Extension(top) => {
            assert_eq!(top.prefix.to_vec(), vec![Nibble::V0, Nibble::V1]);
            assert_eq!(top.child, NodeRef::new(0));
            match db.get_node(top.child).unwrap().unwrap() {
                Node::Branch(branch) => {
                    assert_eq!(branch.choices, [NodeRef::default(); 16]);
                    assert_eq!((branch.path, branch.value), (vec![0x01], Some(vec![9])));
                }
                _ => panic!("expected a branch node"),
            }
        }
        _ => panic!("expected an extension node"),
    }
}

#[test]
fn a_noted_hash_is_given_for_every_store() {
    let mut node = dangling(vec![Nibble::V1]);
    let inline = NodeHashRef::Inline(vec![0xC0]);
    let prefix = node.prefix.clone();
    let noted = compute_extension_hash(&mut node.hash, &prefix, inline);
    let mut db = TrieDB::new();
    db.close();
    for offset in [0, 7, usize::MAX] {
        let hash = node.compute_hash(&db, offset).unwrap();
        assert_eq!(hash.as_ref(), noted.as_ref());
    }
}

#[test]
fn a_parted_extension_refers_to_its_old_child() {
    // Nothing of the prefix is left: the choice is the old child.
    let mut db = TrieDB::new();
    let node = pair(&mut db);
    let child = node.child;
    match node.insert(&mut db, path(&[0x13]), vec![3]).unwrap() {
        Node::Extension(top) => match db.get_node(top.child).unwrap().unwrap() {
            Node::Branch(branch) => {
                let mut choices = [NodeRef::default(); 16];
                choices[2] = child;
                choices[3] = NodeRef::new(3);
                assert_eq!(branch.choices, choices);
                assert_eq!(top.child, NodeRef::new(4));
            }
            _ => panic!("expected a branch node"),
        },
        _ => panic!("expected an extension node"),
    }

    // The right part of the prefix is stored first, then the leaf.
    let mut db = TrieDB::new();
    let node = pair(&mut db);
    let child = node.child;
    match node.insert(&mut db, path(&[0x22]), vec![3]).unwrap() {
        Node::Branch(branch) => {
            let mut choices = [NodeRef::default(); 16];
            choices[1] = NodeRef::new(3);
            choices[2] = NodeRef::new(4);
            assert_eq!(branch.choices, choices);
        }
        _ => panic!("expected a branch node"),
    }
    match db.get_node(NodeRef::new(3)).unwrap().unwrap() {
        Node::Extension(right) => {
            assert_eq!(right.prefix.to_vec(), vec![Nibble::V2]);
            assert_eq!(right.child, child);
        }
        _ => panic!("expected an extension node"),
    }
    assert!(matches!(db.get_node(NodeRef::new(4)).unwrap().unwrap(), Node::Leaf(_)));
}

#[test]
fn along_the_prefix_the_changed_child_is_stored_last() {
    let mut db = TrieDB::new();
    let node = pair(&mut db);
    // The leaf and the changed branch.
    let node = match node.insert(&mut db, path(&[0x12, 0x78]), vec![3]).unwrap() {
        Node::Extension(node) => node,
        _ => panic!("expected an extension node"),
    };
    assert_eq!(node.child, NodeRef::new(4));
    // The branch again.
    let node = match node.remove(&mut db, path(&[0x12, 0x78])).unwrap() {
        (Some(Node::Extension(node)), Some(_)) => node,
        _ => panic!("expected an extension node and a value"),
    };
    assert_eq!(node.child, NodeRef::new(5));
}

#[test]
fn a_joined_extension_keeps_its_child() {
    let mut db = TrieDB::new();
    let inner = pair(&mut db);
    let child = inner.child;
    let inner = ExtensionNode::new(NibbleVec::from_nibbles(vec![Nibble::V4]), child);
    let lower = db.insert_node(Node::Extension(inner)).unwrap();
    let leaf = db.insert_node(Node::Leaf(LeafNode::new(vec![0x01], vec![1]))).unwrap();
    let mut choices = [NodeRef::default(); 16];
    choices[1] = leaf;
    choices[3] = lower;
    let branch = db.insert_node(Node::Branch(BranchNode::new(choices))).unwrap();
    let node = ExtensionNode::new(NibbleVec::from_nibbles(vec![Nibble::V0]), branch);
    match node.remove(&mut db, path(&[0x01])).unwrap() {
        (Some(Node::Extension(left)), Some(value)) => {
            assert_eq!(left.prefix.to_vec(), vec![Nibble::V0, Nibble::V3, Nibble::V4]);
            assert_eq!(left.child, child);
            assert_eq!(value, vec![1]);
        }
        _ => panic!("expected an extension node and a value"),
    }
}

#[test]
fn a_refused_insertion_stores_the_first_of_its_nodes() {
    let mut db = TrieDB::with_limit(4);
    let node = pair(&mut db);
    let child = node.child;
    assert_eq!(
        node.clone().insert(&mut db, path(&[0x22]), vec![3]).err(),
        Some(StoreError::Full),
    );
    match db.get_node(NodeRef::new(3)).unwrap().unwrap() {
        Node::Extension(right) => {
            assert_eq!(right.prefix.to_vec(), vec![Nibble::V2]);
            assert_eq!(right.child, child);
        }
        _ => panic!("expected an extension node"),
    }
    assert_eq!(node.get(&db, path(&[0x12, 0x34])), Ok(Some(vec![1])));
}
