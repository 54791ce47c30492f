use ironbase_core::document::DocumentId;
use ironbase_core::error::IronBaseError;
use ironbase_core::index::btree::{BPlusTree, BTreeNode, InternalNode, LeafNode, NODE_PAGE_SIZE};
use ironbase_core::index::key::IndexKey;
use ironbase_core::index::page::{
    check_node_type, decode_node_page, decode_root_offset, encode_node_page, encode_root_offset,
    NODE_TYPE_INTERNAL, NODE_TYPE_LEAF,
};

#[test]
fn page_holds_type_length_and_data() {
    let data = b"{\"Leaf\":{}}".to_vec();
    let page = encode_node_page(NODE_TYPE_LEAF, &data).unwrap();
    assert_eq!(page.len(), NODE_PAGE_SIZE);
    assert_eq!(page[0], NODE_TYPE_LEAF);
    assert_eq!(&page[1..5], &(data.len() as u32).to_le_bytes());
    assert_eq!(&page[5..5 + data.len()], &data[..]);
    assert!(page[5 + data.len()..].iter().all(|b| *b == 0));
    let (t, back) = decode_node_page(&page);
    assert_eq!(t, NODE_TYPE_LEAF);
    assert_eq!(back, data);
}

#[test]
fn oversized_node_is_refused() {
    let data = vec![b'x'; NODE_PAGE_SIZE - 4];
    match encode_node_page(NODE_TYPE_INTERNAL, &data) {
        Err(IronBaseError::IndexError(m)) => {
            assert_eq!(m, format!("Node size {} exceeds page size {}", NODE_PAGE_SIZE - 4, NODE_PAGE_SIZE - 5))
        }
        other => panic!("unexpected {:?}", other),
    }
    assert!(encode_node_page(NODE_TYPE_INTERNAL, &vec![0u8; NODE_PAGE_SIZE - 5]).is_ok());
}

#[test]
fn root_offset_header_round_trip() {
    for offset in [0u64, 8, 16392, u64::MAX, 0x0102_0304_0506_0708] {
        let b = encode_root_offset(offset);
        assert_eq!(b, offset.to_le_bytes().to_vec());
        assert_eq!(decode_root_offset(&b), offset);
    }
}

#[test]
fn node_type_mismatch_is_corruption() {
    assert!(check_node_type(NODE_TYPE_LEAF, false, 8).is_ok());
    assert!(check_node_type(NODE_TYPE_INTERNAL, true, 8).is_ok());
    match check_node_type(NODE_TYPE_LEAF, true, 4104) {
        Err(IronBaseError::Corruption(m)) => assert_eq!(m, "Node type mismatch at offset 4104"),
        other => panic!("unexpected {:?}", other),
    }
}

fn leaf(keys: &[i64]) -> BTreeNode {
    BTreeNode::Leaf(LeafNode {
        keys: keys.iter().map(|k| IndexKey::Int(*k)).collect(),
        document_ids: keys.iter().map(|k| DocumentId::Int(*k)).collect(),
        next_leaf_offset: 0,
    })
}

fn meta() -> ironbase_core::index::btree::IndexMetadata {
    BPlusTree::new("i".to_string(), "f".to_string(), false, false).metadata
}

#[test]
fn loaded_root_is_checked() {
    let good = BTreeNode::Internal(InternalNode {
        keys: vec![IndexKey::Int(10)],
        children: vec![Box::new(leaf(&[1, 5])), Box::new(leaf(&[10, 12, 20]))],
        children_offsets: vec![],
    });
    let t = BPlusTree::from_loaded_root(good, meta(), 0).unwrap();
    assert_eq!(t.size(), 5);
    assert_eq!(t.search(&IndexKey::Int(12)), Some(DocumentId::Int(12)));
    // A child key on the wrong side of its separator.
    let misplaced = BTreeNode::Internal(InternalNode {
        keys: vec![IndexKey::Int(10)],
        children: vec![Box::new(leaf(&[1, 11])), Box::new(leaf(&[12]))],
        children_offsets: vec![],
    });
    assert!(matches!(BPlusTree::from_loaded_root(misplaced, meta(), 0), Err(IronBaseError::Corruption(_))));
    // Keys out of order in a leaf.
    assert!(BPlusTree::from_loaded_root(leaf(&[3, 2]), meta(), 0).is_err());
    // A missing child.
    let short = BTreeNode::Internal(InternalNode {
        keys: vec![IndexKey::Int(10)],
        children: vec![Box::new(leaf(&[1]))],
        children_offsets: vec![],
    });
    assert!(BPlusTree::from_loaded_root(short, meta(), 0).is_err());
}
