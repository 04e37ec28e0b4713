use bptree::node::BPTreeKeyValue;
use bptree::node::BPTreeNode;

fn entry(key: &str, value: &str) -> BPTreeKeyValue {
    BPTreeKeyValue { key: key.to_string(), value: value.to_string() }
}

fn leaf_of(keys: &[&str]) -> BPTreeNode {
    BPTreeNode::Leaf {
        parent: Some(9),
        next: Some(4),
        kvs: keys.iter().map(|k| entry(k, "v")).collect(),
    }
}

#[test]
fn leaf_split_keeps_lower_half_in_place() {
    let mut n = leaf_of(&["a", "b", "c", "d"]);
    let right = n.split();
    match &n {
        BPTreeNode::Leaf { parent, next, kvs } => {
            assert_eq!(*parent, Some(9));
            assert_eq!(*next, Some(4), "split itself must not rewire the chain");
            let keys: Vec<&str> = kvs.iter().map(|kv| kv.key.as_str()).collect();
            assert_eq!(keys, vec!["a", "b"]);
        }
        BPTreeNode::Internal { .. } => panic!("a split leaf stays a leaf"),
    }
    match &right {
        BPTreeNode::Leaf { parent, next, kvs } => {
            assert_eq!(*parent, Some(9), "the new half starts with the same parent");
            assert_eq!(*next, None, "wiring the new half's sibling is the caller's job");
            let keys: Vec<&str> = kvs.iter().map(|kv| kv.key.as_str()).collect();
            assert_eq!(keys, vec!["c", "d"]);
        }
        BPTreeNode::Internal { .. } => panic!("splitting a leaf yields a leaf"),
    }
}

#[test]
fn internal_split_drops_the_promoted_separator() {
    let mut n = BPTreeNode::Internal {
        parent: None,
        child: vec![10, 11, 12, 13, 14],
        keys: vec!["b".to_string(), "d".to_string(), "f".to_string(), "h".to_string()],
    };
    let right = n.split();
    match &n {
        BPTreeNode::Internal { child, keys, .. } => {
            assert_eq!(child, &vec![10, 11, 12]);
            assert_eq!(keys, &vec!["b".to_string(), "d".to_string()]);
        }
        BPTreeNode::Leaf { .. } => panic!("a split internal node stays internal"),
    }
    match &right {
        BPTreeNode::Internal { child, keys, .. } => {
            assert_eq!(child, &vec![13, 14]);
            // "f" is the promoted separator: stored in neither half
            assert_eq!(keys, &vec!["h".to_string()]);
        }
        BPTreeNode::Leaf { .. } => panic!("splitting an internal node yields an internal node"),
    }
}

#[test]
fn set_parent_offset_returns_the_offset() {
    let mut n = leaf_of(&["a"]);
    let r = n.set_parent_offset(7);
    assert_eq!(r, 7);
    match &n {
        BPTreeNode::Leaf { parent, .. } => assert_eq!(*parent, Some(7)),
        BPTreeNode::Internal { .. } => panic!("the node kind never changes"),
    }
}

#[test]
fn push_data_inserts_key_and_child_aligned() {
    let mut n = BPTreeNode::Internal {
        parent: None,
        child: vec![10, 11, 12],
        keys: vec!["b".to_string(), "f".to_string()],
    };
    n.push_data(42, "d".to_string());
    match &n {
        BPTreeNode::Internal { child, keys, .. } => {
            assert_eq!(keys, &vec!["b".to_string(), "d".to_string(), "f".to_string()]);
            assert_eq!(child, &vec![10, 11, 42, 12], "the new child sits right of its key");
        }
        BPTreeNode::Leaf { .. } => panic!("the node kind never changes"),
    }
}

#[test]
fn push_data_ignores_a_duplicate_key() {
    let mut n = BPTreeNode::Internal {
        parent: Some(1),
        child: vec![10, 11],
        keys: vec!["b".to_string()],
    };
    n.push_data(42, "b".to_string());
    match &n {
        BPTreeNode::Internal { child, keys, .. } => {
            assert_eq!(keys, &vec!["b".to_string()]);
            assert_eq!(child, &vec![10, 11]);
        }
        BPTreeNode::Leaf { .. } => panic!("the node kind never changes"),
    }
}

#[test]
fn push_data_on_a_leaf_changes_nothing() {
    let mut n = leaf_of(&["a", "b"]);
    n.push_data(42, "c".to_string());
    match &n {
        BPTreeNode::Leaf { parent, next, kvs } => {
            assert_eq!(*parent, Some(9));
            assert_eq!(*next, Some(4));
            assert_eq!(kvs.len(), 2);
        }
        BPTreeNode::Internal { .. } => panic!("the node kind never changes"),
    }
}
