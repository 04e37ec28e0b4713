use bptree::node::BPTreeNode;
use bptree::tree::BPTree;

fn leaf_count(t: &BPTree) -> usize {
    t.nodes.iter().filter(|n| matches!(n, BPTreeNode::Leaf { .. })).count()
}

fn internal_count(t: &BPTree) -> usize {
    t.nodes.iter().filter(|n| matches!(n, BPTreeNode::Internal { .. })).count()
}

fn put(t: &mut BPTree, key: &str, value: &str) {
    t.put(key.to_string(), value.to_string());
}

fn get_value(t: &BPTree, key: &str) -> Option<String> {
    t.get(&key.to_string()).map(|kv| kv.value.clone())
}

/// Walks the leaf sibling chain from `first_leaf` and collects every key in
/// chain order.
fn chain_keys(t: &BPTree) -> Vec<String> {
    let mut out = Vec::new();
    let mut at = Some(t.first_leaf);
    let mut steps: usize = 0;
    while let Some(i) = at {
        steps += 1;
        assert!(steps <= t.nodes.len(), "leaf chain longer than the arena");
        match &t.nodes[i] {
            BPTreeNode::Leaf { next, kvs, .. } => {
                for kv in kvs.iter() {
                    out.push(kv.key.clone());
                }
                at = *next;
            }
            BPTreeNode::Internal { .. } => panic!("leaf chain reached an internal node"),
        }
    }
    out
}

fn scenario_a_tree() -> BPTree {
    let mut t = BPTree::new(5);
    put(&mut t, "d", "1");
    put(&mut t, "a", "1");
    put(&mut t, "b", "1");
    t
}

#[test]
fn scenario_a_single_leaf() {
    let t = scenario_a_tree();
    assert_eq!(t.nodes.len(), 1);
    assert_eq!(t.root, 0);
    assert_eq!(t.first_leaf, 0);
    match &t.nodes[0] {
        BPTreeNode::Leaf { kvs, parent, next } => {
            assert!(parent.is_none());
            assert!(next.is_none());
            let keys: Vec<&str> = kvs.iter().map(|kv| kv.key.as_str()).collect();
            assert_eq!(keys, vec!["a", "b", "d"]);
        }
        BPTreeNode::Internal { .. } => panic!("the root should still be a leaf"),
    }
}

fn scenario_b_tree() -> BPTree {
    let mut t = scenario_a_tree();
    put(&mut t, "d", "2");
    t
}

#[test]
fn scenario_b_update_in_place() {
    let t = scenario_b_tree();
    assert_eq!(t.nodes.len(), 1);
    assert_eq!(t.root, 0);
    match &t.nodes[0] {
        BPTreeNode::Leaf { kvs, .. } => {
            let keys: Vec<&str> = kvs.iter().map(|kv| kv.key.as_str()).collect();
            assert_eq!(keys, vec!["a", "b", "d"]);
        }
        BPTreeNode::Internal { .. } => panic!("the root should still be a leaf"),
    }
    assert_eq!(get_value(&t, "d"), Some("2".to_string()));
}

fn scenario_c_tree() -> BPTree {
    let mut t = scenario_b_tree();
    put(&mut t, "e", "1");
    put(&mut t, "c", "1");
    t
}

#[test]
fn scenario_c_first_split() {
    let t = scenario_c_tree();
    assert_eq!(leaf_count(&t), 2);
    assert_eq!(internal_count(&t), 1);
    assert_ne!(t.root, 0, "the first split must move the root off the original leaf");
    match &t.nodes[t.root] {
        BPTreeNode::Internal { keys, child, .. } => {
            assert_eq!(keys, &vec!["d".to_string()]);
            assert_eq!(child.len(), 2);
            assert_eq!(child[0], t.first_leaf);
            match &t.nodes[child[0]] {
                BPTreeNode::Leaf { kvs, next, .. } => {
                    let left: Vec<&str> = kvs.iter().map(|kv| kv.key.as_str()).collect();
                    assert_eq!(left, vec!["a", "b", "c"]);
                    assert_eq!(*next, Some(child[1]));
                }
                BPTreeNode::Internal { .. } => panic!("the left child should be a leaf"),
            }
            match &t.nodes[child[1]] {
                BPTreeNode::Leaf { kvs, .. } => {
                    let right: Vec<&str> = kvs.iter().map(|kv| kv.key.as_str()).collect();
                    assert_eq!(right, vec!["d", "e"]);
                }
                BPTreeNode::Internal { .. } => panic!("the right child should be a leaf"),
            }
        }
        BPTreeNode::Leaf { .. } => panic!("the root should be internal after a split"),
    }
    assert_eq!(get_value(&t, "c"), Some("1".to_string()));
    assert_eq!(get_value(&t, "e"), Some("1".to_string()));
    assert_eq!(t.first_leaf, 0);
}

#[test]
fn scenario_d_cascading_splits() {
    let mut t = BPTree::new(5);
    put(&mut t, "d", "1");
    put(&mut t, "a", "1");
    put(&mut t, "b", "1");
    assert_eq!((leaf_count(&t), internal_count(&t)), (1, 0));
    assert_eq!(t.root, 0);

    put(&mut t, "d", "2");
    assert_eq!((leaf_count(&t), internal_count(&t)), (1, 0));

    put(&mut t, "e", "1");
    put(&mut t, "c", "1");
    assert_eq!((leaf_count(&t), internal_count(&t)), (2, 1));
    let root_after_first_split = t.root;

    put(&mut t, "f", "1");
    put(&mut t, "g", "1");
    put(&mut t, "h", "1");
    assert_eq!((leaf_count(&t), internal_count(&t)), (3, 1));
    assert_eq!(t.root, root_after_first_split);

    put(&mut t, "i", "7");
    put(&mut t, "j", "1");
    assert_eq!((leaf_count(&t), internal_count(&t)), (4, 1));
    assert_eq!(t.root, root_after_first_split);

    put(&mut t, "k", "1");
    put(&mut t, "l", "1");
    assert_eq!((leaf_count(&t), internal_count(&t)), (5, 1));
    assert_eq!(t.root, root_after_first_split);

    put(&mut t, "m", "9");
    put(&mut t, "n", "1");
    assert_eq!((leaf_count(&t), internal_count(&t)), (6, 3));
    assert_ne!(t.root, root_after_first_split, "an internal overflow must create a new root");

    for (k, v) in [
        ("a", "1"),
        ("b", "1"),
        ("c", "1"),
        ("d", "2"),
        ("e", "1"),
        ("f", "1"),
        ("g", "1"),
        ("h", "1"),
        ("i", "7"),
        ("j", "1"),
        ("k", "1"),
        ("l", "1"),
        ("m", "9"),
        ("n", "1"),
    ] {
        assert_eq!(get_value(&t, k), Some(v.to_string()), "lookup of {k}");
    }
    assert_eq!(get_value(&t, "z"), None);

    let chain = chain_keys(&t);
    let expected: Vec<String> =
        ["a", "b", "c", "d", "e", "f", "g", "h", "i", "j", "k", "l", "m", "n"]
            .iter()
            .map(|s| s.to_string())
            .collect();
    assert_eq!(chain, expected, "the leaf chain must list every key in ascending order");
}

#[test]
fn first_leaf_is_stable() {
    let mut t = BPTree::new(3);
    let first = t.first_leaf;
    for i in 0..40 {
        put(&mut t, &format!("key{i:03}"), "v");
        assert_eq!(t.first_leaf, first);
        assert!(matches!(&t.nodes[t.first_leaf], BPTreeNode::Leaf { .. }));
    }
}

#[test]
fn capacity_bound_holds_after_every_put() {
    let mut t = BPTree::new(5);
    for i in 0..60 {
        put(&mut t, &format!("key{:03}", (i * 37) % 100), &format!("{i}"));
        for n in t.nodes.iter() {
            match n {
                BPTreeNode::Leaf { kvs, .. } => assert!(kvs.len() <= t.order - 1),
                BPTreeNode::Internal { keys, child, .. } => {
                    assert!(keys.len() <= t.order - 1);
                    assert_eq!(child.len(), keys.len() + 1);
                }
            }
        }
    }
}

#[test]
fn sortedness_holds_after_every_put() {
    let mut t = BPTree::new(3);
    for i in 0..50 {
        put(&mut t, &format!("key{:03}", (i * 53) % 80), "v");
        for n in t.nodes.iter() {
            match n {
                BPTreeNode::Leaf { kvs, .. } => {
                    for w in kvs.windows(2) {
                        assert!(w[0].key < w[1].key);
                    }
                }
                BPTreeNode::Internal { keys, .. } => {
                    for w in keys.windows(2) {
                        assert!(w[0] < w[1]);
                    }
                }
            }
        }
    }
}
