use bptree::node::BPTreeNode;
use bptree::tree::BPTree;

fn upsert(t: &mut BPTree, key: &str, value: &str) {
    t.put(key.to_string(), value.to_string());
}

fn lookup(t: &BPTree, key: &str) -> Option<String> {
    t.get(&key.to_string()).map(|kv| kv.value.clone())
}

fn entry_count(t: &BPTree) -> usize {
    t.nodes
        .iter()
        .map(|n| match n {
            BPTreeNode::Leaf { kvs, .. } => kvs.len(),
            BPTreeNode::Internal { .. } => 0,
        })
        .sum()
}

fn state_of(t: &BPTree) -> String {
    format!("order={} root={} first_leaf={} nodes={:?}", t.order, t.root, t.first_leaf, t.nodes)
}

/// A small deterministic pseudo-random stream for the round-trip test.
fn next_pseudo(state: &mut u64) -> u64 {
    *state = state.wrapping_mul(6364136223846793005).wrapping_add(1442695040888963407);
    *state >> 33
}

#[test]
fn upsert_is_idempotent_on_a_leaf() {
    let mut once = BPTree::new(5);
    let mut twice = BPTree::new(5);
    for t in [&mut once, &mut twice] {
        upsert(t, "b", "1");
        upsert(t, "a", "1");
    }
    upsert(&mut once, "c", "9");
    upsert(&mut twice, "c", "9");
    upsert(&mut twice, "c", "9");
    assert_eq!(state_of(&once), state_of(&twice));
}

#[test]
fn upsert_is_idempotent_across_splits() {
    // a repeated identical upsert may still split an already-full leaf, so
    // the two trees are compared by what their lookups observe: every key
    // maps to the same value in both, and the entry counts agree
    let mut once = BPTree::new(3);
    let mut twice = BPTree::new(3);
    let mut keys: Vec<String> = Vec::new();
    for i in 0..30 {
        let k = format!("key{:02}", (i * 17) % 40);
        keys.push(k.clone());
        upsert(&mut once, &k, "x");
        upsert(&mut twice, &k, "x");
        upsert(&mut twice, &k, "x");
        assert_eq!(entry_count(&once), entry_count(&twice), "after upserting {k}");
        for probe in keys.iter() {
            assert_eq!(lookup(&once, probe), lookup(&twice, probe), "lookup of {probe}");
        }
    }
}

#[test]
fn second_value_overwrites_without_growing() {
    let mut t = BPTree::new(5);
    for i in 0..20 {
        upsert(&mut t, &format!("key{i:02}"), "first");
    }
    let before = entry_count(&t);
    upsert(&mut t, "key07", "second");
    assert_eq!(lookup(&t, "key07"), Some("second".to_string()));
    assert_eq!(entry_count(&t), before);
}

#[test]
fn order_four_behaves_like_order_five() {
    let mut four = BPTree::new(4);
    let mut five = BPTree::new(5);
    assert_eq!(four.order, 5);
    assert_eq!(five.order, 5);
    for i in 0..25 {
        let k = format!("key{:02}", (i * 7) % 30);
        upsert(&mut four, &k, &format!("{i}"));
        upsert(&mut five, &k, &format!("{i}"));
        assert_eq!(state_of(&four), state_of(&five));
    }
}

#[test]
fn orders_below_three_behave_like_three() {
    let mut one = BPTree::new(1);
    let mut two = BPTree::new(2);
    let mut three = BPTree::new(3);
    assert_eq!(one.order, 3);
    assert_eq!(two.order, 3);
    assert_eq!(three.order, 3);
    for i in 0..15 {
        let k = format!("key{i:02}");
        upsert(&mut one, &k, "v");
        upsert(&mut two, &k, "v");
        upsert(&mut three, &k, "v");
        assert_eq!(state_of(&one), state_of(&three));
        assert_eq!(state_of(&two), state_of(&three));
    }
}

#[test]
fn round_trip_random_keys() {
    // two hundred keys in random order force leaf and internal splits at
    // several levels, full ancestors included
    let mut state = 0x5eed_u64;
    let mut t = BPTree::new(3);
    let mut keys = Vec::new();
    let mut seen = std::collections::BTreeSet::new();
    while keys.len() < 200 {
        let k = format!("k{:06}", next_pseudo(&mut state) % 500000);
        if seen.insert(k.clone()) {
            keys.push(k);
        }
    }
    for (i, k) in keys.iter().enumerate() {
        upsert(&mut t, k, &format!("v{i}"));
    }
    // overwrite a few of them with fresh values
    for (i, k) in keys.iter().enumerate().filter(|(i, _)| i % 7 == 0) {
        upsert(&mut t, k, &format!("w{i}"));
    }
    for (i, k) in keys.iter().enumerate() {
        let expect = if i % 7 == 0 { format!("w{i}") } else { format!("v{i}") };
        assert_eq!(lookup(&t, k), Some(expect), "lookup of {k}");
    }
    // keys outside the inserted set are not found
    for off in 0..50 {
        let k = format!("m{off:06}");
        assert_eq!(lookup(&t, &k), None);
    }
}

#[test]
fn lost_key_regression_wrong_half_placement() {
    // when a full internal node splits, the pending pair must land in the
    // half its separator sorts into; pushing it into the right half
    // unconditionally strands keys whose separator belongs left
    let mut t = BPTree::new(3);
    for k in ["b", "a", "c", "d", "e", "aa", "ab", "ac"] {
        upsert(&mut t, k, "1");
    }
    for k in ["b", "a", "c", "d", "e", "aa", "ab", "ac"] {
        assert_eq!(lookup(&t, k), Some("1".to_string()), "lookup of {k}");
    }
}

#[test]
fn round_trip_many_ascending_keys() {
    // ascending insertions split the rightmost node at every level
    let mut t = BPTree::new(3);
    for i in 0..300 {
        upsert(&mut t, &format!("k{i:04}"), &format!("v{i}"));
    }
    for i in 0..300 {
        assert_eq!(lookup(&t, &format!("k{i:04}")), Some(format!("v{i}")), "lookup of k{i:04}");
    }
    assert_eq!(lookup(&t, "k9999"), None);
    assert_eq!(lookup(&t, "a"), None);
}

#[test]
fn get_on_fresh_tree_finds_nothing() {
    let t = BPTree::new(3);
    assert_eq!(lookup(&t, ""), None);
    assert_eq!(lookup(&t, "anything"), None);
}

#[test]
fn empty_key_is_an_ordinary_key() {
    let mut t = BPTree::new(3);
    upsert(&mut t, "", "empty");
    upsert(&mut t, "a", "1");
    assert_eq!(lookup(&t, ""), Some("empty".to_string()));
    assert_eq!(lookup(&t, "a"), Some("1".to_string()));
}

#[test]
fn key_equal_to_separator_routes_right() {
    // with order 3 the fourth key forces a split; the promoted separator is
    // itself a leaf key, and equality must keep routing to it
    let mut t = BPTree::new(3);
    for k in ["b", "a", "c", "d"] {
        upsert(&mut t, k, "1");
    }
    let separator = match &t.nodes[t.root] {
        BPTreeNode::Internal { keys, .. } => keys[0].clone(),
        BPTreeNode::Leaf { .. } => panic!("the root should be internal after splits"),
    };
    assert_eq!(lookup(&t, &separator), Some("1".to_string()));
    upsert(&mut t, &separator, "2");
    assert_eq!(lookup(&t, &separator), Some("2".to_string()));
}

#[test]
fn keys_compare_by_bytes_not_length() {
    let mut t = BPTree::new(3);
    for k in ["ba", "b", "az", "a", "aa", "z"] {
        upsert(&mut t, k, k);
    }
    for k in ["ba", "b", "az", "a", "aa", "z"] {
        assert_eq!(lookup(&t, k), Some(k.to_string()));
    }
    assert_eq!(lookup(&t, "ab"), None);
}
