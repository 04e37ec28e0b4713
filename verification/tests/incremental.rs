use bptree::tree::BPTree;

fn next_pseudo_inc(state: &mut u64) -> u64 {
    *state = state.wrapping_mul(6364136223846793005).wrapping_add(1442695040888963407);
    *state >> 33
}

#[test]
fn every_earlier_key_survives_every_put() {
    // after each single put, every key put so far is still found: no split
    // along the way may strand an entry
    let mut state = 0x5eed_u64;
    let mut keys = Vec::new();
    let mut seen = std::collections::BTreeSet::new();
    while keys.len() < 120 {
        let k = format!("k{:06}", next_pseudo_inc(&mut state) % 500000);
        if seen.insert(k.clone()) {
            keys.push(k);
        }
    }
    let mut t = BPTree::new(3);
    for (n, k) in keys.iter().enumerate() {
        t.put(k.clone(), "v".to_string());
        for earlier in keys.iter().take(n + 1) {
            assert!(t.get(earlier).is_some(), "{earlier} lost after putting {k}");
        }
    }
}
