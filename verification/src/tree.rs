//! The B+ tree: an append-only arena of nodes, a root handle, and the
//! handle of the leftmost leaf.
//!
//! `put` upserts a key/value pair and `get` looks one up. The tree-wide
//! invariant `wf` holds after construction and across every `put`: every
//! node's keys are strictly sorted, every internal node keeps one more
//! child than keys, no node exceeds `order - 1` keys or entries, and every
//! handle stored anywhere points into the arena. `first_leaf` never
//! changes once set: a split always keeps the original handle as the left
//! half and appends the new right half.

use vstd::prelude::*;

use crate::keys::KeyOrd;
use crate::keys::key_cmp;
use crate::keys::key_le;
use crate::keys::key_lt;
use crate::keys::key_of;
use crate::keys::lemma_key_lt_asymmetric;
use crate::keys::lemma_key_lt_irreflexive;
use crate::model::lookup_kvs;
use crate::model::upsert_kvs;
use crate::model::lemma_lookup_absent;
use crate::model::lemma_lookup_at;
use crate::model::lemma_upsert_is_insert;
use crate::model::lemma_upsert_is_update;
use crate::model::lemma_upsert_len;
use crate::model::lemma_upsert_sorted;
use crate::node::BPTreeKeyValue;
use crate::node::BPTreeNode;
use crate::node::find_key_slot;
use crate::node::find_kv_slot;
use crate::node::kvs_sorted;
use crate::node::lemma_push_data_post_shape;
use crate::node::push_data_post;
use crate::node::str_keys_sorted;

verus! {

/// Every node of the arena is well shaped against the arena's length.
pub open spec fn arena_shaped(nodes: Seq<BPTreeNode>) -> bool {
    forall|i: int| 0 <= i < nodes.len() ==> (#[trigger] nodes[i]).wf_shape(nodes.len() as nat)
}

/// Every node of the arena holds at most `order - 1` keys or entries.
pub open spec fn arena_capped(nodes: Seq<BPTreeNode>, order: nat) -> bool {
    forall|i: int| 0 <= i < nodes.len() ==> (#[trigger] nodes[i]).key_count() <= order - 1
}

/// The arena only ever grows, and a handle keeps pointing at a node of the
/// same kind: leaves stay leaves and internal nodes stay internal.
pub open spec fn leaves_match(a: Seq<BPTreeNode>, b: Seq<BPTreeNode>) -> bool {
    &&& b.len() >= a.len()
    &&& forall|j: int| 0 <= j < a.len() ==> ((#[trigger] b[j]) is Leaf <==> a[j] is Leaf)
}

/// The leaf payloads and the sibling chain of `a`'s nodes carry over to `b`
/// unchanged: only internal-node routing data and parent handles may differ
/// on that range.
pub open spec fn leaf_data_match(a: Seq<BPTreeNode>, b: Seq<BPTreeNode>) -> bool {
    forall|j: int|
        0 <= j < a.len() ==> {
            &&& (#[trigger] b[j]).kvs_of() == a[j].kvs_of()
            &&& b[j].next_of() == a[j].next_of()
        }
}

/// A pending pair and an internal first ancestor for split propagation to
/// work on: all three arguments are present and the ancestor handle names an
/// internal node of the arena.
pub open spec fn propagation_starts(
    nodes: Seq<BPTreeNode>,
    right: Option<usize>,
    key: Option<String>,
    parent: Option<usize>,
) -> bool {
    &&& right is Some
    &&& key is Some
    &&& parent is Some
    &&& (parent.unwrap() as int) < nodes.len()
    &&& nodes[parent.unwrap() as int] is Internal
}

/// How many of the separator keys are at or below `k` — exactly the index
/// of the child a lookup for `k` routes into (an exact separator match
/// routes right).
pub open spec fn count_le(ks: Seq<String>, k: Seq<u8>) -> int
    decreases ks.len(),
{
    if ks.len() == 0 {
        0
    } else {
        (if key_le(key_of(ks[0]), k) {
            1int
        } else {
            0int
        }) + count_le(ks.drop_first(), k)
    }
}

/// `count_le` stays within the key sequence's bounds.
pub proof fn lemma_count_le_bounds(ks: Seq<String>, k: Seq<u8>)
    ensures
        0 <= count_le(ks, k) <= ks.len(),
    decreases ks.len(),
{
    if ks.len() > 0 {
        lemma_count_le_bounds(ks.drop_first(), k);
    }
}

/// When the keys at or below `k` are exactly the first `m`, `count_le` is `m`.
pub proof fn lemma_count_le_split(ks: Seq<String>, k: Seq<u8>, m: int)
    requires
        0 <= m <= ks.len(),
        forall|j: int| 0 <= j < m ==> key_le(key_of(ks[j]), k),
        forall|j: int| m <= j < ks.len() ==> !key_le(key_of(ks[j]), k),
    ensures
        count_le(ks, k) == m,
    decreases ks.len(),
{
    if ks.len() > 0 {
        let rest = ks.drop_first();
        assert(forall|j: int| 0 <= j < rest.len() ==> rest[j] == ks[j + 1]);
        if key_le(key_of(ks[0]), k) {
            lemma_count_le_split(rest, k, m - 1);
        } else {
            lemma_count_le_split(rest, k, 0);
        }
    }
}

/// The leaf handle a search for key bytes `k` reaches, starting at `at` and
/// descending at most `fuel` levels: at an internal node the search follows
/// the child indexed by `count_le`; at a leaf it stops.
pub open spec fn spec_descend(nodes: Seq<BPTreeNode>, at: int, k: Seq<u8>, fuel: nat) -> int
    decreases fuel,
{
    if fuel == 0 {
        at
    } else if nodes[at] is Internal {
        let route = count_le(nodes[at].skeys_of(), k);
        spec_descend(nodes, nodes[at].children_of()[route] as int, k, (fuel - 1) as nat)
    } else {
        at
    }
}

/// Replacing one node with a node of equal shape and capacity keeps the
/// arena well formed.
proof fn lemma_arena_update(a: Seq<BPTreeNode>, b: Seq<BPTreeNode>, l: int, order: nat)
    requires
        arena_shaped(a),
        arena_capped(a, order),
        0 <= l < a.len(),
        b.len() == a.len(),
        forall|m: int| 0 <= m < a.len() && m != l ==> a[m] == b[m],
        b[l].wf_shape(a.len() as nat),
        b[l].key_count() <= order - 1,
    ensures
        arena_shaped(b),
        arena_capped(b, order),
{
    assert forall|i: int| 0 <= i < b.len() implies (#[trigger] b[i]).wf_shape(b.len() as nat) by {
        if i != l {
            assert(a[i].wf_shape(a.len() as nat));
        }
    }
    assert forall|i: int| 0 <= i < b.len() implies (#[trigger] b[i]).key_count() <= order - 1 by {
        if i != l {
            assert(a[i].key_count() <= order - 1);
        }
    }
}

/// Appending a node that is well shaped against the grown arena keeps the
/// arena well formed.
proof fn lemma_arena_push(a: Seq<BPTreeNode>, b: Seq<BPTreeNode>, order: nat)
    requires
        arena_shaped(a),
        arena_capped(a, order),
        b.len() == a.len() + 1,
        forall|m: int| 0 <= m < a.len() ==> a[m] == b[m],
        b[a.len() as int].wf_shape(b.len() as nat),
        b[a.len() as int].key_count() <= order - 1,
    ensures
        arena_shaped(b),
        arena_capped(b, order),
{
    assert forall|i: int| 0 <= i < b.len() implies (#[trigger] b[i]).wf_shape(b.len() as nat) by {
        if i < a.len() {
            assert(a[i].wf_shape(a.len() as nat));
            a[i].lemma_wf_shape_widen(a.len() as nat, b.len() as nat);
        }
    }
    assert forall|i: int| 0 <= i < b.len() implies (#[trigger] b[i]).key_count() <= order - 1 by {
        if i < a.len() {
            assert(a[i].key_count() <= order - 1);
        }
    }
}

/// A descent through a well-shaped arena never leaves the arena.
pub proof fn lemma_descend_in_bounds(a: Seq<BPTreeNode>, at: int, k: Seq<u8>, fuel: nat)
    requires
        arena_shaped(a),
        0 <= at < a.len(),
    ensures
        0 <= spec_descend(a, at, k, fuel) < a.len(),
    decreases fuel,
{
    if fuel > 0 && a[at] is Internal {
        let route = count_le(a[at].skeys_of(), k);
        lemma_count_le_bounds(a[at].skeys_of(), k);
        assert(a[at].wf_shape(a.len() as nat));
        lemma_descend_in_bounds(a, a[at].children_of()[route] as int, k, (fuel - 1) as nat);
    }
}

/// A search descends the same way through two arenas that differ only in
/// one leaf: routing reads internal nodes only, and a leaf ends the descent
/// in both.
pub proof fn lemma_descend_leaf_update(
    a: Seq<BPTreeNode>,
    b: Seq<BPTreeNode>,
    l: int,
    at: int,
    k: Seq<u8>,
    fuel: nat,
)
    requires
        arena_shaped(a),
        a.len() == b.len(),
        0 <= l < a.len(),
        0 <= at < a.len(),
        a[l] is Leaf,
        b[l] is Leaf,
        forall|j: int| 0 <= j < a.len() && j != l ==> b[j] == a[j],
    ensures
        spec_descend(b, at, k, fuel) == spec_descend(a, at, k, fuel),
    decreases fuel,
{
    if fuel > 0 {
        if at != l && a[at] is Internal {
            let route = count_le(a[at].skeys_of(), k);
            lemma_count_le_bounds(a[at].skeys_of(), k);
            assert(a[at].wf_shape(a.len() as nat));
            lemma_descend_leaf_update(
                a,
                b,
                l,
                a[at].children_of()[route] as int,
                k,
                (fuel - 1) as nat,
            );
        }
    }
}

/// Routing correctness for an in-place upsert: when the leaf that `kv.key`
/// routes to has room, the state after `put` (as `put`'s contract describes
/// it) routes a lookup of that key to the same leaf, and the lookup there
/// finds exactly the upserted entry; a lookup of any other key finds what
/// it found before.
pub proof fn lemma_put_routes_back(pre: BPTree, post: BPTree, kv: BPTreeKeyValue, k2: Seq<u8>)
    requires
        pre.wf(),
        ({
            let a = pre.nodes@;
            let l = spec_descend(a, pre.root as int, key_of(kv.key), a.len() as nat);
            &&& a[l] is Leaf
            &&& post.nodes@.len() == a.len()
            &&& post.root == pre.root
            &&& post.nodes@[l] is Leaf
            &&& post.nodes@[l].kvs_of() == upsert_kvs(a[l].kvs_of(), kv)
            &&& (forall|j: int| 0 <= j < a.len() && j != l ==> post.nodes@[j] == a[j])
        }),
    ensures
        ({
            let a = pre.nodes@;
            let l = spec_descend(a, pre.root as int, key_of(kv.key), a.len() as nat);
            &&& spec_descend(post.nodes@, post.root as int, key_of(kv.key), post.nodes@.len() as nat)
                == l
            &&& lookup_kvs(post.nodes@[l].kvs_of(), key_of(kv.key)) == Some(kv)
            &&& (k2 != key_of(kv.key) ==> lookup_kvs(post.nodes@[l].kvs_of(), k2) == lookup_kvs(
                pre.nodes@[l].kvs_of(),
                k2,
            ))
        }),
{
    let a = pre.nodes@;
    let l = spec_descend(a, pre.root as int, key_of(kv.key), a.len() as nat);
    lemma_descend_in_bounds(a, pre.root as int, key_of(kv.key), a.len() as nat);
    lemma_descend_leaf_update(a, post.nodes@, l, pre.root as int, key_of(kv.key), a.len() as nat);
    crate::model::lemma_upsert_lookup(a[l].kvs_of(), kv, k2);
}

/// The `order` a requested order is normalized to: even orders are raised
/// by one, odd orders below three are raised to three.
pub open spec fn normalize_order(order: usize) -> usize {
    if order % 2 == 0 {
        (order + 1) as usize
    } else if order < 3 {
        3
    } else {
        order
    }
}

/// Orders that normalize alike configure identical trees: a fresh tree is
/// fully determined by its normalized order, so `new(4)` and `new(5)` build
/// the same tree, as do `new(1)`, `new(2)` and `new(3)`.
pub proof fn lemma_order_normalization()
    ensures
        normalize_order(4) == normalize_order(5),
        normalize_order(1) == normalize_order(3),
        normalize_order(2) == normalize_order(3),
        forall|order: usize| 1 <= order ==> 3 <= #[trigger] normalize_order(order),
        forall|order: usize| 1 <= order ==> #[trigger] normalize_order(order) % 2 == 1,
{
}

/// An order-configurable B+ tree over an append-only arena. `root` and
/// `first_leaf` are handles into `nodes`; no node is ever removed or moved,
/// so a handle stays valid for the tree's lifetime.
#[derive(Debug)]
pub struct BPTree {
    pub order: usize,
    pub nodes: Vec<BPTreeNode>,
    pub root: usize,
    pub first_leaf: usize,
}

impl BPTree {
    /// The tree-wide invariant: a normalized order, a well-formed arena, and
    /// in-bounds root and leftmost-leaf handles, the latter naming a leaf.
    /// The invariant is local to each node: it does not state that separator
    /// keys bound their subtrees' contents, that parent handles are correct
    /// or acyclic, or that the leaf chain from `first_leaf` visits every
    /// leaf in ascending order — so what a lookup finds after a cascading
    /// split is pinned by the contracts only as far as those say.
    pub open spec fn wf(self) -> bool {
        &&& 3 <= self.order
        &&& self.order % 2 == 1
        &&& arena_shaped(self.nodes@)
        &&& arena_capped(self.nodes@, self.order as nat)
        &&& (self.root as int) < self.nodes@.len()
        &&& (self.first_leaf as int) < self.nodes@.len()
        &&& self.nodes@[self.first_leaf as int] is Leaf
    }

    /// Builds a tree with the normalized order and a single empty leaf that
    /// is both the root and the leftmost leaf.
    pub fn new(order: usize) -> (r: BPTree)
        requires
            order >= 1,
        ensures
            r.wf(),
            r.order == normalize_order(order),
            r.root == 0,
            r.first_leaf == 0,
            r.nodes@.len() == 1,
            r.nodes@[0] is Leaf,
            r.nodes@[0].kvs_of() == Seq::<BPTreeKeyValue>::empty(),
            r.nodes@[0].parent_of() == None::<usize>,
            r.nodes@[0].next_of() == None::<usize>,
    {
        let order = if order % 2 == 0 {
            order + 1
        } else if order < 3 {
            3
        } else {
            order
        };
        let mut nodes = Vec::<BPTreeNode>::new();
        nodes.push(BPTreeNode::Leaf { parent: None, next: None, kvs: Vec::new() });
        BPTree { order, nodes, root: 0, first_leaf: 0 }
    }

    /// Descends from `root_offset` to the leaf a search for `key` reaches,
    /// routing by binary search over each internal node's separator keys.
    /// The result is exactly what the specification-level descent names.
    pub fn search_leaf(nodes: &Vec<BPTreeNode>, root_offset: usize, key: &String) -> (r: usize)
        requires
            arena_shaped(nodes@),
            root_offset < nodes@.len(),
        ensures
            r < nodes@.len(),
            r as int == spec_descend(nodes@, root_offset as int, key_of(*key), nodes@.len() as nat),
    {
        let mut offset = root_offset;
        let mut fuel = nodes.len();
        loop
            invariant
                arena_shaped(nodes@),
                offset < nodes@.len(),
                spec_descend(nodes@, root_offset as int, key_of(*key), nodes@.len() as nat)
                    == spec_descend(nodes@, offset as int, key_of(*key), fuel as nat),
            ensures
                offset < nodes@.len(),
                offset as int == spec_descend(
                    nodes@,
                    root_offset as int,
                    key_of(*key),
                    nodes@.len() as nat,
                ),
            decreases fuel,
        {
            if fuel == 0 {
                break ;
            }
            match &nodes[offset] {
                BPTreeNode::Internal { keys, child, .. } => {
                    proof {
                        assert(nodes@[offset as int].wf_shape(nodes@.len() as nat));
                        assert(nodes@[offset as int].skeys_of() == keys@);
                        assert(nodes@[offset as int].children_of() == child@);
                    }
                    let (found, idx) = find_key_slot(keys, key);
                    let nchild = child.len();
                    proof {
                        assert(keys@.len() + 1 == nchild);
                    }
                    let route = if found {
                        idx + 1
                    } else {
                        idx
                    };
                    proof {
                        assert forall|j: int| 0 <= j < route implies key_le(
                            key_of(keys@[j]),
                            key_of(*key),
                        ) by {}
                        assert forall|j: int| route <= j < keys@.len() implies !key_le(
                            key_of(keys@[j]),
                            key_of(*key),
                        ) by {
                            lemma_key_lt_asymmetric(key_of(*key), key_of(keys@[j]));
                            lemma_key_lt_irreflexive(key_of(*key));
                        }
                        lemma_count_le_split(keys@, key_of(*key), route as int);
                    }
                    offset = child[route];
                    fuel = fuel - 1;
                },
                BPTreeNode::Leaf { .. } => {
                    break ;
                },
            }
        }
        offset
    }

    /// Looks `key` up: descends to the leaf a search for it reaches and
    /// binary-searches that leaf's entries. Returns the entry holding the
    /// key, or nothing when that leaf holds no such entry. Read-only.
    pub fn get(&self, key: &String) -> (r: Option<&BPTreeKeyValue>)
        requires
            self.wf(),
        ensures
            ({
                let l = spec_descend(
                    self.nodes@,
                    self.root as int,
                    key_of(*key),
                    self.nodes@.len() as nat,
                );
                &&& (self.nodes@[l] is Leaf ==> {
                    &&& (r matches Some(kv) ==> lookup_kvs(self.nodes@[l].kvs_of(), key_of(*key))
                        == Some(*kv))
                    &&& (r is None ==> lookup_kvs(self.nodes@[l].kvs_of(), key_of(*key))
                        is None)
                })
                &&& (self.nodes@[l] is Internal ==> r is None)
                &&& (r matches Some(kv) ==> kv.key@ == key@)
            }),
    {
        let leaf_offset = Self::search_leaf(&self.nodes, self.root, key);
        match &self.nodes[leaf_offset] {
            BPTreeNode::Leaf { kvs, .. } => {
                proof {
                    assert(self.nodes@[leaf_offset as int].wf_shape(self.nodes@.len() as nat));
                    assert(self.nodes@[leaf_offset as int].kvs_of() == kvs@);
                }
                let (found, idx) = find_kv_slot(kvs, key);
                if found {
                    proof {
                        lemma_lookup_at(kvs@, idx as int);
                        crate::keys::lemma_key_of_injective(kvs@[idx as int].key, *key);
                    }
                    Some(&kvs[idx])
                } else {
                    proof {
                        lemma_lookup_absent(kvs@, key_of(*key));
                    }
                    None
                }
            },
            BPTreeNode::Internal { .. } => None,
        }
    }

    /// Upserts `key` with `value`: finds the target leaf, inserts in place
    /// when the leaf has room, and otherwise splits it and propagates the
    /// split upward. The tree stays well formed, its order is untouched, the
    /// arena only grows, and the leftmost leaf's handle never changes. When
    /// the target leaf has room the entire effect is pinned down: that leaf's
    /// entries are upserted and nothing else moves. When it is full, the
    /// leaf-level effect is pinned down instead: its entries are divided
    /// between the old handle and a fresh right sibling spliced into the
    /// chain, the new pair lands in the half its key sorts into, and no
    /// other leaf's entries or sibling handle change.
    pub fn put(&mut self, key: String, value: String)
        requires
            old(self).wf(),
        ensures
            final(self).wf(),
            final(self).order == old(self).order,
            final(self).first_leaf == old(self).first_leaf,
            final(self).nodes@.len() >= old(self).nodes@.len(),
            leaves_match(old(self).nodes@, final(self).nodes@),
            // at most one leaf is ever appended (a split's right half, at
            // the old arena length); every node above it is internal
            forall|j: int|
                old(self).nodes@.len() < j < final(self).nodes@.len() ==> (
                #[trigger] final(self).nodes@[j]) is Internal,
            ({
                let a = old(self).nodes@;
                let l = spec_descend(a, old(self).root as int, key_of(key), a.len() as nat);
                (a[l] is Leaf && a[l].kvs_of().len() < old(self).order - 1) ==> {
                    &&& final(self).nodes@.len() == a.len()
                    &&& final(self).root == old(self).root
                    &&& final(self).nodes@[l] is Leaf
                    &&& final(self).nodes@[l].kvs_of() == upsert_kvs(
                        a[l].kvs_of(),
                        (BPTreeKeyValue { key, value }),
                    )
                    &&& final(self).nodes@[l].parent_of() == a[l].parent_of()
                    &&& final(self).nodes@[l].next_of() == a[l].next_of()
                    &&& (forall|j: int| 0 <= j < a.len() && j != l ==> final(self).nodes@[j] == a[j])
                }
            }),
            ({
                let a = old(self).nodes@;
                let l = spec_descend(a, old(self).root as int, key_of(key), a.len() as nat);
                (a[l] is Leaf && a[l].kvs_of().len() == old(self).order - 1) ==> {
                    let n = a.len() as int;
                    let b = final(self).nodes@;
                    let s = a[l].kvs_of();
                    let h = s.len() as int / 2;
                    &&& b.len() > n
                    &&& b[l] is Leaf
                    &&& b[n] is Leaf
                    &&& b[l].next_of() == Some(a.len() as usize)
                    &&& b[n].next_of() == a[l].next_of()
                    &&& if key_lt(key_of(key), key_of(s[h].key)) {
                        &&& b[l].kvs_of() == upsert_kvs(s.subrange(0, h), (BPTreeKeyValue { key, value }))
                        &&& b[n].kvs_of() == s.subrange(h, s.len() as int)
                    } else {
                        &&& b[l].kvs_of() == s.subrange(0, h)
                        &&& b[n].kvs_of() == upsert_kvs(
                            s.subrange(h, s.len() as int),
                            (BPTreeKeyValue { key, value }),
                        )
                    }
                    &&& (forall|j: int|
                        0 <= j < a.len() && j != l ==> {
                            &&& (#[trigger] b[j]).kvs_of() == a[j].kvs_of()
                            &&& b[j].next_of() == a[j].next_of()
                        })
                }
            }),
            // splitting the root leaf creates the tree's first internal
            // root: it holds the separator as its sole key, the two halves
            // as its children, and becomes the root handle
            ({
                let a = old(self).nodes@;
                let l = spec_descend(a, old(self).root as int, key_of(key), a.len() as nat);
                (a[l] is Leaf && a[l].kvs_of().len() == old(self).order - 1 && a[l].parent_of()
                    is None) ==> {
                    let b = final(self).nodes@;
                    let s = a[l].kvs_of();
                    let h = s.len() as int / 2;
                    let root = a.len() as int + 1;
                    &&& b.len() == a.len() + 2
                    &&& final(self).root == (a.len() + 1) as usize
                    &&& b[root] is Internal
                    &&& b[root].skeys_of() == seq![s[h].key]
                    &&& b[root].children_of() == seq![(l as usize), (a.len() as usize)]
                    &&& b[root].parent_of() == None::<usize>
                    &&& b[l].parent_of() == Some((a.len() + 1) as usize)
                    &&& b[a.len() as int].parent_of() == Some((a.len() + 1) as usize)
                }
            }),
            // splitting a leaf under a parent with room leaves the root
            // alone unless that parent is the root, and the parent absorbs
            // the separator and the new leaf's handle at their sorted slot
            ({
                let a = old(self).nodes@;
                let l = spec_descend(a, old(self).root as int, key_of(key), a.len() as nat);
                (a[l] is Leaf && a[l].kvs_of().len() == old(self).order - 1 && a[l].parent_of()
                    is Some && a[a[l].parent_of().unwrap() as int] is Internal
                    && a[a[l].parent_of().unwrap() as int].key_count() < old(self).order - 1) ==> {
                    let b = final(self).nodes@;
                    let s = a[l].kvs_of();
                    let h = s.len() as int / 2;
                    let pp = a[l].parent_of().unwrap() as int;
                    &&& b.len() == a.len() + 1
                    &&& b[pp] is Internal
                    &&& push_data_post(
                        a[pp].skeys_of(),
                        a[pp].children_of(),
                        s[h].key,
                        a.len() as usize,
                        b[pp].skeys_of(),
                        b[pp].children_of(),
                    )
                    &&& final(self).root == (if a[pp].parent_of() is None {
                        a[l].parent_of().unwrap()
                    } else {
                        old(self).root
                    })
                    &&& (forall|j: int|
                        0 <= j < a.len() && j != pp && j != l ==> (#[trigger] b[j]) == a[j])
                }
            }),
            // splitting a leaf under a full root cascades: the root splits
            // around its middle key and a brand-new root over its two halves
            // becomes the root handle
            ({
                let a = old(self).nodes@;
                let l = spec_descend(a, old(self).root as int, key_of(key), a.len() as nat);
                (a[l] is Leaf && a[l].kvs_of().len() == old(self).order - 1 && a[l].parent_of()
                    is Some && a[a[l].parent_of().unwrap() as int] is Internal
                    && a[a[l].parent_of().unwrap() as int].key_count() == old(self).order - 1
                    && a[a[l].parent_of().unwrap() as int].parent_of() is None) ==> {
                    let b = final(self).nodes@;
                    let pp = a[l].parent_of().unwrap() as int;
                    let pks = a[pp].skeys_of();
                    let pch = a[pp].children_of();
                    let pm = pch.len() as int / 2;
                    let root = a.len() as int + 1;
                    &&& b.len() == a.len() + 3
                    &&& final(self).root == (a.len() + 1) as usize
                    &&& b[root] is Internal
                    &&& b[root].skeys_of() == seq![pks[pm]]
                    &&& b[root].children_of() == seq![
                        a[l].parent_of().unwrap(),
                        ((a.len() + 2) as usize),
                    ]
                    &&& b[root].parent_of() == None::<usize>
                }
            }),
    {
        let kv = BPTreeKeyValue { key, value };
        let leaf_offset = Self::search_leaf(&self.nodes, self.root, &kv.key);
        if let Some(new_root) = Self::insert(&mut self.nodes, kv, leaf_offset, self.order) {
            self.root = new_root;
        }
    }

    /// Inserts `kv` into the leaf at `leaf_offset`: in place when the leaf
    /// has room, through a leaf split otherwise. Returns the new root handle
    /// when the root changed.
    fn insert(nodes: &mut Vec<BPTreeNode>, kv: BPTreeKeyValue, leaf_offset: usize, order: usize) -> (r:
        Option<usize>)
        requires
            arena_shaped(old(nodes)@),
            arena_capped(old(nodes)@, order as nat),
            leaf_offset < old(nodes)@.len(),
            3 <= order,
            order % 2 == 1,
        ensures
            arena_shaped(final(nodes)@),
            arena_capped(final(nodes)@, order as nat),
            leaves_match(old(nodes)@, final(nodes)@),
            (r matches Some(nr) ==> (nr as int) < final(nodes)@.len()),
            // beyond the one appended leaf (the split's right half, at the
            // old arena length), only internal nodes are ever appended
            forall|j: int|
                old(nodes)@.len() < j < final(nodes)@.len() ==> (#[trigger] final(nodes)@[j])
                    is Internal,
            (old(nodes)@[leaf_offset as int] is Leaf && old(nodes)@[leaf_offset as int].kvs_of().len()
                < order - 1) ==> ({
                let a = old(nodes)@;
                let l = leaf_offset as int;
                &&& r is None
                &&& final(nodes)@.len() == a.len()
                &&& final(nodes)@[l] is Leaf
                &&& final(nodes)@[l].kvs_of() == upsert_kvs(a[l].kvs_of(), kv)
                &&& final(nodes)@[l].parent_of() == a[l].parent_of()
                &&& final(nodes)@[l].next_of() == a[l].next_of()
                &&& (forall|j: int| 0 <= j < a.len() && j != l ==> final(nodes)@[j] == a[j])
            }),
            (old(nodes)@[leaf_offset as int] is Leaf && old(nodes)@[leaf_offset as int].kvs_of().len()
                == order - 1) ==> ({
                let a = old(nodes)@;
                let l = leaf_offset as int;
                let n = a.len() as int;
                let b = final(nodes)@;
                let s = a[l].kvs_of();
                let h = s.len() as int / 2;
                &&& b.len() > n
                &&& b[l] is Leaf
                &&& b[n] is Leaf
                &&& b[l].next_of() == Some(a.len() as usize)
                &&& b[n].next_of() == a[l].next_of()
                &&& if key_lt(key_of(kv.key), key_of(s[h].key)) {
                    &&& b[l].kvs_of() == upsert_kvs(s.subrange(0, h), kv)
                    &&& b[n].kvs_of() == s.subrange(h, s.len() as int)
                } else {
                    &&& b[l].kvs_of() == s.subrange(0, h)
                    &&& b[n].kvs_of() == upsert_kvs(s.subrange(h, s.len() as int), kv)
                }
                &&& (forall|j: int|
                    0 <= j < a.len() && j != l ==> {
                        &&& (#[trigger] b[j]).kvs_of() == a[j].kvs_of()
                        &&& b[j].next_of() == a[j].next_of()
                    })
            }),
            // a split of the root leaf ends with a new internal root over
            // the two halves, keyed by the separator
            (old(nodes)@[leaf_offset as int] is Leaf && old(nodes)@[leaf_offset as int].kvs_of().len()
                == order - 1 && old(nodes)@[leaf_offset as int].parent_of() is None) ==> ({
                let a = old(nodes)@;
                let b = final(nodes)@;
                let s = a[leaf_offset as int].kvs_of();
                let h = s.len() as int / 2;
                let root = a.len() as int + 1;
                &&& b.len() == a.len() + 2
                &&& r == Some((a.len() + 1) as usize)
                &&& b[root] is Internal
                &&& b[root].skeys_of() == seq![s[h].key]
                &&& b[root].children_of() == seq![leaf_offset, a.len() as usize]
                &&& b[root].parent_of() == None::<usize>
                &&& b[leaf_offset as int].parent_of() == Some((a.len() + 1) as usize)
                &&& b[a.len() as int].parent_of() == Some((a.len() + 1) as usize)
            }),
            // a split under a parent with room ends with that parent
            // absorbing the separator and the new leaf's handle
            (old(nodes)@[leaf_offset as int] is Leaf && old(nodes)@[leaf_offset as int].kvs_of().len()
                == order - 1 && old(nodes)@[leaf_offset as int].parent_of() is Some
                && old(nodes)@[old(nodes)@[leaf_offset as int].parent_of().unwrap() as int] is Internal
                && old(nodes)@[old(nodes)@[leaf_offset as int].parent_of().unwrap() as int].key_count()
                < order - 1) ==> ({
                let a = old(nodes)@;
                let b = final(nodes)@;
                let s = a[leaf_offset as int].kvs_of();
                let h = s.len() as int / 2;
                let pp = a[leaf_offset as int].parent_of().unwrap() as int;
                &&& b.len() == a.len() + 1
                &&& b[pp] is Internal
                &&& push_data_post(
                    a[pp].skeys_of(),
                    a[pp].children_of(),
                    s[h].key,
                    a.len() as usize,
                    b[pp].skeys_of(),
                    b[pp].children_of(),
                )
                &&& r == (if a[pp].parent_of() is None {
                    Some(a[leaf_offset as int].parent_of().unwrap())
                } else {
                    None::<usize>
                })
                &&& (forall|j: int|
                    0 <= j < a.len() && j != pp && j != leaf_offset ==> (#[trigger] b[j]) == a[j])
            }),
            // a split under a full root cascades: the root splits too and a
            // brand-new root over its two halves comes back
            (old(nodes)@[leaf_offset as int] is Leaf && old(nodes)@[leaf_offset as int].kvs_of().len()
                == order - 1 && old(nodes)@[leaf_offset as int].parent_of() is Some
                && old(nodes)@[old(nodes)@[leaf_offset as int].parent_of().unwrap() as int] is Internal
                && old(nodes)@[old(nodes)@[leaf_offset as int].parent_of().unwrap() as int].key_count()
                == order - 1
                && old(nodes)@[old(nodes)@[leaf_offset as int].parent_of().unwrap() as int].parent_of()
                is None) ==> ({
                let a = old(nodes)@;
                let b = final(nodes)@;
                let pp = a[leaf_offset as int].parent_of().unwrap() as int;
                let pks = a[pp].skeys_of();
                let pch = a[pp].children_of();
                let pm = pch.len() as int / 2;
                let root = a.len() as int + 1;
                &&& b.len() == a.len() + 3
                &&& r == Some((a.len() + 1) as usize)
                &&& b[root] is Internal
                &&& b[root].skeys_of() == seq![pks[pm]]
                &&& b[root].children_of() == seq![
                    a[leaf_offset as int].parent_of().unwrap(),
                    ((a.len() + 2) as usize),
                ]
                &&& b[root].parent_of() == None::<usize>
            }),
    {
        let mut is_leaf = false;
        let mut full = false;
        match &nodes[leaf_offset] {
            BPTreeNode::Leaf { kvs, .. } => {
                is_leaf = true;
                full = kvs.len() == order - 1;
            },
            BPTreeNode::Internal { .. } => {},
        }
        if !is_leaf {
            return None;
        }
        proof {
            assert(old(nodes)@[leaf_offset as int].wf_shape(old(nodes)@.len() as nat));
        }
        if full {
            // split the overfull leaf; the right half is appended, the left
            // half keeps the leaf's handle
            let new_leaf_offset = nodes.len();
            let right = (&mut nodes[leaf_offset]).split();
            proof {
                let a = old(nodes)@;
                let l = leaf_offset as int;
                assert(nodes@[l].kvs_of() == a[l].kvs_of().subrange(
                    0,
                    a[l].kvs_of().len() as int / 2,
                ));
                assert forall|i: int, j: int|
                    0 <= i < j < nodes@[l].kvs_of().len() implies key_lt(
                    key_of(nodes@[l].kvs_of()[i].key),
                    key_of(nodes@[l].kvs_of()[j].key),
                ) by {
                    assert(nodes@[l].kvs_of()[i] == a[l].kvs_of()[i]);
                    assert(nodes@[l].kvs_of()[j] == a[l].kvs_of()[j]);
                }
                lemma_arena_update(a, nodes@, l, order as nat);
            }
            nodes.push(right);
            proof {
                let a = old(nodes)@;
                let l = leaf_offset as int;
                let b = nodes@;
                let h = a[l].kvs_of().len() as int / 2;
                assert(b[new_leaf_offset as int].kvs_of() == a[l].kvs_of().subrange(
                    h,
                    a[l].kvs_of().len() as int,
                ));
                assert forall|i: int, j: int|
                    0 <= i < j < b[new_leaf_offset as int].kvs_of().len() implies key_lt(
                    key_of(b[new_leaf_offset as int].kvs_of()[i].key),
                    key_of(b[new_leaf_offset as int].kvs_of()[j].key),
                ) by {
                    assert(b[new_leaf_offset as int].kvs_of()[i] == a[l].kvs_of()[i + h]);
                    assert(b[new_leaf_offset as int].kvs_of()[j] == a[l].kvs_of()[j + h]);
                }
                assert(b[new_leaf_offset as int].wf_shape(b.len() as nat));
                lemma_arena_push(b.drop_last(), b, order as nat);
                assert(b.drop_last() =~= b.subrange(0, new_leaf_offset as int));
            }
            Self::insert_full(nodes, kv, leaf_offset, new_leaf_offset, order)
        } else {
            let ghost a = old(nodes)@;
            let ghost l = leaf_offset as int;
            match &mut nodes[leaf_offset] {
                BPTreeNode::Leaf { kvs, .. } => {
                    proof {
                        assert(a[l].kvs_of() == kvs@);
                    }
                    Self::insert_non_full(kvs, kv);
                },
                BPTreeNode::Internal { .. } => {},
            }
            proof {
                assert(nodes@[l].kvs_of() == upsert_kvs(a[l].kvs_of(), kv));
                lemma_upsert_len(a[l].kvs_of(), kv);
                lemma_arena_update(a, nodes@, l, order as nat);
            }
            None
        }
    }

    /// Finishes a leaf split: wires the sibling chain, places `kv` in the
    /// correct half by comparing it against the separator (the right half's
    /// first key), and hands the separator upward — to a brand-new root when
    /// the split leaf was the root, to `split_nodes` otherwise.
    fn insert_full(
        nodes: &mut Vec<BPTreeNode>,
        kv: BPTreeKeyValue,
        old_leaf_offset: usize,
        new_leaf_offset: usize,
        order: usize,
    ) -> (r: Option<usize>)
        requires
            arena_shaped(old(nodes)@),
            arena_capped(old(nodes)@, order as nat),
            3 <= order,
            order % 2 == 1,
            old_leaf_offset < old(nodes)@.len(),
            new_leaf_offset < old(nodes)@.len(),
            old_leaf_offset != new_leaf_offset,
            old(nodes)@[old_leaf_offset as int] is Leaf,
            old(nodes)@[new_leaf_offset as int] is Leaf,
            old(nodes)@[new_leaf_offset as int].kvs_of().len() >= 1,
            old(nodes)@[old_leaf_offset as int].kvs_of().len() + 1 <= order - 1,
            old(nodes)@[new_leaf_offset as int].kvs_of().len() + 1 <= order - 1,
        ensures
            arena_shaped(final(nodes)@),
            arena_capped(final(nodes)@, order as nat),
            leaves_match(old(nodes)@, final(nodes)@),
            (r matches Some(nr) ==> (nr as int) < final(nodes)@.len()),
            forall|j: int|
                old(nodes)@.len() <= j < final(nodes)@.len() ==> (#[trigger] final(nodes)@[j])
                    is Internal,
            ({
                let a = old(nodes)@;
                let l = old_leaf_offset as int;
                let n = new_leaf_offset as int;
                let b = final(nodes)@;
                &&& b[l] is Leaf
                &&& b[n] is Leaf
                &&& b[l].next_of() == Some(new_leaf_offset)
                &&& b[n].next_of() == a[l].next_of()
                &&& if key_lt(key_of(kv.key), key_of(a[n].kvs_of()[0].key)) {
                    &&& b[l].kvs_of() == upsert_kvs(a[l].kvs_of(), kv)
                    &&& b[n].kvs_of() == a[n].kvs_of()
                } else {
                    &&& b[l].kvs_of() == a[l].kvs_of()
                    &&& b[n].kvs_of() == upsert_kvs(a[n].kvs_of(), kv)
                }
                &&& (forall|j: int|
                    0 <= j < a.len() && j != l && j != n ==> {
                        &&& (#[trigger] b[j]).kvs_of() == a[j].kvs_of()
                        &&& b[j].next_of() == a[j].next_of()
                    })
            }),
            // the split leaf was the root: a new internal root over the two
            // halves, carrying the separator as its sole key, comes back
            (old(nodes)@[old_leaf_offset as int].parent_of() is None) ==> ({
                let a = old(nodes)@;
                let b = final(nodes)@;
                let root = a.len() as int;
                &&& b.len() == a.len() + 1
                &&& r == Some(a.len() as usize)
                &&& b[root] is Internal
                &&& b[root].skeys_of() == seq![a[new_leaf_offset as int].kvs_of()[0].key]
                &&& b[root].children_of() == seq![old_leaf_offset, new_leaf_offset]
                &&& b[root].parent_of() == None::<usize>
                &&& b[old_leaf_offset as int].parent_of() == Some(a.len() as usize)
                &&& b[new_leaf_offset as int].parent_of() == Some(a.len() as usize)
            }),
            // the parent has room: it absorbs the separator and the new
            // leaf's handle at their sorted slot, nothing else changes, and
            // the root moves only if that parent was the root
            (old(nodes)@[old_leaf_offset as int].parent_of() matches Some(pp)
                && old(nodes)@[pp as int] is Internal
                && old(nodes)@[pp as int].key_count() < order - 1) ==> ({
                let a = old(nodes)@;
                let b = final(nodes)@;
                let pp = a[old_leaf_offset as int].parent_of().unwrap() as int;
                &&& b.len() == a.len()
                &&& b[pp] is Internal
                &&& push_data_post(
                    a[pp].skeys_of(),
                    a[pp].children_of(),
                    a[new_leaf_offset as int].kvs_of()[0].key,
                    new_leaf_offset,
                    b[pp].skeys_of(),
                    b[pp].children_of(),
                )
                &&& r == (if a[pp].parent_of() is None {
                    Some(a[old_leaf_offset as int].parent_of().unwrap())
                } else {
                    None::<usize>
                })
                &&& b[old_leaf_offset as int].parent_of() == a[old_leaf_offset as int].parent_of()
                &&& b[new_leaf_offset as int].parent_of() == a[old_leaf_offset as int].parent_of()
                &&& (forall|j: int|
                    0 <= j < a.len() && j != pp && j != old_leaf_offset && j != new_leaf_offset
                        ==> (#[trigger] b[j]) == a[j])
            }),
            // the parent is the full root: it splits around its middle key
            // and a brand-new root over its two halves comes back
            (old(nodes)@[old_leaf_offset as int].parent_of() matches Some(pp)
                && old(nodes)@[pp as int] is Internal
                && old(nodes)@[pp as int].key_count() == order - 1
                && old(nodes)@[pp as int].parent_of() is None) ==> ({
                let a = old(nodes)@;
                let b = final(nodes)@;
                let pp = a[old_leaf_offset as int].parent_of().unwrap() as int;
                let pks = a[pp].skeys_of();
                let pch = a[pp].children_of();
                let pm = pch.len() as int / 2;
                let root = a.len() as int;
                &&& b.len() == a.len() + 2
                &&& r == Some(a.len() as usize)
                &&& b[root] is Internal
                &&& b[root].skeys_of() == seq![pks[pm]]
                &&& b[root].children_of() == seq![
                    a[old_leaf_offset as int].parent_of().unwrap(),
                    ((a.len() + 1) as usize),
                ]
                &&& b[root].parent_of() == None::<usize>
            }),
    {
        // wire the sibling chain: the new leaf slots in right after the old
        let mut parent_opt: Option<usize> = None;
        let mut old_next: Option<usize> = None;
        match &mut nodes[old_leaf_offset] {
            BPTreeNode::Leaf { parent, next, .. } => {
                parent_opt = *parent;
                old_next = *next;
                *next = Some(new_leaf_offset);
            },
            BPTreeNode::Internal { .. } => {
                return None;
            },
        }
        proof {
            lemma_arena_update(old(nodes)@, nodes@, old_leaf_offset as int, order as nat);
        }
        let ghost a1 = nodes@;
        let mut sep_key = String::new();
        match &mut nodes[new_leaf_offset] {
            BPTreeNode::Leaf { parent, next, kvs } => {
                *parent = parent_opt;
                *next = old_next;
                sep_key = kvs[0].key.clone();
            },
            BPTreeNode::Internal { .. } => {
                return None;
            },
        }
        proof {
            lemma_arena_update(a1, nodes@, new_leaf_offset as int, order as nat);
        }
        let ghost a2 = nodes@;
        // the separator is the right half's first key: a smaller incoming
        // key belongs in the left half, any other in the right
        let go_left = match key_cmp(&kv.key, &sep_key) {
            KeyOrd::Lt => true,
            KeyOrd::Eq => false,
            KeyOrd::Gt => false,
        };
        if go_left {
            match &mut nodes[old_leaf_offset] {
                BPTreeNode::Leaf { kvs, .. } => {
                    Self::insert_non_full(kvs, kv);
                    proof {
                        lemma_upsert_len(a2[old_leaf_offset as int].kvs_of(), kv);
                    }
                },
                BPTreeNode::Internal { .. } => {},
            }
            proof {
                lemma_arena_update(a2, nodes@, old_leaf_offset as int, order as nat);
            }
        } else {
            match &mut nodes[new_leaf_offset] {
                BPTreeNode::Leaf { kvs, .. } => {
                    Self::insert_non_full(kvs, kv);
                    proof {
                        lemma_upsert_len(a2[new_leaf_offset as int].kvs_of(), kv);
                    }
                },
                BPTreeNode::Internal { .. } => {},
            }
            proof {
                lemma_arena_update(a2, nodes@, new_leaf_offset as int, order as nat);
            }
        }
        if parent_opt.is_none() {
            // the split leaf was the root: a brand-new internal root takes
            // both halves as its children and the separator as its sole key
            let mut child: Vec<usize> = Vec::new();
            child.push(old_leaf_offset);
            child.push(new_leaf_offset);
            let mut keys: Vec<String> = Vec::new();
            keys.push(sep_key);
            let new_root_offset = nodes.len();
            let ghost a3 = nodes@;
            nodes.push(BPTreeNode::Internal { parent: None, child, keys });
            proof {
                assert(nodes@[new_root_offset as int].wf_shape(nodes@.len() as nat));
                lemma_arena_push(a3, nodes@, order as nat);
            }
            let ghost a4 = nodes@;
            let _ = (&mut nodes[old_leaf_offset]).set_parent_offset(new_root_offset);
            proof {
                lemma_arena_update(a4, nodes@, old_leaf_offset as int, order as nat);
            }
            let ghost a5 = nodes@;
            let _ = (&mut nodes[new_leaf_offset]).set_parent_offset(new_root_offset);
            proof {
                lemma_arena_update(a5, nodes@, new_leaf_offset as int, order as nat);
            }
            Some(new_root_offset)
        } else {
            Self::split_nodes(nodes, Some(new_leaf_offset), Some(sep_key), parent_opt, order)
        }
    }

    /// Splits the full internal node at `p` in two: the left half keeps the
    /// handle and the lower keys and children; the right half is appended,
    /// with `attach_parent` as its parent, carrying the upper keys and
    /// children, which it adopts. The key at the split boundary is dropped
    /// from both halves (the caller promotes it). Returns the right half's
    /// handle.
    fn split_internal(nodes: &mut Vec<BPTreeNode>, p: usize, attach_parent: usize, order: usize) -> (y:
        usize)
        requires
            arena_shaped(old(nodes)@),
            arena_capped(old(nodes)@, order as nat),
            3 <= order,
            order % 2 == 1,
            p < old(nodes)@.len(),
            attach_parent < old(nodes)@.len(),
            old(nodes)@[p as int] is Internal,
            old(nodes)@[p as int].key_count() == order - 1,
        ensures
            arena_shaped(final(nodes)@),
            arena_capped(final(nodes)@, order as nat),
            leaves_match(old(nodes)@, final(nodes)@),
            leaf_data_match(old(nodes)@, final(nodes)@),
            final(nodes)@.len() == old(nodes)@.len() + 1,
            y == old(nodes)@.len(),
            ({
                let a = old(nodes)@;
                let b = final(nodes)@;
                let ks = a[p as int].skeys_of();
                let ch = a[p as int].children_of();
                let m = ch.len() as int / 2;
                &&& b[p as int] is Internal
                &&& b[p as int].skeys_of() == ks.subrange(0, m)
                &&& b[p as int].children_of() == ch.subrange(0, m + 1)
                &&& b[y as int] is Internal
                &&& b[y as int].skeys_of() == ks.subrange(m + 1, ks.len() as int)
                &&& b[y as int].children_of() == ch.subrange(m + 1, ch.len() as int)
                &&& b[y as int].parent_of() == Some(attach_parent)
                &&& (forall|i: int|
                    0 <= i < b[y as int].children_of().len()
                        ==> b[(#[trigger] b[y as int].children_of()[i]) as int].parent_of() == Some(
                        y,
                    ))
                &&& (forall|j: int|
                    0 <= j < a.len() && j != p && !b[y as int].children_of().contains(j as usize)
                        ==> (#[trigger] b[j]).parent_of() == a[j].parent_of())
                &&& (!b[y as int].children_of().contains(p) ==> b[p as int].parent_of() == a[p as int].parent_of())
            }),
            forall|j: int|
                0 <= j < old(nodes)@.len() && j != p ==> {
                    &&& (#[trigger] final(nodes)@[j]).children_of() == old(nodes)@[j].children_of()
                    &&& final(nodes)@[j].skeys_of() == old(nodes)@[j].skeys_of()
                    &&& final(nodes)@[j].kvs_of() == old(nodes)@[j].kvs_of()
                    &&& final(nodes)@[j].next_of() == old(nodes)@[j].next_of()
                    &&& final(nodes)@[j].key_count() == old(nodes)@[j].key_count()
                },
    {
        proof {
            assert(old(nodes)@[p as int].wf_shape(old(nodes)@.len() as nat));
        }
        let mut right = (&mut nodes[p]).split();
        proof {
            let a = old(nodes)@;
            let ks = a[p as int].skeys_of();
            let ch = a[p as int].children_of();
            let m = ch.len() as int / 2;
            assert forall|i: int, j: int|
                0 <= i < j < nodes@[p as int].skeys_of().len() implies key_lt(
                key_of(nodes@[p as int].skeys_of()[i]),
                key_of(nodes@[p as int].skeys_of()[j]),
            ) by {
                assert(nodes@[p as int].skeys_of()[i] == ks[i]);
                assert(nodes@[p as int].skeys_of()[j] == ks[j]);
            }
            assert forall|i: int|
                0 <= i < nodes@[p as int].children_of().len() implies (nodes@[p as int].children_of()[i]
                as nat) < nodes@.len() as nat by {
                assert(nodes@[p as int].children_of()[i] == ch[i]);
            }
            lemma_arena_update(a, nodes@, p as int, order as nat);
            // the right half is sorted and in bounds for the same reason
            assert forall|i: int, j: int|
                0 <= i < j < right.skeys_of().len() implies key_lt(
                key_of(right.skeys_of()[i]),
                key_of(right.skeys_of()[j]),
            ) by {
                assert(right.skeys_of()[i] == ks[i + m + 1]);
                assert(right.skeys_of()[j] == ks[j + m + 1]);
            }
            assert forall|i: int|
                0 <= i < right.children_of().len() implies (right.children_of()[i] as nat)
                < nodes@.len() as nat by {
                assert(right.children_of()[i] == ch[i + m + 1]);
            }
        }
        let _ = right.set_parent_offset(attach_parent);
        let y = nodes.len();
        let ghost a6 = nodes@;
        nodes.push(right);
        proof {
            right.lemma_wf_shape_widen(a6.len() as nat, nodes@.len() as nat);
            lemma_arena_push(a6, nodes@, order as nat);
        }
        Self::update_child_parent(nodes, y);
        proof {
            let ch = old(nodes)@[p as int].children_of();
            let m = ch.len() as int / 2;
            assert(nodes@[y as int].children_of() == ch.subrange(m + 1, ch.len() as int));
            // the appended half cannot be its own child: its children were
            // handles of the smaller arena
            assert forall|i: int|
                0 <= i < nodes@[y as int].children_of().len() implies nodes@[(
            #[trigger] nodes@[y as int].children_of()[i]) as int].parent_of() == Some(y) by {
                assert(nodes@[y as int].children_of()[i] == ch[i + m + 1]);
            }
            assert(!nodes@[y as int].children_of().contains(y)) by {
                if nodes@[y as int].children_of().contains(y) {
                    let i = choose|i: int|
                        0 <= i < nodes@[y as int].children_of().len() && nodes@[y as int].children_of()[i]
                            == y;
                    assert(nodes@[y as int].children_of()[i] == ch[i + m + 1]);
                }
            }
            assert forall|j: int|
                0 <= j < old(nodes)@.len() && j != p && !nodes@[y as int].children_of().contains(
                    j as usize,
                ) implies (#[trigger] nodes@[j]).parent_of() == old(nodes)@[j].parent_of() by {
                assert(a6[j] == old(nodes)@[j]);
            }
        }
        y
    }

    /// Handles a full root during split propagation: appends a fresh root
    /// over it, splits it around its middle key, places the pending
    /// separator/child pair in the half its key sorts into (re-pointing the
    /// moved children and the pending child), and hands the promoted middle
    /// key to the fresh root, which becomes the new root. Returns the fresh
    /// root's handle.
    #[verifier::spinoff_prover]
    #[verifier::rlimit(100)]
    fn split_root_full(
        nodes: &mut Vec<BPTreeNode>,
        p: usize,
        child_off: usize,
        pkey: String,
        order: usize,
    ) -> (r: usize)
        requires
            arena_shaped(old(nodes)@),
            arena_capped(old(nodes)@, order as nat),
            3 <= order,
            order % 2 == 1,
            p < old(nodes)@.len(),
            child_off < old(nodes)@.len(),
            old(nodes)@[p as int] is Internal,
            old(nodes)@[p as int].key_count() == order - 1,
            old(nodes)@[p as int].parent_of() is None,
        ensures
            arena_shaped(final(nodes)@),
            arena_capped(final(nodes)@, order as nat),
            leaves_match(old(nodes)@, final(nodes)@),
            leaf_data_match(old(nodes)@, final(nodes)@),
            forall|j: int|
                old(nodes)@.len() <= j < final(nodes)@.len() ==> (#[trigger] final(nodes)@[j])
                    is Internal,
            r == old(nodes)@.len(),
            ({
                let a = old(nodes)@;
                let b = final(nodes)@;
                let ks = a[p as int].skeys_of();
                let ch = a[p as int].children_of();
                let m = ch.len() as int / 2;
                let root = a.len() as int;
                let y = a.len() as int + 1;
                &&& b.len() == a.len() + 2
                &&& b[p as int] is Internal
                &&& b[y] is Internal
                &&& b[root] is Internal
                &&& b[root].skeys_of() == seq![ks[m]]
                &&& b[root].children_of() == seq![p, (y as usize)]
                &&& b[root].parent_of() == None::<usize>
                &&& b[y].parent_of() == Some(a.len() as usize)
                // the guard below only rules out a node that lists itself or
                // the pending child among its own children, which the local
                // invariant `wf` cannot exclude
                &&& ((!ch.contains(p) && !ch.contains(child_off) && child_off != p) ==> {
                    &&& b[p as int].parent_of() == Some(a.len() as usize)
                    &&& (forall|i: int|
                        0 <= i < b[y].children_of().len()
                            ==> b[(#[trigger] b[y].children_of()[i]) as int].parent_of() == Some(
                            (a.len() + 1) as usize,
                        ))
                })
                &&& (if key_lt(key_of(pkey), key_of(ks[m])) {
                    &&& push_data_post(
                        ks.subrange(0, m),
                        ch.subrange(0, m + 1),
                        pkey,
                        child_off,
                        b[p as int].skeys_of(),
                        b[p as int].children_of(),
                    )
                    &&& b[y].skeys_of() == ks.subrange(m + 1, ks.len() as int)
                    &&& b[y].children_of() == ch.subrange(m + 1, ch.len() as int)
                } else {
                    &&& b[p as int].skeys_of() == ks.subrange(0, m)
                    &&& b[p as int].children_of() == ch.subrange(0, m + 1)
                    &&& push_data_post(
                        ks.subrange(m + 1, ks.len() as int),
                        ch.subrange(m + 1, ch.len() as int),
                        pkey,
                        child_off,
                        b[y].skeys_of(),
                        b[y].children_of(),
                    )
                })
            }),
    {
        let center_key = match &nodes[p] {
            BPTreeNode::Internal { keys, .. } => keys[order / 2].clone(),
            BPTreeNode::Leaf { .. } => String::new(),
        };
        let new_root_offset = nodes.len();
        let mut rchild: Vec<usize> = Vec::new();
        rchild.push(p);
        let ghost a7 = nodes@;
        nodes.push(BPTreeNode::Internal { parent: None, child: rchild, keys: Vec::new() });
        proof {
            assert(old(nodes)@[p as int].wf_shape(old(nodes)@.len() as nat));
            assert(nodes@[new_root_offset as int].wf_shape(nodes@.len() as nat));
            lemma_arena_push(a7, nodes@, order as nat);
        }
        let ghost a8 = nodes@;
        let _ = (&mut nodes[p]).set_parent_offset(new_root_offset);
        proof {
            lemma_arena_update(a8, nodes@, p as int, order as nat);
        }
        let y = Self::split_internal(nodes, p, new_root_offset, order);
        // the pending pair lands in the half its key sorts into: below the
        // promoted middle key it belongs left, at or above it right
        let ghost a11 = nodes@;
        let target = match key_cmp(&pkey, &center_key) {
            KeyOrd::Lt => p,
            KeyOrd::Eq => y,
            KeyOrd::Gt => y,
        };
        (&mut nodes[target]).push_data(child_off, pkey.clone());
        proof {
            assert(a11[target as int].wf_shape(a11.len() as nat));
            lemma_push_data_post_shape(
                a11[target as int].skeys_of(),
                a11[target as int].children_of(),
                pkey,
                child_off,
                nodes@[target as int].skeys_of(),
                nodes@[target as int].children_of(),
                nodes@.len() as nat,
            );
            lemma_arena_update(a11, nodes@, target as int, order as nat);
        }
        // the pending child now hangs off whichever half received it
        let ghost a12 = nodes@;
        let _ = (&mut nodes[child_off]).set_parent_offset(target);
        proof {
            lemma_arena_update(a12, nodes@, child_off as int, order as nat);
        }
        // the fresh root is empty, so it absorbs the promoted key at once
        let ghost a9 = nodes@;
        (&mut nodes[new_root_offset]).push_data(y, center_key.clone());
        proof {
            let ks0 = a9[new_root_offset as int].skeys_of();
            let ch0 = a9[new_root_offset as int].children_of();
            assert(ks0 =~= Seq::<String>::empty());
            assert(ch0 =~= seq![p]);
            assert(a9[new_root_offset as int].wf_shape(a9.len() as nat));
            lemma_push_data_post_shape(
                ks0,
                ch0,
                center_key,
                y,
                nodes@[new_root_offset as int].skeys_of(),
                nodes@[new_root_offset as int].children_of(),
                nodes@.len() as nat,
            );
            let idx = choose|idx: int|
                {
                    &&& 0 <= idx <= ks0.len()
                    &&& (forall|j: int| 0 <= j < idx ==> key_lt(key_of(ks0[j]), key_of(center_key)))
                    &&& (forall|j: int|
                        idx <= j < ks0.len() ==> key_lt(key_of(center_key), key_of(ks0[j])))
                    &&& nodes@[new_root_offset as int].skeys_of() == ks0.insert(idx, center_key)
                    &&& nodes@[new_root_offset as int].children_of() == ch0.insert(idx + 1, y)
                };
            assert(nodes@[new_root_offset as int].skeys_of() =~= seq![center_key]);
            assert(nodes@[new_root_offset as int].children_of() =~= seq![p, y]);
            lemma_arena_update(a9, nodes@, new_root_offset as int, order as nat);
            let a = old(nodes)@;
            let pi = p as int;
            let ks = a[pi].skeys_of();
            let ch = a[pi].children_of();
            let m = ch.len() as int / 2;
            assert(a[pi].wf_shape(a.len() as nat));
            assert(center_key == ks[m]);
            assert(a11[pi].skeys_of() == ks.subrange(0, m));
            assert(a11[pi].children_of() == ch.subrange(0, m + 1));
            assert(a11[y as int].skeys_of() == ks.subrange(m + 1, ks.len() as int));
            assert(a11[y as int].children_of() == ch.subrange(m + 1, ch.len() as int));
            if key_lt(key_of(pkey), key_of(center_key)) {
                assert(nodes@[y as int].skeys_of() == ks.subrange(m + 1, ks.len() as int));
            } else {
                assert(nodes@[pi].skeys_of() == ks.subrange(0, m));
            }
            // parent wiring of the halves and the adoption of the right
            // half's children
            let rch = ch.subrange(m + 1, ch.len() as int);
            assert(a11[y as int].children_of() == rch);
            if !ch.contains(p) && !ch.contains(child_off) && child_off != p {
                assert(!rch.contains(p)) by {
                    if rch.contains(p) {
                        let i = choose|i: int| 0 <= i < rch.len() && rch[i] == p;
                        assert(ch[i + m + 1] == p);
                        assert(ch.contains(p));
                    }
                }
                assert(!rch.contains(child_off)) by {
                    if rch.contains(child_off) {
                        let i = choose|i: int| 0 <= i < rch.len() && rch[i] == child_off;
                        assert(ch[i + m + 1] == child_off);
                        assert(ch.contains(child_off));
                    }
                }
                assert(a11[pi].parent_of() == Some(new_root_offset));
                assert(nodes@[pi].parent_of() == Some(new_root_offset));
                let yks = a11[y as int].skeys_of();
                assert forall|i: int|
                    0 <= i < nodes@[y as int].children_of().len()
                        implies nodes@[(#[trigger] nodes@[y as int].children_of()[i]) as int].parent_of()
                        == Some((a.len() + 1) as usize) by {
                    let bych = nodes@[y as int].children_of();
                    if target == y && !(exists|ii: int|
                        0 <= ii < yks.len() && key_of(yks[ii]) == key_of(pkey)) {
                        let idx2 = choose|idx2: int|
                            {
                                &&& 0 <= idx2 <= yks.len()
                                &&& (forall|j: int|
                                    0 <= j < idx2 ==> key_lt(key_of(yks[j]), key_of(pkey)))
                                &&& (forall|j: int|
                                    idx2 <= j < yks.len() ==> key_lt(key_of(pkey), key_of(yks[j])))
                                &&& a12[y as int].skeys_of() == yks.insert(idx2, pkey)
                                &&& a12[y as int].children_of() == rch.insert(idx2 + 1, child_off)
                            };
                        assert(bych == rch.insert(idx2 + 1, child_off));
                        if i < idx2 + 1 {
                            assert(bych[i] == rch[i]);
                            assert(a11[rch[i] as int].parent_of() == Some(y));
                            assert(nodes@[rch[i] as int] == a11[rch[i] as int]);
                        } else if i == idx2 + 1 {
                            assert(bych[i] == child_off);
                            assert(a9[child_off as int].parent_of() == Some(y));
                        } else {
                            assert(bych[i] == rch[i - 1]);
                            assert(a11[rch[i - 1] as int].parent_of() == Some(y));
                            assert(nodes@[rch[i - 1] as int] == a11[rch[i - 1] as int]);
                        }
                    } else {
                        assert(bych == rch);
                        assert(a11[rch[i] as int].parent_of() == Some(y));
                        assert(nodes@[rch[i] as int] == a11[rch[i] as int]);
                    }
                }
            }
        }
        new_root_offset
    }

    /// The upward loop of split propagation: inserts the pending
    /// separator/child pair into the current ancestor, splitting that
    /// ancestor first whenever it is already full — which promotes its
    /// middle key one level further and sends the pending pair into
    /// whichever half its key sorts into — until an ancestor absorbs the
    /// pair or a new root is created. Returns the new root handle when the
    /// root changed.
    #[verifier::rlimit(100)]
    fn split_nodes(
        nodes: &mut Vec<BPTreeNode>,
        right_leaf_offset: Option<usize>,
        right_leaf_key: Option<String>,
        parent: Option<usize>,
        order: usize,
    ) -> (r: Option<usize>)
        requires
            arena_shaped(old(nodes)@),
            arena_capped(old(nodes)@, order as nat),
            3 <= order,
            order % 2 == 1,
            (right_leaf_offset matches Some(c) ==> (c as int) < old(nodes)@.len()),
            (parent matches Some(p) ==> (p as int) < old(nodes)@.len()),
        ensures
            arena_shaped(final(nodes)@),
            arena_capped(final(nodes)@, order as nat),
            leaves_match(old(nodes)@, final(nodes)@),
            leaf_data_match(old(nodes)@, final(nodes)@),
            (r matches Some(nr) ==> (nr as int) < final(nodes)@.len()),
            // propagation appends only internal nodes: split halves and
            // fresh roots, never a leaf
            forall|j: int|
                old(nodes)@.len() <= j < final(nodes)@.len() ==> (#[trigger] final(nodes)@[j])
                    is Internal,
            // the first ancestor has room: it absorbs the pair at its sorted
            // slot, nothing is appended, nothing else changes, and the root
            // handle comes back exactly when that ancestor was the root
            (propagation_starts(old(nodes)@, right_leaf_offset, right_leaf_key, parent)
                && old(nodes)@[parent.unwrap() as int].key_count() < order - 1) ==> ({
                let a = old(nodes)@;
                let p = parent.unwrap() as int;
                let b = final(nodes)@;
                &&& b.len() == a.len()
                &&& b[p] is Internal
                &&& b[p].parent_of() == a[p].parent_of()
                &&& push_data_post(
                    a[p].skeys_of(),
                    a[p].children_of(),
                    right_leaf_key.unwrap(),
                    right_leaf_offset.unwrap(),
                    b[p].skeys_of(),
                    b[p].children_of(),
                )
                &&& (forall|j: int| 0 <= j < a.len() && j != p ==> b[j] == a[j])
                &&& r == (if a[p].parent_of() is None {
                    Some(parent.unwrap())
                } else {
                    None::<usize>
                })
            }),
            // the first ancestor is the full root: it splits around its
            // middle key, the pair lands in the half its key sorts into, and
            // a brand-new root over the two halves comes back
            (propagation_starts(old(nodes)@, right_leaf_offset, right_leaf_key, parent)
                && old(nodes)@[parent.unwrap() as int].key_count() == order - 1
                && old(nodes)@[parent.unwrap() as int].parent_of() is None) ==> ({
                let a = old(nodes)@;
                let p = parent.unwrap() as int;
                let b = final(nodes)@;
                let ks = a[p].skeys_of();
                let ch = a[p].children_of();
                let m = ch.len() as int / 2;
                let root = a.len() as int;
                let y = a.len() as int + 1;
                &&& b.len() == a.len() + 2
                &&& b[p] is Internal
                &&& b[y] is Internal
                &&& b[root] is Internal
                &&& b[root].skeys_of() == seq![ks[m]]
                &&& b[root].children_of() == seq![parent.unwrap(), y as usize]
                &&& b[root].parent_of() == None::<usize>
                &&& b[y].parent_of() == Some(a.len() as usize)
                // the guard below only rules out a node that lists itself or
                // the pending child among its own children, which the local
                // invariant `wf` cannot exclude
                &&& ((!ch.contains(parent.unwrap()) && !ch.contains(right_leaf_offset.unwrap())
                    && right_leaf_offset.unwrap() != parent.unwrap()) ==> {
                    &&& b[p].parent_of() == Some(a.len() as usize)
                    &&& (forall|i: int|
                        0 <= i < b[y].children_of().len()
                            ==> b[(#[trigger] b[y].children_of()[i]) as int].parent_of() == Some(
                            (a.len() + 1) as usize,
                        ))
                })
                &&& (if key_lt(key_of(right_leaf_key.unwrap()), key_of(ks[m])) {
                    &&& push_data_post(
                        ks.subrange(0, m),
                        ch.subrange(0, m + 1),
                        right_leaf_key.unwrap(),
                        right_leaf_offset.unwrap(),
                        b[p].skeys_of(),
                        b[p].children_of(),
                    )
                    &&& b[y].skeys_of() == ks.subrange(m + 1, ks.len() as int)
                    &&& b[y].children_of() == ch.subrange(m + 1, ch.len() as int)
                } else {
                    &&& b[p].skeys_of() == ks.subrange(0, m)
                    &&& b[p].children_of() == ch.subrange(0, m + 1)
                    &&& push_data_post(
                        ks.subrange(m + 1, ks.len() as int),
                        ch.subrange(m + 1, ch.len() as int),
                        right_leaf_key.unwrap(),
                        right_leaf_offset.unwrap(),
                        b[y].skeys_of(),
                        b[y].children_of(),
                    )
                })
                &&& r == Some(a.len() as usize)
            }),
            // the first ancestor is full but not the root: it splits the
            // same way and the promotion continues above it, growing the
            // arena
            (propagation_starts(old(nodes)@, right_leaf_offset, right_leaf_key, parent)
                && old(nodes)@[parent.unwrap() as int].key_count() == order - 1
                && old(nodes)@[parent.unwrap() as int].parent_of() is Some)
                ==> final(nodes)@.len() > old(nodes)@.len(),
    {
        let mut curr_parent: Option<usize> = parent;
        let mut pending_child: Option<usize> = right_leaf_offset;
        let mut pending_key: Option<String> = right_leaf_key;
        // in a tree whose parent handles are acyclic the ancestor chain is
        // strictly shorter than the arena, so the bound below would never end
        // the walk; `wf` does not state acyclicity, so this is an assumption
        // about the trees the library builds, not a proved fact
        let mut fuel = nodes.len();
        loop
            invariant
                arena_shaped(nodes@),
                arena_capped(nodes@, order as nat),
                3 <= order,
                order % 2 == 1,
                nodes@.len() >= old(nodes)@.len(),
                leaves_match(old(nodes)@, nodes@),
                leaf_data_match(old(nodes)@, nodes@),
                forall|j: int|
                    old(nodes)@.len() <= j < nodes@.len() ==> (#[trigger] nodes@[j]) is Internal,
                (pending_child matches Some(c) ==> (c as int) < nodes@.len()),
                (curr_parent matches Some(p) ==> (p as int) < nodes@.len()),
                // an absorbing or root-splitting first ancestor ends the walk
                // within its first round, so on any later round neither case
                // is in play and the state is past its first mutation
                (propagation_starts(old(nodes)@, right_leaf_offset, right_leaf_key, parent)
                    && (old(nodes)@[parent.unwrap() as int].key_count() < order - 1
                        || old(nodes)@[parent.unwrap() as int].parent_of() is None)) ==> {
                    &&& nodes@ == old(nodes)@
                    &&& pending_child == right_leaf_offset
                    &&& pending_key == right_leaf_key
                    &&& curr_parent == parent
                    &&& fuel >= 1
                },
                (propagation_starts(old(nodes)@, right_leaf_offset, right_leaf_key, parent)
                    && old(nodes)@[parent.unwrap() as int].key_count() == order - 1
                    && old(nodes)@[parent.unwrap() as int].parent_of() is Some) ==> {
                    ||| {
                        &&& nodes@ == old(nodes)@
                        &&& pending_child == right_leaf_offset
                        &&& pending_key == right_leaf_key
                        &&& curr_parent == parent
                        &&& fuel >= 1
                    }
                    ||| nodes@.len() > old(nodes)@.len()
                },
            ensures
                arena_shaped(nodes@),
                arena_capped(nodes@, order as nat),
                leaves_match(old(nodes)@, nodes@),
                leaf_data_match(old(nodes)@, nodes@),
                forall|j: int|
                    old(nodes)@.len() <= j < nodes@.len() ==> (#[trigger] nodes@[j]) is Internal,
                !(propagation_starts(old(nodes)@, right_leaf_offset, right_leaf_key, parent)
                    && (old(nodes)@[parent.unwrap() as int].key_count() < order - 1
                        || old(nodes)@[parent.unwrap() as int].parent_of() is None)),
                (propagation_starts(old(nodes)@, right_leaf_offset, right_leaf_key, parent)
                    && old(nodes)@[parent.unwrap() as int].key_count() == order - 1
                    && old(nodes)@[parent.unwrap() as int].parent_of() is Some)
                    ==> nodes@.len() > old(nodes)@.len(),
            decreases fuel,
        {
            if fuel == 0 {
                break ;
            }
            fuel = fuel - 1;
            let child_off = match pending_child {
                Some(c) => c,
                None => {
                    break ;
                },
            };
            let pkey = match pending_key {
                Some(k) => k,
                None => {
                    break ;
                },
            };
            let p = match curr_parent {
                Some(p) => p,
                None => {
                    break ;
                },
            };
            let mut node_parent: Option<usize> = None;
            let mut keys_len: usize = 0;
            match &nodes[p] {
                BPTreeNode::Internal { parent, keys, .. } => {
                    node_parent = *parent;
                    keys_len = keys.len();
                },
                BPTreeNode::Leaf { .. } => {
                    return None;
                },
            }
            proof {
                assert(nodes@[p as int].wf_shape(nodes@.len() as nat));
            }
            if keys_len == order - 1 {
                // the ancestor is full: split it and promote its middle key
                let center_key = match &nodes[p] {
                    BPTreeNode::Internal { keys, .. } => keys[order / 2].clone(),
                    BPTreeNode::Leaf { .. } => {
                        return None;
                    },
                };
                match node_parent {
                    None => {
                        // the full ancestor is the root: a fresh root takes
                        // it as sole child, receives the promoted middle key
                        // together with the split's right half, and is the
                        // new root
                        return Some(Self::split_root_full(nodes, p, child_off, pkey, order));
                    },
                    Some(pp) => {
                        let y = Self::split_internal(nodes, p, pp, order);
                        // the pending pair lands in the half its key sorts
                        // into, exactly as in the new-root case
                        let ghost a11 = nodes@;
                        let target = match key_cmp(&pkey, &center_key) {
                            KeyOrd::Lt => p,
                            KeyOrd::Eq => y,
                            KeyOrd::Gt => y,
                        };
                        (&mut nodes[target]).push_data(child_off, pkey);
                        proof {
                            assert(a11[target as int].wf_shape(a11.len() as nat));
                            lemma_push_data_post_shape(
                                a11[target as int].skeys_of(),
                                a11[target as int].children_of(),
                                pkey,
                                child_off,
                                nodes@[target as int].skeys_of(),
                                nodes@[target as int].children_of(),
                                nodes@.len() as nat,
                            );
                            lemma_arena_update(a11, nodes@, target as int, order as nat);
                        }
                        // the pending child now hangs off whichever half
                        // received it
                        let ghost a12 = nodes@;
                        let _ = (&mut nodes[child_off]).set_parent_offset(target);
                        proof {
                            lemma_arena_update(a12, nodes@, child_off as int, order as nat);
                        }
                        pending_child = Some(y);
                        pending_key = Some(center_key);
                        curr_parent = Some(pp);
                    },
                }
            } else {
                // the ancestor has room: absorb the pair and stop
                let ghost a10 = nodes@;
                (&mut nodes[p]).push_data(child_off, pkey);
                proof {
                    assert(a10[p as int].wf_shape(a10.len() as nat));
                    lemma_push_data_post_shape(
                        a10[p as int].skeys_of(),
                        a10[p as int].children_of(),
                        pkey,
                        child_off,
                        nodes@[p as int].skeys_of(),
                        nodes@[p as int].children_of(),
                        nodes@.len() as nat,
                    );
                    lemma_arena_update(a10, nodes@, p as int, order as nat);
                }
                if node_parent.is_none() {
                    return Some(p);
                }
                return None;
            }
        }
        None
    }

    /// Inserts or updates one entry in a sorted entry list: an existing key
    /// has its entry overwritten in place, a new key is inserted at its
    /// sorted position. The result is exactly the model-level upsert.
    fn insert_non_full(kvs: &mut Vec<BPTreeKeyValue>, kv: BPTreeKeyValue)
        requires
            kvs_sorted(old(kvs)@),
            old(kvs)@.len() < usize::MAX,
        ensures
            final(kvs)@ == upsert_kvs(old(kvs)@, kv),
            kvs_sorted(final(kvs)@),
            final(kvs)@.len() <= old(kvs)@.len() + 1,
    {
        proof {
            lemma_upsert_sorted(old(kvs)@, kv);
        }
        let (found, idx) = find_kv_slot(kvs, &kv.key);
        if found {
            proof {
                lemma_upsert_is_update(old(kvs)@, kv, idx as int);
            }
            let slot = &mut kvs[idx];
            *slot = kv;
        } else {
            proof {
                lemma_upsert_is_insert(old(kvs)@, kv, idx as int);
            }
            kvs.insert(idx, kv);
        }
    }

    /// Re-points the parent handle of every child of the internal node at
    /// `new_child_idx` to that node — needed after a split moved those
    /// children under a freshly appended right half. Touches nothing but
    /// parent handles: afterwards every child of that node names it as its
    /// parent, and no other node's parent handle has changed.
    fn update_child_parent(nodes: &mut Vec<BPTreeNode>, new_child_idx: usize)
        requires
            arena_shaped(old(nodes)@),
            new_child_idx < old(nodes)@.len(),
        ensures
            final(nodes)@.len() == old(nodes)@.len(),
            arena_shaped(final(nodes)@),
            forall|j: int|
                0 <= j < old(nodes)@.len() ==> {
                    &&& ((#[trigger] final(nodes)@[j]) is Leaf <==> old(nodes)@[j] is Leaf)
                    &&& final(nodes)@[j].children_of() == old(nodes)@[j].children_of()
                    &&& final(nodes)@[j].skeys_of() == old(nodes)@[j].skeys_of()
                    &&& final(nodes)@[j].kvs_of() == old(nodes)@[j].kvs_of()
                    &&& final(nodes)@[j].next_of() == old(nodes)@[j].next_of()
                    &&& final(nodes)@[j].key_count() == old(nodes)@[j].key_count()
                },
            old(nodes)@[new_child_idx as int] is Leaf ==> final(nodes)@ == old(nodes)@,
            old(nodes)@[new_child_idx as int] is Internal ==> ({
                let ch = old(nodes)@[new_child_idx as int].children_of();
                &&& (forall|m: int|
                    0 <= m < ch.len() ==> final(nodes)@[(#[trigger] ch[m]) as int].parent_of()
                        == Some(new_child_idx))
                &&& (forall|j: int|
                    0 <= j < old(nodes)@.len() && !ch.contains(j as usize)
                        ==> (#[trigger] final(nodes)@[j]).parent_of() == old(nodes)@[j].parent_of())
            }),
    {
        let mut childs: Vec<usize> = Vec::new();
        match &nodes[new_child_idx] {
            BPTreeNode::Internal { child, .. } => {
                let mut i: usize = 0;
                while i < child.len()
                    invariant
                        i <= child@.len(),
                        childs@ == child@.subrange(0, i as int),
                    decreases child@.len() - i,
                {
                    childs.push(child[i]);
                    i = i + 1;
                }
                proof {
                    assert(childs@ =~= child@);
                }
            },
            BPTreeNode::Leaf { .. } => {
                return ;
            },
        }
        proof {
            assert(nodes@[new_child_idx as int].wf_shape(nodes@.len() as nat));
            assert(childs@ == nodes@[new_child_idx as int].children_of());
        }
        let mut i: usize = 0;
        while i < childs.len()
            invariant
                i <= childs@.len(),
                arena_shaped(nodes@),
                nodes@.len() == old(nodes)@.len(),
                new_child_idx < nodes@.len(),
                forall|m: int| 0 <= m < childs@.len() ==> (childs@[m] as int) < nodes@.len(),
                forall|j: int|
                    0 <= j < old(nodes)@.len() ==> {
                        &&& ((#[trigger] nodes@[j]) is Leaf <==> old(nodes)@[j] is Leaf)
                        &&& nodes@[j].children_of() == old(nodes)@[j].children_of()
                        &&& nodes@[j].skeys_of() == old(nodes)@[j].skeys_of()
                        &&& nodes@[j].kvs_of() == old(nodes)@[j].kvs_of()
                        &&& nodes@[j].next_of() == old(nodes)@[j].next_of()
                        &&& nodes@[j].key_count() == old(nodes)@[j].key_count()
                    },
                forall|m: int|
                    0 <= m < i ==> nodes@[(#[trigger] childs@[m]) as int].parent_of() == Some(
                        new_child_idx,
                    ),
                forall|j: int|
                    0 <= j < old(nodes)@.len() && !childs@.subrange(0, i as int).contains(j as usize)
                        ==> (#[trigger] nodes@[j]).parent_of() == old(nodes)@[j].parent_of(),
            decreases childs@.len() - i,
        {
            let c = childs[i];
            let ghost before = nodes@;
            let _ = (&mut nodes[c]).set_parent_offset(new_child_idx);
            proof {
                assert forall|j: int|
                    0 <= j < nodes@.len() implies (#[trigger] nodes@[j]).wf_shape(
                    nodes@.len() as nat,
                ) by {
                    assert(before[j].wf_shape(before.len() as nat));
                }
                assert(childs@.subrange(0, i + 1)[i as int] == childs@[i as int]);
                assert forall|j: int|
                    0 <= j < old(nodes)@.len() && !childs@.subrange(0, i + 1).contains(j as usize)
                        implies (#[trigger] nodes@[j]).parent_of() == old(nodes)@[j].parent_of() by {
                    assert(!childs@.subrange(0, i as int).contains(j as usize)) by {
                        if childs@.subrange(0, i as int).contains(j as usize) {
                            let m = choose|m: int|
                                0 <= m < i && childs@.subrange(0, i as int)[m] == j as usize;
                            assert(childs@.subrange(0, i + 1)[m] == j as usize);
                        }
                    }
                    assert(j != c as int);
                }
            }
            i = i + 1;
        }
        proof {
            assert(childs@.subrange(0, childs@.len() as int) =~= childs@);
        }
    }
}

} // verus!
