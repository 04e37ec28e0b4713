//! Tree nodes and the single structural primitive, `split`.
//!
//! A node is either an internal node (separator keys plus child handles,
//! always one more child than keys) or a leaf (key/value entries plus the
//! handle of the next leaf in the ascending sibling chain). `split` divides
//! one node's payload into two halves purely locally; wiring the halves
//! into the tree is the caller's business.

use vstd::prelude::*;

use crate::keys::KeyOrd;
use crate::keys::key_cmp;
use crate::keys::key_lt;
use crate::keys::key_of;
use crate::keys::lemma_key_lt_transitive;

verus! {

/// One entry of a leaf: a key and the value most recently upserted for it.
#[derive(Debug)]
pub struct BPTreeKeyValue {
    pub key: String,
    pub value: String,
}

/// A node of the tree. `parent` is `None` only for the current root.
#[derive(Debug)]
pub enum BPTreeNode {
    Internal { parent: Option<usize>, child: Vec<usize>, keys: Vec<String> },
    Leaf { parent: Option<usize>, next: Option<usize>, kvs: Vec<BPTreeKeyValue> },
}

/// Separator keys in strictly ascending byte order.
pub open spec fn str_keys_sorted(ks: Seq<String>) -> bool {
    forall|i: int, j: int| 0 <= i < j < ks.len() ==> key_lt(key_of(ks[i]), key_of(ks[j]))
}

/// Leaf entries in strictly ascending byte order of their keys.
pub open spec fn kvs_sorted(s: Seq<BPTreeKeyValue>) -> bool {
    forall|i: int, j: int| 0 <= i < j < s.len() ==> key_lt(key_of(s[i].key), key_of(s[j].key))
}

/// Whether some entry of `s` carries exactly the key bytes `k`.
pub open spec fn kvs_has_key(s: Seq<BPTreeKeyValue>, k: Seq<u8>) -> bool {
    exists|i: int| 0 <= i < s.len() && key_of(s[i].key) == k
}

/// What `push_data` leaves of an internal node's keys and children: when
/// `key` is already among the keys nothing changes; otherwise `key` enters
/// at its sorted slot and `new_child` immediately to its right.
pub open spec fn push_data_post(
    ks: Seq<String>,
    ch: Seq<usize>,
    key: String,
    new_child: usize,
    nks: Seq<String>,
    nch: Seq<usize>,
) -> bool {
    if exists|i: int| 0 <= i < ks.len() && key_of(ks[i]) == key_of(key) {
        nks == ks && nch == ch
    } else {
        exists|idx: int|
            {
                &&& 0 <= idx <= ks.len()
                &&& (forall|j: int| 0 <= j < idx ==> key_lt(key_of(ks[j]), key_of(key)))
                &&& (forall|j: int| idx <= j < ks.len() ==> key_lt(key_of(key), key_of(ks[j])))
                &&& nks == ks.insert(idx, key)
                &&& nch == ch.insert(idx + 1, new_child)
            }
    }
}

/// What `push_data_post` preserves: sortedness, alignment, the bound on the
/// stored handles, and the key count growing by at most one.
pub proof fn lemma_push_data_post_shape(
    ks: Seq<String>,
    ch: Seq<usize>,
    key: String,
    new_child: usize,
    nks: Seq<String>,
    nch: Seq<usize>,
    bound: nat,
)
    requires
        push_data_post(ks, ch, key, new_child, nks, nch),
        str_keys_sorted(ks),
        ch.len() == ks.len() + 1,
        forall|i: int| 0 <= i < ch.len() ==> (ch[i] as nat) < bound,
        (new_child as nat) < bound,
    ensures
        str_keys_sorted(nks),
        nch.len() == nks.len() + 1,
        forall|i: int| 0 <= i < nch.len() ==> (nch[i] as nat) < bound,
        ks.len() <= nks.len() <= ks.len() + 1,
{
    if !(exists|i: int| 0 <= i < ks.len() && key_of(ks[i]) == key_of(key)) {
        let idx = choose|idx: int|
            {
                &&& 0 <= idx <= ks.len()
                &&& (forall|j: int| 0 <= j < idx ==> key_lt(key_of(ks[j]), key_of(key)))
                &&& (forall|j: int| idx <= j < ks.len() ==> key_lt(key_of(key), key_of(ks[j])))
                &&& nks == ks.insert(idx, key)
                &&& nch == ch.insert(idx + 1, new_child)
            };
        lemma_sorted_insert_key(ks, key, idx);
        let t = ch.insert(idx + 1, new_child);
        assert forall|i: int| 0 <= i < t.len() implies (t[i] as nat) < bound by {
            if i < idx + 1 {
                assert(t[i] == ch[i]);
            } else if i == idx + 1 {
                assert(t[i] == new_child);
            } else {
                assert(t[i] == ch[i - 1]);
            }
        }
    }
}

impl BPTreeNode {
    /// The parent handle, for either variant.
    pub open spec fn parent_of(self) -> Option<usize> {
        match self {
            BPTreeNode::Internal { parent, .. } => parent,
            BPTreeNode::Leaf { parent, .. } => parent,
        }
    }

    /// The child handles of an internal node (empty for a leaf).
    pub open spec fn children_of(self) -> Seq<usize> {
        match self {
            BPTreeNode::Internal { child, .. } => child@,
            BPTreeNode::Leaf { .. } => Seq::empty(),
        }
    }

    /// The separator keys of an internal node (empty for a leaf).
    pub open spec fn skeys_of(self) -> Seq<String> {
        match self {
            BPTreeNode::Internal { keys, .. } => keys@,
            BPTreeNode::Leaf { .. } => Seq::empty(),
        }
    }

    /// The entries of a leaf (empty for an internal node).
    pub open spec fn kvs_of(self) -> Seq<BPTreeKeyValue> {
        match self {
            BPTreeNode::Internal { .. } => Seq::empty(),
            BPTreeNode::Leaf { kvs, .. } => kvs@,
        }
    }

    /// The sibling handle of a leaf (`None` for an internal node).
    pub open spec fn next_of(self) -> Option<usize> {
        match self {
            BPTreeNode::Internal { .. } => None,
            BPTreeNode::Leaf { next, .. } => next,
        }
    }

    /// How many keys (internal) or entries (leaf) the node holds.
    pub open spec fn key_count(self) -> nat {
        match self {
            BPTreeNode::Internal { keys, .. } => keys@.len(),
            BPTreeNode::Leaf { kvs, .. } => kvs@.len(),
        }
    }

    /// Local well-formedness against an arena of `bound` nodes: keys are
    /// strictly sorted, an internal node keeps one more child than keys,
    /// and every handle stored in the node is below `bound`.
    pub open spec fn wf_shape(self, bound: nat) -> bool {
        &&& (self is Internal ==> self.children_of().len() == self.skeys_of().len() + 1)
        &&& str_keys_sorted(self.skeys_of())
        &&& kvs_sorted(self.kvs_of())
        &&& (forall|i: int|
            0 <= i < self.children_of().len() ==> (self.children_of()[i] as nat) < bound)
        &&& (self.parent_of() matches Some(p) ==> (p as nat) < bound)
        &&& (self.next_of() matches Some(n) ==> (n as nat) < bound)
    }

    /// A node well shaped against a small arena is well shaped against any
    /// larger one: the bound only caps the handles stored in the node.
    pub proof fn lemma_wf_shape_widen(self, b1: nat, b2: nat)
        requires
            self.wf_shape(b1),
            b1 <= b2,
        ensures
            self.wf_shape(b2),
    {
    }

    /// Divides this node's payload into two halves, purely locally: no other
    /// node and no parent pointer of any child is touched. The mutated
    /// original keeps the lower half under its existing handle; the returned
    /// node carries the upper half. For an internal node the key at the split
    /// boundary is dropped from both halves (the caller promotes it); for a
    /// leaf the returned node's `next` is left for the caller to wire.
    pub fn split(&mut self) -> (r: BPTreeNode)
        requires
            (*old(self)) is Internal ==> {
                &&& old(self).children_of().len() == old(self).skeys_of().len() + 1
                &&& old(self).skeys_of().len() >= 2
            },
        ensures
            final(self).parent_of() == old(self).parent_of(),
            r.parent_of() == old(self).parent_of(),
            (*old(self)) is Internal ==> ({
                let ch = old(self).children_of();
                let ks = old(self).skeys_of();
                let m = ch.len() as int / 2;
                &&& (*final(self)) is Internal
                &&& r is Internal
                &&& final(self).children_of() == ch.subrange(0, m + 1)
                &&& final(self).skeys_of() == ks.subrange(0, m)
                &&& r.children_of() == ch.subrange(m + 1, ch.len() as int)
                &&& r.skeys_of() == ks.subrange(m + 1, ks.len() as int)
            }),
            (*old(self)) is Leaf ==> ({
                let kvs = old(self).kvs_of();
                let h = kvs.len() as int / 2;
                &&& (*final(self)) is Leaf
                &&& r is Leaf
                &&& final(self).next_of() == old(self).next_of()
                &&& r.next_of() == None::<usize>
                &&& final(self).kvs_of() == kvs.subrange(0, h)
                &&& r.kvs_of() == kvs.subrange(h, kvs.len() as int)
            }),
    {
        match self {
            BPTreeNode::Internal { parent, child, keys } => {
                let m = child.len() / 2;
                let mut center_and_right = keys.split_off(m);
                let right_keys = center_and_right.split_off(1);
                let right_children = child.split_off(m + 1);
                BPTreeNode::Internal { parent: *parent, child: right_children, keys: right_keys }
            },
            BPTreeNode::Leaf { parent, kvs, .. } => {
                let h = kvs.len() / 2;
                let right_kvs = kvs.split_off(h);
                BPTreeNode::Leaf { parent: *parent, next: None, kvs: right_kvs }
            },
        }
    }

    /// Points this node's parent handle at `offset` and hands `offset` back;
    /// nothing else about the node changes.
    pub fn set_parent_offset(&mut self, offset: usize) -> (r: usize)
        ensures
            r == offset,
            final(self).parent_of() == Some(offset),
            (*final(self)) is Internal <==> (*old(self)) is Internal,
            final(self).children_of() == old(self).children_of(),
            final(self).skeys_of() == old(self).skeys_of(),
            final(self).kvs_of() == old(self).kvs_of(),
            final(self).next_of() == old(self).next_of(),
    {
        match self {
            BPTreeNode::Internal { parent, .. } => {
                *parent = Some(offset);
            },
            BPTreeNode::Leaf { parent, .. } => {
                *parent = Some(offset);
            },
        }
        offset
    }

    /// Inserts the separator `key` into an internal node at its sorted
    /// position, with `new_child` as the child immediately to its right. A
    /// key already present leaves the node unchanged, and so does calling
    /// this on a leaf.
    pub fn push_data(&mut self, new_child: usize, key: String)
        requires
            (*old(self)) is Internal ==> {
                &&& str_keys_sorted(old(self).skeys_of())
                &&& old(self).children_of().len() == old(self).skeys_of().len() + 1
                &&& old(self).skeys_of().len() < usize::MAX
            },
        ensures
            (*old(self)) is Leaf ==> *final(self) == *old(self),
            (*old(self)) is Internal ==> ({
                let ks = old(self).skeys_of();
                let ch = old(self).children_of();
                &&& (*final(self)) is Internal
                &&& final(self).parent_of() == old(self).parent_of()
                &&& push_data_post(ks, ch, key, new_child, final(self).skeys_of(), final(self).children_of())
            }),
    {
        if let BPTreeNode::Internal { child, keys, .. } = self {
            let (found, idx) = find_key_slot(keys, &key);
            if !found {
                keys.insert(idx, key);
                child.insert(idx + 1, new_child);
            }
        }
    }
}

/// Binary search among sorted separator keys. Returns whether `key` is
/// present and, if so, its index; if not, the index where it would be
/// inserted to keep the keys sorted.
pub fn find_key_slot(keys: &Vec<String>, key: &String) -> (r: (bool, usize))
    requires
        str_keys_sorted(keys@),
    ensures
        r.1 <= keys@.len(),
        r.0 ==> r.1 < keys@.len() && key_of(keys@[r.1 as int]) == key_of(*key),
        forall|j: int| 0 <= j < r.1 ==> key_lt(key_of(keys@[j]), key_of(*key)),
        r.0 ==> forall|j: int| r.1 < j < keys@.len() ==> key_lt(key_of(*key), key_of(keys@[j])),
        !r.0 ==> forall|j: int| r.1 <= j < keys@.len() ==> key_lt(key_of(*key), key_of(keys@[j])),
        r.0 <==> exists|i: int| 0 <= i < keys@.len() && key_of(keys@[i]) == key_of(*key),
{
    let mut lo: usize = 0;
    let mut hi: usize = keys.len();
    while lo < hi
        invariant
            lo <= hi <= keys@.len(),
            str_keys_sorted(keys@),
            forall|j: int| 0 <= j < lo ==> key_lt(key_of(keys@[j]), key_of(*key)),
            forall|j: int| hi <= j < keys@.len() ==> key_lt(key_of(*key), key_of(keys@[j])),
        decreases hi - lo,
    {
        let mid = lo + (hi - lo) / 2;
        match key_cmp(&keys[mid], key) {
            KeyOrd::Lt => {
                proof {
                    assert forall|j: int| 0 <= j < mid + 1 implies key_lt(
                        key_of(keys@[j]),
                        key_of(*key),
                    ) by {
                        if j < mid {
                            lemma_key_lt_transitive(
                                key_of(keys@[j]),
                                key_of(keys@[mid as int]),
                                key_of(*key),
                            );
                        }
                    }
                }
                lo = mid + 1;
            },
            KeyOrd::Gt => {
                proof {
                    assert forall|j: int| mid <= j < keys@.len() implies key_lt(
                        key_of(*key),
                        key_of(keys@[j]),
                    ) by {
                        if j > mid {
                            lemma_key_lt_transitive(
                                key_of(*key),
                                key_of(keys@[mid as int]),
                                key_of(keys@[j]),
                            );
                        }
                    }
                }
                hi = mid;
            },
            KeyOrd::Eq => {
                return (true, mid);
            },
        }
    }
    proof {
        if exists|i: int| 0 <= i < keys@.len() && key_of(keys@[i]) == key_of(*key) {
            let i = choose|i: int| 0 <= i < keys@.len() && key_of(keys@[i]) == key_of(*key);
            assert(key_of(keys@[i]) == key_of(*key));
            crate::keys::lemma_key_lt_irreflexive(key_of(*key));
        }
    }
    (false, lo)
}

/// Binary search among sorted leaf entries, as `find_key_slot` does among
/// separator keys.
pub fn find_kv_slot(kvs: &Vec<BPTreeKeyValue>, key: &String) -> (r: (bool, usize))
    requires
        kvs_sorted(kvs@),
    ensures
        r.1 <= kvs@.len(),
        r.0 ==> r.1 < kvs@.len() && key_of(kvs@[r.1 as int].key) == key_of(*key),
        forall|j: int| 0 <= j < r.1 ==> key_lt(key_of(kvs@[j].key), key_of(*key)),
        r.0 ==> forall|j: int| r.1 < j < kvs@.len() ==> key_lt(key_of(*key), key_of(kvs@[j].key)),
        !r.0 ==> forall|j: int| r.1 <= j < kvs@.len() ==> key_lt(key_of(*key), key_of(kvs@[j].key)),
        r.0 <==> kvs_has_key(kvs@, key_of(*key)),
{
    let mut lo: usize = 0;
    let mut hi: usize = kvs.len();
    while lo < hi
        invariant
            lo <= hi <= kvs@.len(),
            kvs_sorted(kvs@),
            forall|j: int| 0 <= j < lo ==> key_lt(key_of(kvs@[j].key), key_of(*key)),
            forall|j: int| hi <= j < kvs@.len() ==> key_lt(key_of(*key), key_of(kvs@[j].key)),
        decreases hi - lo,
    {
        let mid = lo + (hi - lo) / 2;
        match key_cmp(&kvs[mid].key, key) {
            KeyOrd::Lt => {
                proof {
                    assert forall|j: int| 0 <= j < mid + 1 implies key_lt(
                        key_of(kvs@[j].key),
                        key_of(*key),
                    ) by {
                        if j < mid {
                            lemma_key_lt_transitive(
                                key_of(kvs@[j].key),
                                key_of(kvs@[mid as int].key),
                                key_of(*key),
                            );
                        }
                    }
                }
                lo = mid + 1;
            },
            KeyOrd::Gt => {
                proof {
                    assert forall|j: int| mid <= j < kvs@.len() implies key_lt(
                        key_of(*key),
                        key_of(kvs@[j].key),
                    ) by {
                        if j > mid {
                            lemma_key_lt_transitive(
                                key_of(*key),
                                key_of(kvs@[mid as int].key),
                                key_of(kvs@[j].key),
                            );
                        }
                    }
                }
                hi = mid;
            },
            KeyOrd::Eq => {
                return (true, mid);
            },
        }
    }
    proof {
        if kvs_has_key(kvs@, key_of(*key)) {
            crate::keys::lemma_key_lt_irreflexive(key_of(*key));
        }
    }
    (false, lo)
}

/// Inserting a key at its sorted slot keeps separator keys sorted.
pub proof fn lemma_sorted_insert_key(ks: Seq<String>, key: String, idx: int)
    requires
        str_keys_sorted(ks),
        0 <= idx <= ks.len(),
        forall|j: int| 0 <= j < idx ==> key_lt(key_of(ks[j]), key_of(key)),
        forall|j: int| idx <= j < ks.len() ==> key_lt(key_of(key), key_of(ks[j])),
    ensures
        str_keys_sorted(ks.insert(idx, key)),
{
    let t = ks.insert(idx, key);
    assert forall|i: int, j: int| 0 <= i < j < t.len() implies key_lt(
        key_of(t[i]),
        key_of(t[j]),
    ) by {
        assert(forall|m: int| 0 <= m < idx ==> t[m] == ks[m]);
        assert(forall|m: int| idx < m < t.len() ==> t[m] == ks[m - 1]);
    }
}

} // verus!
