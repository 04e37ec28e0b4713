//! The mathematical model of a leaf's entry list.
//!
//! `upsert_kvs` and `lookup_kvs` say what upserting and looking up a key
//! mean on a sequence of entries; the leaf-level contracts of the tree are
//! stated against them. The proof functions below are the laws the tree's
//! operations inherit: an upsert keeps entries sorted, repeating it changes
//! nothing, a second value for the same key overwrites the first without
//! changing the entry count, and a lookup finds exactly the last value
//! upserted for its key.

use vstd::prelude::*;

use crate::keys::key_lt;
use crate::keys::key_of;
use crate::keys::lemma_key_lt_asymmetric;
use crate::keys::lemma_key_lt_irreflexive;
use crate::keys::lemma_key_lt_transitive;
use crate::node::BPTreeKeyValue;
use crate::node::kvs_has_key;
use crate::node::kvs_sorted;

verus! {

/// The entry list after upserting `kv`: an entry with the same key is
/// replaced in place, any other key is inserted at its sorted position.
pub open spec fn upsert_kvs(s: Seq<BPTreeKeyValue>, kv: BPTreeKeyValue) -> Seq<BPTreeKeyValue>
    decreases s.len(),
{
    if s.len() == 0 {
        seq![kv]
    } else if key_lt(key_of(kv.key), key_of(s[0].key)) {
        seq![kv] + s
    } else if key_of(kv.key) == key_of(s[0].key) {
        seq![kv] + s.drop_first()
    } else {
        seq![s[0]] + upsert_kvs(s.drop_first(), kv)
    }
}

/// The entry holding key bytes `k`, if any.
pub open spec fn lookup_kvs(s: Seq<BPTreeKeyValue>, k: Seq<u8>) -> Option<BPTreeKeyValue>
    decreases s.len(),
{
    if s.len() == 0 {
        None
    } else if key_of(s[0].key) == k {
        Some(s[0])
    } else {
        lookup_kvs(s.drop_first(), k)
    }
}

/// On a sorted entry list, an upsert whose key sits at slot `idx` (present)
/// is exactly a pointwise update there.
pub proof fn lemma_upsert_is_update(s: Seq<BPTreeKeyValue>, kv: BPTreeKeyValue, idx: int)
    requires
        kvs_sorted(s),
        0 <= idx < s.len(),
        key_of(s[idx].key) == key_of(kv.key),
    ensures
        upsert_kvs(s, kv) == s.update(idx, kv),
    decreases idx,
{
    lemma_key_lt_irreflexive(key_of(kv.key));
    if idx == 0 {
        assert(upsert_kvs(s, kv) =~= s.update(0, kv));
    } else {
        lemma_key_lt_asymmetric(key_of(s[0].key), key_of(kv.key));
        assert(kvs_sorted(s.drop_first()));
        lemma_upsert_is_update(s.drop_first(), kv, idx - 1);
        assert(upsert_kvs(s, kv) =~= s.update(idx, kv));
    }
}

/// On a sorted entry list, an upsert whose key is absent and belongs at slot
/// `idx` is exactly an insertion there.
pub proof fn lemma_upsert_is_insert(s: Seq<BPTreeKeyValue>, kv: BPTreeKeyValue, idx: int)
    requires
        0 <= idx <= s.len(),
        forall|j: int| 0 <= j < idx ==> key_lt(key_of(s[j].key), key_of(kv.key)),
        forall|j: int| idx <= j < s.len() ==> key_lt(key_of(kv.key), key_of(s[j].key)),
    ensures
        upsert_kvs(s, kv) == s.insert(idx, kv),
    decreases idx,
{
    lemma_key_lt_irreflexive(key_of(kv.key));
    if idx == 0 {
        if s.len() > 0 {
            lemma_key_lt_asymmetric(key_of(kv.key), key_of(s[0].key));
        }
        assert(upsert_kvs(s, kv) =~= s.insert(0, kv));
    } else {
        lemma_key_lt_asymmetric(key_of(s[0].key), key_of(kv.key));
        lemma_upsert_is_insert(s.drop_first(), kv, idx - 1);
        assert(upsert_kvs(s, kv) =~= s.insert(idx, kv));
    }
}

/// An upsert keeps the entry list sorted.
pub proof fn lemma_upsert_sorted(s: Seq<BPTreeKeyValue>, kv: BPTreeKeyValue)
    requires
        kvs_sorted(s),
    ensures
        kvs_sorted(upsert_kvs(s, kv)),
    decreases s.len(),
{
    let t = upsert_kvs(s, kv);
    if s.len() == 0 {
    } else if key_lt(key_of(kv.key), key_of(s[0].key)) {
        assert forall|i: int, j: int| 0 <= i < j < t.len() implies key_lt(
            key_of(t[i].key),
            key_of(t[j].key),
        ) by {
            if i == 0 && j > 1 {
                lemma_key_lt_transitive(key_of(kv.key), key_of(s[0].key), key_of(t[j].key));
            }
        }
    } else if key_of(kv.key) == key_of(s[0].key) {
        assert forall|i: int, j: int| 0 <= i < j < t.len() implies key_lt(
            key_of(t[i].key),
            key_of(t[j].key),
        ) by {
            assert(forall|m: int| 1 <= m < t.len() ==> t[m] == s[m]);
        }
    } else {
        assert(kvs_sorted(s.drop_first()));
        lemma_upsert_sorted(s.drop_first(), kv);
        crate::keys::lemma_key_lt_total(key_of(kv.key), key_of(s[0].key));
        let u = upsert_kvs(s.drop_first(), kv);
        assert forall|i: int, j: int| 0 <= i < j < t.len() implies key_lt(
            key_of(t[i].key),
            key_of(t[j].key),
        ) by {
            if i == 0 {
                lemma_upsert_member(s.drop_first(), kv, j - 1);
            }
        }
    }
}

/// Every entry of an upserted list is either the upserted entry or one that
/// was already there.
pub proof fn lemma_upsert_member(s: Seq<BPTreeKeyValue>, kv: BPTreeKeyValue, j: int)
    requires
        0 <= j < upsert_kvs(s, kv).len(),
    ensures
        upsert_kvs(s, kv)[j] == kv || (exists|m: int|
            0 <= m < s.len() && upsert_kvs(s, kv)[j] == s[m]),
    decreases s.len(),
{
    if s.len() == 0 {
    } else if key_lt(key_of(kv.key), key_of(s[0].key)) {
    } else if key_of(kv.key) == key_of(s[0].key) {
    } else {
        if j > 0 {
            lemma_upsert_member(s.drop_first(), kv, j - 1);
        }
    }
}

/// An upsert grows the entry list by one entry when its key was absent and
/// leaves the length unchanged when it was present.
pub proof fn lemma_upsert_len(s: Seq<BPTreeKeyValue>, kv: BPTreeKeyValue)
    requires
        kvs_sorted(s),
    ensures
        kvs_has_key(s, key_of(kv.key)) ==> upsert_kvs(s, kv).len() == s.len(),
        !kvs_has_key(s, key_of(kv.key)) ==> upsert_kvs(s, kv).len() == s.len() + 1,
    decreases s.len(),
{
    lemma_key_lt_irreflexive(key_of(kv.key));
    if s.len() == 0 {
    } else if key_lt(key_of(kv.key), key_of(s[0].key)) {
        if kvs_has_key(s, key_of(kv.key)) {
            let i = choose|i: int| 0 <= i < s.len() && key_of(s[i].key) == key_of(kv.key);
            if i > 0 {
                lemma_key_lt_transitive(key_of(kv.key), key_of(s[0].key), key_of(s[i].key));
            }
        }
    } else if key_of(kv.key) == key_of(s[0].key) {
        assert(kvs_has_key(s, key_of(kv.key)));
    } else {
        assert(kvs_sorted(s.drop_first()));
        lemma_upsert_len(s.drop_first(), kv);
        if kvs_has_key(s, key_of(kv.key)) {
            let i = choose|i: int| 0 <= i < s.len() && key_of(s[i].key) == key_of(kv.key);
            assert(s.drop_first()[i - 1] == s[i]);
            assert(kvs_has_key(s.drop_first(), key_of(kv.key)));
        } else {
            assert(forall|m: int|
                0 <= m < s.drop_first().len() ==> s.drop_first()[m] == s[m + 1]);
            assert(!kvs_has_key(s.drop_first(), key_of(kv.key)));
        }
    }
}

/// Upserting the same entry twice yields the same list as upserting it once.
pub proof fn lemma_upsert_idempotent(s: Seq<BPTreeKeyValue>, kv: BPTreeKeyValue)
    ensures
        upsert_kvs(upsert_kvs(s, kv), kv) == upsert_kvs(s, kv),
    decreases s.len(),
{
    lemma_key_lt_irreflexive(key_of(kv.key));
    let t = upsert_kvs(s, kv);
    if s.len() == 0 {
        assert(upsert_kvs(t, kv) =~= t);
    } else if key_lt(key_of(kv.key), key_of(s[0].key)) {
        assert(upsert_kvs(t, kv) =~= t);
    } else if key_of(kv.key) == key_of(s[0].key) {
        assert(upsert_kvs(t, kv) =~= t);
    } else {
        lemma_key_lt_asymmetric(key_of(s[0].key), key_of(kv.key));
        lemma_upsert_idempotent(s.drop_first(), kv);
        assert(t.drop_first() =~= upsert_kvs(s.drop_first(), kv));
        assert(upsert_kvs(t, kv) =~= t);
    }
}

/// Upserting a second value for the same key yields the same list as
/// upserting only the second value: the first is overwritten outright.
pub proof fn lemma_upsert_overwrite(s: Seq<BPTreeKeyValue>, kv1: BPTreeKeyValue, kv2: BPTreeKeyValue)
    requires
        key_of(kv1.key) == key_of(kv2.key),
    ensures
        upsert_kvs(upsert_kvs(s, kv1), kv2) == upsert_kvs(s, kv2),
    decreases s.len(),
{
    lemma_key_lt_irreflexive(key_of(kv1.key));
    let t = upsert_kvs(s, kv1);
    if s.len() == 0 {
        assert(upsert_kvs(t, kv2) =~= upsert_kvs(s, kv2));
    } else if key_lt(key_of(kv1.key), key_of(s[0].key)) {
        assert(upsert_kvs(t, kv2) =~= upsert_kvs(s, kv2));
    } else if key_of(kv1.key) == key_of(s[0].key) {
        assert(upsert_kvs(t, kv2) =~= upsert_kvs(s, kv2));
    } else {
        lemma_key_lt_asymmetric(key_of(s[0].key), key_of(kv1.key));
        lemma_upsert_overwrite(s.drop_first(), kv1, kv2);
        assert(t.drop_first() =~= upsert_kvs(s.drop_first(), kv1));
        assert(upsert_kvs(t, kv2) =~= upsert_kvs(s, kv2));
    }
}

/// After an upsert, looking up the upserted key finds exactly the upserted
/// entry, and looking up any other key finds what it found before.
pub proof fn lemma_upsert_lookup(s: Seq<BPTreeKeyValue>, kv: BPTreeKeyValue, k: Seq<u8>)
    ensures
        lookup_kvs(upsert_kvs(s, kv), key_of(kv.key)) == Some(kv),
        k != key_of(kv.key) ==> lookup_kvs(upsert_kvs(s, kv), k) == lookup_kvs(s, k),
    decreases s.len(),
{
    reveal_with_fuel(lookup_kvs, 3);
    let t = upsert_kvs(s, kv);
    if s.len() == 0 {
        assert(t[0] == kv);
    } else if key_lt(key_of(kv.key), key_of(s[0].key)) {
        lemma_key_lt_irreflexive(key_of(kv.key));
        assert(t[0] == kv);
        assert(t.drop_first() =~= s);
    } else if key_of(kv.key) == key_of(s[0].key) {
        assert(t[0] == kv);
        assert(t.drop_first() =~= s.drop_first());
    } else {
        lemma_key_lt_irreflexive(key_of(kv.key));
        lemma_upsert_lookup(s.drop_first(), kv, k);
        assert(t[0] == s[0]);
        assert(t.drop_first() =~= upsert_kvs(s.drop_first(), kv));
    }
}

/// A lookup on a list without key bytes `k` finds nothing.
pub proof fn lemma_lookup_absent(s: Seq<BPTreeKeyValue>, k: Seq<u8>)
    requires
        !kvs_has_key(s, k),
    ensures
        lookup_kvs(s, k) is None,
    decreases s.len(),
{
    if s.len() > 0 {
        assert(forall|m: int| 0 <= m < s.drop_first().len() ==> s.drop_first()[m] == s[m + 1]);
        lemma_lookup_absent(s.drop_first(), k);
    }
}

/// On a sorted list, a lookup of the key at slot `idx` finds that entry.
pub proof fn lemma_lookup_at(s: Seq<BPTreeKeyValue>, idx: int)
    requires
        kvs_sorted(s),
        0 <= idx < s.len(),
    ensures
        lookup_kvs(s, key_of(s[idx].key)) == Some(s[idx]),
    decreases idx,
{
    if idx > 0 {
        lemma_key_lt_irreflexive(key_of(s[idx].key));
        assert(kvs_sorted(s.drop_first()));
        lemma_lookup_at(s.drop_first(), idx - 1);
    }
}

} // verus!
