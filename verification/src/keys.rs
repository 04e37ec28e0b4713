//! Byte-lexicographic order on string keys.
//!
//! Keys are compared the way `str`'s own ordering compares them: by their
//! UTF-8 bytes, lexicographically. The spec order `key_lt` is defined over
//! byte sequences, and `key_of` maps a `String` to the byte sequence that
//! stands for it in every contract of this crate.

use vstd::prelude::*;
use vstd::utf8::encode_utf8;
use vstd::utf8::encode_utf8_decode_utf8;

verus! {

/// The byte sequence a key string stands for in specifications.
pub open spec fn key_of(s: String) -> Seq<u8> {
    encode_utf8(s@)
}

/// Strict lexicographic order on byte sequences.
pub open spec fn key_lt(a: Seq<u8>, b: Seq<u8>) -> bool
    decreases a.len(),
{
    if b.len() == 0 {
        false
    } else if a.len() == 0 {
        true
    } else if a[0] < b[0] {
        true
    } else if b[0] < a[0] {
        false
    } else {
        key_lt(a.drop_first(), b.drop_first())
    }
}

/// Reflexive closure of `key_lt`.
pub open spec fn key_le(a: Seq<u8>, b: Seq<u8>) -> bool {
    key_lt(a, b) || a == b
}

/// No byte sequence is lexicographically below itself.
pub proof fn lemma_key_lt_irreflexive(a: Seq<u8>)
    ensures
        !key_lt(a, a),
    decreases a.len(),
{
    if a.len() > 0 {
        lemma_key_lt_irreflexive(a.drop_first());
    }
}

/// The order is asymmetric: at most one of `key_lt(a, b)` and `key_lt(b, a)` holds.
pub proof fn lemma_key_lt_asymmetric(a: Seq<u8>, b: Seq<u8>)
    ensures
        !(key_lt(a, b) && key_lt(b, a)),
    decreases a.len(),
{
    if a.len() > 0 && b.len() > 0 && a[0] == b[0] {
        lemma_key_lt_asymmetric(a.drop_first(), b.drop_first());
    }
}

/// The order is total: two byte sequences are ordered or equal.
pub proof fn lemma_key_lt_total(a: Seq<u8>, b: Seq<u8>)
    ensures
        key_lt(a, b) || key_lt(b, a) || a == b,
    decreases a.len(),
{
    if a.len() == 0 && b.len() == 0 {
        assert(a =~= b);
    } else if a.len() > 0 && b.len() > 0 && a[0] == b[0] {
        lemma_key_lt_total(a.drop_first(), b.drop_first());
        if a.drop_first() == b.drop_first() {
            assert(a.drop_first().len() == b.drop_first().len());
            assert(a.len() == b.len());
            assert forall|j: int| 0 <= j < a.len() implies a[j] == b[j] by {
                if j > 0 {
                    assert(a.drop_first()[j - 1] == a[j]);
                    assert(b.drop_first()[j - 1] == b[j]);
                }
            }
            assert(a =~= b);
        }
    }
}

/// The order is transitive.
pub proof fn lemma_key_lt_transitive(a: Seq<u8>, b: Seq<u8>, c: Seq<u8>)
    requires
        key_lt(a, b),
        key_lt(b, c),
    ensures
        key_lt(a, c),
    decreases a.len() + b.len() + c.len(),
{
    if a.len() > 0 && b.len() > 0 && c.len() > 0 && a[0] == b[0] && b[0] == c[0] {
        lemma_key_lt_transitive(a.drop_first(), b.drop_first(), c.drop_first());
    }
}

/// Two sequences that agree up to position `i` and differ there are ordered
/// by the bytes at `i`.
pub proof fn lemma_key_lt_point(a: Seq<u8>, b: Seq<u8>, i: int)
    requires
        0 <= i < a.len(),
        i < b.len(),
        forall|j: int| 0 <= j < i ==> a[j] == b[j],
        a[i] < b[i],
    ensures
        key_lt(a, b),
    decreases i,
{
    if i > 0 {
        lemma_key_lt_point(a.drop_first(), b.drop_first(), i - 1);
    }
}

/// A proper prefix is lexicographically below the longer sequence.
pub proof fn lemma_key_lt_prefix(a: Seq<u8>, b: Seq<u8>)
    requires
        a.len() < b.len(),
        forall|j: int| 0 <= j < a.len() ==> a[j] == b[j],
    ensures
        key_lt(a, b),
    decreases a.len(),
{
    if a.len() > 0 {
        lemma_key_lt_prefix(a.drop_first(), b.drop_first());
    }
}

/// Equal key byte sequences come only from strings with equal contents:
/// UTF-8 encoding is injective.
pub proof fn lemma_key_of_injective(a: String, b: String)
    requires
        key_of(a) == key_of(b),
    ensures
        a@ == b@,
{
    encode_utf8_decode_utf8(a@);
    encode_utf8_decode_utf8(b@);
}

/// Outcome of comparing two keys.
pub enum KeyOrd {
    Lt,
    Eq,
    Gt,
}

/// Compares two keys by their UTF-8 bytes, lexicographically; the result
/// mirrors `key_lt` on the keys' byte sequences.
pub fn key_cmp(a: &String, b: &String) -> (r: KeyOrd)
    ensures
        r is Lt <==> key_lt(key_of(*a), key_of(*b)),
        r is Gt <==> key_lt(key_of(*b), key_of(*a)),
        r is Eq <==> key_of(*a) == key_of(*b),
{
    let ab = a.as_str().as_bytes();
    let bb = b.as_str().as_bytes();
    let alen = ab.len();
    let blen = bb.len();
    let n = if alen < blen {
        alen
    } else {
        blen
    };
    let mut i: usize = 0;
    while i < n
        invariant
            n <= alen == ab@.len(),
            n <= blen == bb@.len(),
            ab@ == key_of(*a),
            bb@ == key_of(*b),
            i <= n,
            forall|j: int| 0 <= j < i ==> ab@[j] == bb@[j],
        decreases n - i,
    {
        let x = ab[i];
        let y = bb[i];
        if x < y {
            proof {
                lemma_key_lt_point(ab@, bb@, i as int);
                lemma_key_lt_asymmetric(ab@, bb@);
                lemma_key_lt_irreflexive(ab@);
            }
            return KeyOrd::Lt;
        }
        if y < x {
            proof {
                lemma_key_lt_point(bb@, ab@, i as int);
                lemma_key_lt_asymmetric(ab@, bb@);
                lemma_key_lt_irreflexive(ab@);
            }
            return KeyOrd::Gt;
        }
        i = i + 1;
    }
    if alen < blen {
        proof {
            lemma_key_lt_prefix(ab@, bb@);
            lemma_key_lt_asymmetric(ab@, bb@);
            lemma_key_lt_irreflexive(ab@);
        }
        KeyOrd::Lt
    } else if blen < alen {
        proof {
            lemma_key_lt_prefix(bb@, ab@);
            lemma_key_lt_asymmetric(ab@, bb@);
            lemma_key_lt_irreflexive(ab@);
        }
        KeyOrd::Gt
    } else {
        proof {
            assert(ab@ =~= bb@);
            lemma_key_lt_irreflexive(ab@);
        }
        KeyOrd::Eq
    }
}

} // verus!
