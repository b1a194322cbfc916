//! Identifiers of aircraft, airports and flights, and their ordering.
//!
//! An identifier is a string. Identifiers are ordered as strings are:
//! lexicographically by their UTF-8 bytes.

use vstd::prelude::*;
use vstd::utf8::{encode_utf8, encode_utf8_decode_utf8};

verus! {

/// Strict lexicographic order on byte strings, compared from index `i` on.
pub open spec fn bytes_before_from(a: Seq<u8>, b: Seq<u8>, i: int) -> bool
    decreases b.len() - i,
{
    if i < 0 || i >= b.len() {
        false
    } else if i >= a.len() {
        true
    } else if a[i] != b[i] {
        a[i] < b[i]
    } else {
        bytes_before_from(a, b, i + 1)
    }
}

/// Strict lexicographic order on byte strings: at the first index where the
/// two differ `a` holds the smaller byte, or `a` is a proper prefix of `b`.
pub open spec fn bytes_before(a: Seq<u8>, b: Seq<u8>) -> bool {
    bytes_before_from(a, b, 0)
}

/// Strict order on identifiers: `a` sorts before `b`.
pub open spec fn id_before(a: Seq<char>, b: Seq<char>) -> bool {
    bytes_before(encode_utf8(a), encode_utf8(b))
}

proof fn lemma_bytes_irreflexive_from(a: Seq<u8>, i: int)
    ensures
        !bytes_before_from(a, a, i),
    decreases a.len() - i,
{
    if 0 <= i < a.len() {
        lemma_bytes_irreflexive_from(a, i + 1);
    }
}

proof fn lemma_bytes_transitive_from(a: Seq<u8>, b: Seq<u8>, c: Seq<u8>, i: int)
    requires
        bytes_before_from(a, b, i),
        bytes_before_from(b, c, i),
    ensures
        bytes_before_from(a, c, i),
    decreases c.len() - i,
{
    if i < a.len() && a[i] == b[i] && b[i] == c[i] {
        lemma_bytes_transitive_from(a, b, c, i + 1);
    }
}

proof fn lemma_bytes_connected_from(a: Seq<u8>, b: Seq<u8>, i: int)
    requires
        0 <= i <= a.len(),
        i <= b.len(),
        !bytes_before_from(a, b, i),
        !bytes_before_from(b, a, i),
    ensures
        a.len() == b.len(),
        forall|j: int| i <= j < a.len() ==> a[j] == b[j],
    decreases a.len() - i,
{
    if i < a.len() && i < b.len() {
        lemma_bytes_connected_from(a, b, i + 1);
    }
}

/// No byte string sorts before itself.
pub proof fn lemma_bytes_irreflexive(a: Seq<u8>)
    ensures
        !bytes_before(a, a),
{
    lemma_bytes_irreflexive_from(a, 0);
}

/// The order on byte strings is transitive.
pub proof fn lemma_bytes_transitive(a: Seq<u8>, b: Seq<u8>, c: Seq<u8>)
    requires
        bytes_before(a, b),
        bytes_before(b, c),
    ensures
        bytes_before(a, c),
{
    lemma_bytes_transitive_from(a, b, c, 0);
}

/// Two byte strings neither of which sorts before the other are equal.
pub proof fn lemma_bytes_connected(a: Seq<u8>, b: Seq<u8>)
    requires
        !bytes_before(a, b),
        !bytes_before(b, a),
    ensures
        a == b,
{
    lemma_bytes_connected_from(a, b, 0);
    assert(a =~= b);
}

/// No identifier sorts before itself.
pub proof fn lemma_id_irreflexive(a: Seq<char>)
    ensures
        !id_before(a, a),
{
    lemma_bytes_irreflexive(encode_utf8(a));
}

/// The order on identifiers is transitive.
pub proof fn lemma_id_transitive(a: Seq<char>, b: Seq<char>, c: Seq<char>)
    requires
        id_before(a, b),
        id_before(b, c),
    ensures
        id_before(a, c),
{
    lemma_bytes_transitive(encode_utf8(a), encode_utf8(b), encode_utf8(c));
}

/// An identifier never sorts both before and after another.
pub proof fn lemma_id_asymmetric(a: Seq<char>, b: Seq<char>)
    requires
        id_before(a, b),
    ensures
        !id_before(b, a),
        a != b,
{
    if id_before(b, a) {
        lemma_id_transitive(a, b, a);
    }
    lemma_id_irreflexive(a);
}

/// The order on identifiers is total: of two distinct identifiers one sorts
/// before the other.
pub proof fn lemma_id_connected(a: Seq<char>, b: Seq<char>)
    requires
        !id_before(a, b),
        !id_before(b, a),
    ensures
        a == b,
{
    lemma_bytes_connected(encode_utf8(a), encode_utf8(b));
    encode_utf8_decode_utf8(a);
    encode_utf8_decode_utf8(b);
}

/// Whether the identifier `a` sorts before the identifier `b`.
pub fn sorts_before(a: &String, b: &String) -> (before: bool)
    ensures
        before == id_before(a@, b@),
{
    let x = a.as_str().as_bytes();
    let y = b.as_str().as_bytes();
    let n = x.len();
    let m = y.len();
    let mut i: usize = 0;
    while i < n && i < m
        invariant
            n == x@.len(),
            m == y@.len(),
            x@ == encode_utf8(a@),
            y@ == encode_utf8(b@),
            i <= n,
            i <= m,
            id_before(a@, b@) == bytes_before_from(x@, y@, i as int),
        decreases n - i,
    {
        if x[i] != y[i] {
            return x[i] < y[i];
        }
        i = i + 1;
    }
    i < m
}

/// Whether `a` and `b` are the same identifier.
pub fn same_id(a: &String, b: &String) -> (same: bool)
    ensures
        same == (a@ == b@),
{
    *a == *b
}

/// Whether `slot` names the identifier `id`.
pub fn names(slot: &Option<String>, id: &String) -> (named: bool)
    ensures
        named == (slot is Some && slot->0@ == id@),
{
    match slot {
        Some(x) => *x == *id,
        None => false,
    }
}

/// The identifier that `slot` holds, as a sequence of characters.
pub open spec fn slot_view(slot: Option<String>) -> Option<Seq<char>> {
    match slot {
        Some(x) => Some(x@),
        None => None,
    }
}

} // verus!
