//! Byte strings: what a `bytes::Bytes` buffer holds, and the order of keys.

use bytes::Bytes;
use vstd::prelude::*;

verus! {

/// `bytes::Bytes`, a buffer of bytes that is cheap to clone. Nothing is
/// known of a buffer but what [`contents`] names.
#[verifier::external_type_specification]
#[verifier::external_body]
pub struct ExBytes(bytes::Bytes);

/// The bytes that a buffer holds, first to last.
pub uninterp spec fn contents(buffer: Bytes) -> Seq<u8>;

/// `Bytes::new` makes a buffer that holds nothing.
pub assume_specification[ Bytes::new ]() -> (buffer: Bytes)
    ensures
        contents(buffer) == Seq::<u8>::empty(),
;

/// `Bytes::copy_from_slice` makes a buffer that holds a copy of the slice.
pub assume_specification[ Bytes::copy_from_slice ](data: &[u8]) -> (buffer: Bytes)
    ensures
        contents(buffer) == data@,
;

/// `Bytes::len` is the number of bytes held.
pub assume_specification[ Bytes::len ](buffer: &Bytes) -> (len: usize)
    ensures
        len == contents(*buffer).len(),
;

/// Cloning a buffer gives a second handle on the same bytes.
pub assume_specification[ <Bytes as Clone>::clone ](buffer: &Bytes) -> (copy: Bytes)
    ensures
        contents(copy) == contents(*buffer),
;

/// Viewed as a slice, a buffer shows exactly the bytes it holds.
pub assume_specification<'a>[ <Bytes as AsRef<[u8]>>::as_ref ](buffer: &'a Bytes) -> (slice: &'a [u8])
    ensures
        slice@ == contents(*buffer),
;

/// Whether `a` and `b` hold the same bytes at every position before `at`,
/// a position that both reach.
pub open spec fn agree_before(a: Seq<u8>, b: Seq<u8>, at: int) -> bool {
    &&& 0 <= at <= a.len()
    &&& at <= b.len()
    &&& forall|j: int| 0 <= j < at ==> a[j] == b[j]
}

/// Whether `a` sorts before `b` because of what stands at position `at`:
/// `a` ends there and `b` goes on, or `a` has the smaller byte.
pub open spec fn decides_at(a: Seq<u8>, b: Seq<u8>, at: int) -> bool {
    &&& agree_before(a, b, at)
    &&& at < b.len()
    &&& at < a.len() ==> a[at] < b[at]
}

/// Lexicographic order of byte strings: `a` comes strictly before `b` when
/// it is a proper prefix of `b`, or has the smaller byte at the first
/// position where the two differ.
pub open spec fn precedes(a: Seq<u8>, b: Seq<u8>) -> bool {
    exists|at: int| decides_at(a, b, at)
}

/// How one key stands to another in the lexicographic order.
#[derive(Clone, Copy, Debug, PartialEq, Eq, Structural)]
pub enum KeyOrder {
    Before,
    Same,
    After,
}

/// The place of `a` relative to `b`.
pub open spec fn key_order(a: Seq<u8>, b: Seq<u8>) -> KeyOrder {
    if precedes(a, b) {
        KeyOrder::Before
    } else if a == b {
        KeyOrder::Same
    } else {
        KeyOrder::After
    }
}

/// No byte string comes before itself.
pub proof fn lemma_precedes_irreflexive(a: Seq<u8>)
    ensures
        !precedes(a, a),
{
}

/// The order is transitive.
pub proof fn lemma_precedes_transitive(a: Seq<u8>, b: Seq<u8>, c: Seq<u8>)
    requires
        precedes(a, b),
        precedes(b, c),
    ensures
        precedes(a, c),
{
    let i = choose|at: int| decides_at(a, b, at);
    let j = choose|at: int| decides_at(b, c, at);
    if i <= j {
        assert(decides_at(a, c, i));
    } else {
        assert(decides_at(a, c, j));
    }
}

/// Of two byte strings at most one comes before the other.
pub proof fn lemma_precedes_asymmetric(a: Seq<u8>, b: Seq<u8>)
    requires
        precedes(a, b),
    ensures
        !precedes(b, a),
        a != b,
{
    if precedes(b, a) {
        lemma_precedes_transitive(a, b, a);
    }
}

/// The first position from `from` on where `a` and `b` stop agreeing.
pub open spec fn first_difference(a: Seq<u8>, b: Seq<u8>, from: int) -> int
    decreases a.len() - from,
{
    if 0 <= from < a.len() && from < b.len() && a[from] == b[from] {
        first_difference(a, b, from + 1)
    } else {
        from
    }
}

proof fn lemma_first_difference(a: Seq<u8>, b: Seq<u8>, from: int)
    requires
        agree_before(a, b, from),
    ensures
        agree_before(a, b, first_difference(a, b, from)),
        ({
            let at = first_difference(a, b, from);
            at < a.len() && at < b.len() ==> a[at] != b[at]
        }),
    decreases a.len() - from,
{
    if from < a.len() && from < b.len() && a[from] == b[from] {
        lemma_first_difference(a, b, from + 1);
    }
}

/// Two different byte strings are ordered one way or the other.
pub proof fn lemma_precedes_total(a: Seq<u8>, b: Seq<u8>)
    ensures
        a == b || precedes(a, b) || precedes(b, a),
{
    lemma_first_difference(a, b, 0);
    let at = first_difference(a, b, 0);
    if at == a.len() && at == b.len() {
        assert(a =~= b);
    } else if at < b.len() && (at == a.len() || a[at] < b[at]) {
        assert(decides_at(a, b, at));
    } else {
        assert(decides_at(b, a, at));
    }
}

/// Compares two keys byte by byte.
pub fn compare(a: &[u8], b: &[u8]) -> (order: KeyOrder)
    ensures
        order == key_order(a@, b@),
        order == KeyOrder::After <==> precedes(b@, a@),
{
    let mut at: usize = 0;
    while at < a.len() && at < b.len()
        invariant
            agree_before(a@, b@, at as int),
        decreases a.len() - at,
    {
        if a[at] < b[at] {
            assert(decides_at(a@, b@, at as int));
            return KeyOrder::Before;
        }
        if a[at] > b[at] {
            assert(decides_at(b@, a@, at as int));
            proof {
                lemma_precedes_asymmetric(b@, a@);
            }
            return KeyOrder::After;
        }
        at += 1;
    }
    if at < b.len() {
        assert(decides_at(a@, b@, at as int));
        KeyOrder::Before
    } else if at < a.len() {
        assert(decides_at(b@, a@, at as int));
        proof {
            lemma_precedes_asymmetric(b@, a@);
        }
        KeyOrder::After
    } else {
        assert(a@ =~= b@);
        proof {
            lemma_precedes_irreflexive(a@);
        }
        KeyOrder::Same
    }
}

} // verus!
