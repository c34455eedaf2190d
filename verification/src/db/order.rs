//! The order of index keys: keys are ordered as their UTF-8 bytes are, byte
//! by byte, a prefix before what it is a prefix of.

use vstd::prelude::*;
use crate::text::{bytes_of, lemma_utf8_round_trip, utf8_bytes};

verus! {

/// How one key stands to another.
#[derive(Debug, Clone, Copy, PartialEq, Eq, Structural)]
pub enum Place {
    Before,
    Same,
    After,
}

/// True when `a` comes before `b` byte by byte.
pub open spec fn bytes_before(a: Seq<u8>, b: Seq<u8>) -> bool
    decreases a.len(),
{
    if b.len() == 0 {
        false
    } else if a.len() == 0 {
        true
    } else if a[0] != b[0] {
        a[0] < b[0]
    } else {
        bytes_before(a.drop_first(), b.drop_first())
    }
}

/// True when the key `a` comes before the key `b`.
pub open spec fn key_before(a: Seq<char>, b: Seq<char>) -> bool {
    bytes_before(utf8_bytes(a), utf8_bytes(b))
}

/// Of two sequences of bytes, one comes before the other or they are the
/// same, and only one of the three holds.
pub proof fn lemma_bytes_order(a: Seq<u8>, b: Seq<u8>)
    ensures
        bytes_before(a, b) || bytes_before(b, a) || a == b,
        !(bytes_before(a, b) && bytes_before(b, a)),
        a == b ==> !bytes_before(a, b),
    decreases a.len(),
{
    if a.len() > 0 && b.len() > 0 {
        lemma_bytes_order(a.drop_first(), b.drop_first());
        if a[0] == b[0] && a.drop_first() == b.drop_first() {
            assert(a =~= seq![a[0]] + a.drop_first());
            assert(b =~= seq![b[0]] + b.drop_first());
        }
    } else if a.len() == 0 && b.len() == 0 {
        assert(a =~= b);
    }
}

/// What comes before something that comes before a third comes before the
/// third.
pub proof fn lemma_bytes_transitive(a: Seq<u8>, b: Seq<u8>, c: Seq<u8>)
    requires
        bytes_before(a, b),
        bytes_before(b, c),
    ensures
        bytes_before(a, c),
    decreases a.len(),
{
    if a.len() > 0 && b.len() > 0 && c.len() > 0 {
        if a[0] == b[0] && b[0] == c[0] {
            lemma_bytes_transitive(a.drop_first(), b.drop_first(), c.drop_first());
        }
    }
}

/// Different keys have different UTF-8 forms.
pub proof fn lemma_key_bytes_differ(a: Seq<char>, b: Seq<char>)
    ensures
        utf8_bytes(a) == utf8_bytes(b) ==> a == b,
{
    lemma_utf8_round_trip(a);
    lemma_utf8_round_trip(b);
}

/// Of two keys, one comes before the other or they are the same, and only
/// one of the three holds.
pub proof fn lemma_key_order(a: Seq<char>, b: Seq<char>)
    ensures
        key_before(a, b) || key_before(b, a) || a == b,
        !(key_before(a, b) && key_before(b, a)),
        a == b ==> !key_before(a, b),
{
    lemma_bytes_order(utf8_bytes(a), utf8_bytes(b));
    lemma_key_bytes_differ(a, b);
}

/// The order of keys is transitive.
pub proof fn lemma_key_transitive(a: Seq<char>, b: Seq<char>, c: Seq<char>)
    requires
        key_before(a, b),
        key_before(b, c),
    ensures
        key_before(a, c),
{
    lemma_bytes_transitive(utf8_bytes(a), utf8_bytes(b), utf8_bytes(c));
}

/// How the bytes `a` stand to the bytes `b`.
pub fn place_of_bytes(a: &[u8], b: &[u8]) -> (place: Place)
    ensures
        place == Place::Before <==> bytes_before(a@, b@),
        place == Place::After <==> bytes_before(b@, a@),
        place == Place::Same <==> a@ == b@,
{
    let mut i: usize = 0;
    proof {
        assert(a@.skip(0) =~= a@);
        assert(b@.skip(0) =~= b@);
        lemma_bytes_order(a@, b@);
    }
    while i < a.len() && i < b.len()
        invariant
            i <= a.len(),
            i <= b.len(),
            bytes_before(a@, b@) == bytes_before(a@.skip(i as int), b@.skip(i as int)),
            bytes_before(b@, a@) == bytes_before(b@.skip(i as int), a@.skip(i as int)),
        decreases a.len() - i,
    {
        proof {
            assert(a@.skip(i as int).drop_first() =~= a@.skip(i + 1));
            assert(b@.skip(i as int).drop_first() =~= b@.skip(i + 1));
            assert(a@.skip(i as int)[0] == a@[i as int]);
            assert(b@.skip(i as int)[0] == b@[i as int]);
            lemma_bytes_order(a@, b@);
        }
        if a[i] < b[i] {
            return Place::Before;
        }
        if a[i] > b[i] {
            return Place::After;
        }
        i += 1;
    }
    proof {
        lemma_bytes_order(a@, b@);
        lemma_bytes_order(a@.skip(i as int), b@.skip(i as int));
    }
    if i < b.len() {
        Place::Before
    } else if i < a.len() {
        Place::After
    } else {
        Place::Same
    }
}

/// How the key `a` stands to the key `b`.
pub fn place_of(a: &str, b: &str) -> (place: Place)
    ensures
        place == Place::Before <==> key_before(a@, b@),
        place == Place::After <==> key_before(b@, a@),
        place == Place::Same <==> a@ == b@,
{
    proof {
        lemma_key_order(a@, b@);
    }
    place_of_bytes(bytes_of(a), bytes_of(b))
}

} // verus!
