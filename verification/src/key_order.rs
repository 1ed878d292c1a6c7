//! The order of station keys: byte by byte, a prefix before what extends it.

use vstd::prelude::*;

verus! {

/// `a` comes before `b`: at the first place where they differ `a` has the
/// smaller byte, or `a` ends there and `b` goes on.
pub open spec fn key_before(a: Seq<u8>, b: Seq<u8>) -> bool
    decreases a.len(),
{
    if b.len() == 0 {
        false
    } else if a.len() == 0 {
        true
    } else if a[0] != b[0] {
        a[0] < b[0]
    } else {
        key_before(a.drop_first(), b.drop_first())
    }
}

/// How one key stands to another.
#[derive(Clone, Copy, Debug, PartialEq, Eq, Structural)]
pub enum KeyRank {
    Before,
    Same,
    After,
}

/// Of two keys, one comes before the other or they are the same key, and
/// only one of the three holds.
pub proof fn lemma_key_order_total(a: Seq<u8>, b: Seq<u8>)
    ensures
        key_before(a, b) || a == b || key_before(b, a),
        !(key_before(a, b) && key_before(b, a)),
        !(key_before(a, b) && a == b),
    decreases a.len(),
{
    if a.len() == 0 || b.len() == 0 {
        if a.len() == 0 && b.len() == 0 {
            assert(a =~= b);
        }
    } else if a[0] == b[0] {
        lemma_key_order_total(a.drop_first(), b.drop_first());
        if a.drop_first() == b.drop_first() {
            assert(a =~= seq![a[0]] + a.drop_first());
            assert(b =~= seq![b[0]] + b.drop_first());
        }
    }
}

/// A key before a second one that is before a third is before the third.
pub proof fn lemma_key_order_transitive(a: Seq<u8>, b: Seq<u8>, c: Seq<u8>)
    requires
        key_before(a, b),
        key_before(b, c),
    ensures
        key_before(a, c),
    decreases a.len(),
{
    if a.len() > 0 && a[0] == b[0] && b[0] == c[0] {
        lemma_key_order_transitive(a.drop_first(), b.drop_first(), c.drop_first());
    }
}

/// Finds how the key `a` stands to the key `b`.
pub fn rank_keys(a: &[u8], b: &[u8]) -> (rank: KeyRank)
    ensures
        rank == KeyRank::Before <==> key_before(a@, b@),
        rank == KeyRank::Same <==> a@ == b@,
        rank == KeyRank::After <==> key_before(b@, a@),
{
    proof {
        lemma_key_order_total(a@, b@);
        assert(a@.skip(0) =~= a@);
        assert(b@.skip(0) =~= b@);
    }
    let mut i: usize = 0;
    while i < a.len() && i < b.len()
        invariant
            i <= a@.len(),
            i <= b@.len(),
            key_before(a@, b@) == key_before(a@.skip(i as int), b@.skip(i as int)),
            key_before(b@, a@) == key_before(b@.skip(i as int), a@.skip(i as int)),
        decreases a@.len() - i,
    {
        if a[i] < b[i] {
            return KeyRank::Before;
        }
        if a[i] > b[i] {
            return KeyRank::After;
        }
        proof {
            assert(a@.skip(i as int).drop_first() =~= a@.skip(i as int + 1));
            assert(b@.skip(i as int).drop_first() =~= b@.skip(i as int + 1));
        }
        i = i + 1;
    }
    if a.len() < b.len() {
        KeyRank::Before
    } else if a.len() > b.len() {
        KeyRank::After
    } else {
        KeyRank::Same
    }
}

} // verus!
