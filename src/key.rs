//! The order on keys: byte strings compared lexicographically.
use vstd::prelude::*;

verus! {

/// `a` sorts strictly before `b`: at the first position where they differ
/// `a` holds the smaller byte, or `a` is a proper prefix of `b`.
pub open spec fn key_lt(a: Seq<u8>, b: Seq<u8>) -> bool
    decreases a.len(),
{
    if b.len() == 0 {
        false
    } else if a.len() == 0 {
        true
    } else if a[0] != b[0] {
        a[0] < b[0]
    } else {
        key_lt(a.drop_first(), b.drop_first())
    }
}

/// No key sorts before itself.
pub proof fn lemma_key_lt_irreflexive(a: Seq<u8>)
    ensures
        !key_lt(a, a),
    decreases a.len(),
{
    if a.len() > 0 {
        lemma_key_lt_irreflexive(a.drop_first());
    }
}

/// Two keys never sort before each other.
pub proof fn lemma_key_lt_asymmetric(a: Seq<u8>, b: Seq<u8>)
    ensures
        !(key_lt(a, b) && key_lt(b, a)),
    decreases a.len(),
{
    if a.len() > 0 && b.len() > 0 && a[0] == b[0] {
        lemma_key_lt_asymmetric(a.drop_first(), b.drop_first());
    }
}

/// The order is transitive.
pub proof fn lemma_key_lt_transitive(a: Seq<u8>, b: Seq<u8>, c: Seq<u8>)
    requires
        key_lt(a, b),
        key_lt(b, c),
    ensures
        key_lt(a, c),
    decreases a.len(),
{
    if a.len() > 0 && a[0] == b[0] && b[0] == c[0] {
        lemma_key_lt_transitive(a.drop_first(), b.drop_first(), c.drop_first());
    }
}

/// Of two distinct keys, one sorts before the other.
pub proof fn lemma_key_lt_total(a: Seq<u8>, b: Seq<u8>)
    ensures
        a == b || key_lt(a, b) || key_lt(b, a),
    decreases a.len(),
{
    if a.len() > 0 && b.len() > 0 && a[0] == b[0] {
        lemma_key_lt_total(a.drop_first(), b.drop_first());
        if a.drop_first() == b.drop_first() {
            assert(a =~= seq![a[0]] + a.drop_first());
            assert(b =~= seq![b[0]] + b.drop_first());
        }
    } else if a.len() == 0 && b.len() == 0 {
        assert(a =~= b);
    }
}

/// Compares two keys in the key order.
pub fn compare_keys(a: &[u8], b: &[u8]) -> (r: std::cmp::Ordering)
    ensures
        (r == std::cmp::Ordering::Less) == key_lt(a@, b@),
        (r == std::cmp::Ordering::Equal) == (a@ == b@),
        (r == std::cmp::Ordering::Greater) == key_lt(b@, a@),
{
    proof {
        lemma_key_lt_total(a@, b@);
        lemma_key_lt_asymmetric(a@, b@);
        lemma_key_lt_irreflexive(a@);
        assert(a@.subrange(0, a@.len() as int) =~= a@);
        assert(b@.subrange(0, b@.len() as int) =~= b@);
    }
    let mut i: usize = 0;
    while i < a.len() && i < b.len()
        invariant
            i <= a@.len(),
            i <= b@.len(),
            a@.subrange(0, i as int) == b@.subrange(0, i as int),
            key_lt(a@, b@) == key_lt(a@.subrange(i as int, a@.len() as int), b@.subrange(i as int, b@.len() as int)),
            key_lt(b@, a@) == key_lt(b@.subrange(i as int, b@.len() as int), a@.subrange(i as int, a@.len() as int)),
        decreases a@.len() - i,
    {
        if a[i] < b[i] {
            return std::cmp::Ordering::Less;
        }
        if a[i] > b[i] {
            return std::cmp::Ordering::Greater;
        }
        proof {
            let sa = a@.subrange(i as int, a@.len() as int);
            let sb = b@.subrange(i as int, b@.len() as int);
            assert(sa.drop_first() =~= a@.subrange(i + 1, a@.len() as int));
            assert(sb.drop_first() =~= b@.subrange(i + 1, b@.len() as int));
            assert(a@.subrange(0, i + 1) =~= a@.subrange(0, i as int).push(a@[i as int]));
            assert(b@.subrange(0, i + 1) =~= b@.subrange(0, i as int).push(b@[i as int]));
        }
        i = i + 1;
    }
    if a.len() == b.len() {
        assert(a@ =~= a@.subrange(0, i as int));
        assert(b@ =~= b@.subrange(0, i as int));
        std::cmp::Ordering::Equal
    } else if i == a.len() {
        std::cmp::Ordering::Less
    } else {
        std::cmp::Ordering::Greater
    }
}

} // verus!
