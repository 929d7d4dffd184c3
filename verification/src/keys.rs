//! The order of keys: byte strings compared position by position, a proper
//! prefix before what it is a prefix of.

use vstd::prelude::*;

verus! {

/// `a` comes strictly before `b`.
pub open spec fn spec_key_lt(a: Seq<u8>, b: Seq<u8>) -> bool
    decreases a.len(),
{
    if b.len() == 0 {
        false
    } else if a.len() == 0 {
        true
    } else if a[0] != b[0] {
        a[0] < b[0]
    } else {
        spec_key_lt(a.skip(1), b.skip(1))
    }
}

/// `a` comes before `b` or equals it.
pub open spec fn spec_key_le(a: Seq<u8>, b: Seq<u8>) -> bool {
    !spec_key_lt(b, a)
}

/// No key comes before itself.
pub proof fn lemma_key_lt_irreflexive(a: Seq<u8>)
    ensures
        !spec_key_lt(a, a),
    decreases a.len(),
{
    if a.len() > 0 {
        lemma_key_lt_irreflexive(a.skip(1));
    }
}

/// Two keys of which neither comes before the other are equal.
pub proof fn lemma_key_total(a: Seq<u8>, b: Seq<u8>)
    requires
        !spec_key_lt(a, b),
        !spec_key_lt(b, a),
    ensures
        a == b,
    decreases a.len(),
{
    if a.len() == 0 || b.len() == 0 {
        assert(a =~= b);
    } else {
        lemma_key_total(a.skip(1), b.skip(1));
        assert(a =~= seq![a[0]] + a.skip(1));
        assert(b =~= seq![b[0]] + b.skip(1));
    }
}

/// `a < b` and `b <= c` give `a < c`.
pub proof fn lemma_key_lt_le(a: Seq<u8>, b: Seq<u8>, c: Seq<u8>)
    requires
        spec_key_lt(a, b),
        spec_key_le(b, c),
    ensures
        spec_key_lt(a, c),
    decreases a.len(),
{
    if a.len() > 0 && b.len() > 0 && c.len() > 0 && a[0] == b[0] && b[0] == c[0] {
        lemma_key_lt_le(a.skip(1), b.skip(1), c.skip(1));
    }
}

/// No key comes both before and after another.
pub proof fn lemma_key_lt_asymmetric(a: Seq<u8>, b: Seq<u8>)
    requires
        spec_key_lt(a, b),
    ensures
        !spec_key_lt(b, a),
    decreases a.len(),
{
    if a.len() > 0 && b.len() > 0 && a[0] == b[0] {
        lemma_key_lt_asymmetric(a.skip(1), b.skip(1));
    }
}

/// `a <= b` and `b < c` give `a < c`.
pub proof fn lemma_key_le_lt(a: Seq<u8>, b: Seq<u8>, c: Seq<u8>)
    requires
        spec_key_le(a, b),
        spec_key_lt(b, c),
    ensures
        spec_key_lt(a, c),
    decreases a.len(),
{
    if a.len() > 0 && b.len() > 0 && c.len() > 0 && a[0] == b[0] && b[0] == c[0] {
        lemma_key_le_lt(a.skip(1), b.skip(1), c.skip(1));
    }
}

/// `a <= b` and `b <= c` give `a <= c`.
pub proof fn lemma_key_le_le(a: Seq<u8>, b: Seq<u8>, c: Seq<u8>)
    requires
        spec_key_le(a, b),
        spec_key_le(b, c),
    ensures
        spec_key_le(a, c),
{
    if spec_key_lt(c, a) {
        lemma_key_lt_le(c, a, b);
    }
}

/// Whether `a` comes strictly before `b`.
pub fn key_less(a: &[u8], b: &[u8]) -> (r: bool)
    ensures
        r == spec_key_lt(a@, b@),
{
    let mut i: usize = 0;
    assert(a@.skip(0) =~= a@ && b@.skip(0) =~= b@);
    while i < a.len() && i < b.len()
        invariant
            i <= a@.len(),
            i <= b@.len(),
            spec_key_lt(a@, b@) == spec_key_lt(a@.skip(i as int), b@.skip(i as int)),
        decreases a@.len() - i,
    {
        if a[i] != b[i] {
            return a[i] < b[i];
        }
        assert(a@.skip(i as int).skip(1) =~= a@.skip(i as int + 1));
        assert(b@.skip(i as int).skip(1) =~= b@.skip(i as int + 1));
        i += 1;
    }
    i < b.len()
}

} // verus!
