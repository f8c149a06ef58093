//! Lexicographic order on byte strings.
//!
//! Addresses and attributes are ordered by the bytes of their keys. This module
//! defines that order, proves that it is a strict total order, and gives the
//! executable comparison.

use vstd::prelude::*;

verus! {

/// Where one key stands relative to another.
#[derive(Clone, Copy, PartialEq, Eq, Structural, Debug)]
pub enum Precedence {
    Before,
    Same,
    After,
}

/// `a` comes strictly before `b` in lexicographic byte order.
pub open spec fn bytes_precede(a: Seq<u8>, b: Seq<u8>) -> bool
    decreases a.len(),
{
    if b.len() == 0 {
        false
    } else if a.len() == 0 {
        true
    } else if a[0] != b[0] {
        a[0] < b[0]
    } else {
        bytes_precede(a.drop_first(), b.drop_first())
    }
}

/// The three-way outcome of comparing `a` with `b`.
pub open spec fn bytes_order(a: Seq<u8>, b: Seq<u8>) -> Precedence {
    if a == b {
        Precedence::Same
    } else if bytes_precede(a, b) {
        Precedence::Before
    } else {
        Precedence::After
    }
}

/// No byte string comes before itself.
pub proof fn lemma_bytes_irreflexive(a: Seq<u8>)
    ensures
        !bytes_precede(a, a),
    decreases a.len(),
{
    if a.len() > 0 {
        lemma_bytes_irreflexive(a.drop_first());
    }
}

/// If `a` comes before `b`, then `b` does not come before `a`.
pub proof fn lemma_bytes_asymmetric(a: Seq<u8>, b: Seq<u8>)
    requires
        bytes_precede(a, b),
    ensures
        !bytes_precede(b, a),
    decreases a.len(),
{
    if a.len() > 0 && b.len() > 0 && a[0] == b[0] {
        lemma_bytes_asymmetric(a.drop_first(), b.drop_first());
    }
}

/// The order is transitive.
pub proof fn lemma_bytes_transitive(a: Seq<u8>, b: Seq<u8>, c: Seq<u8>)
    requires
        bytes_precede(a, b),
        bytes_precede(b, c),
    ensures
        bytes_precede(a, c),
    decreases a.len(),
{
    if a.len() > 0 && b.len() > 0 && c.len() > 0 && a[0] == b[0] && b[0] == c[0] {
        lemma_bytes_transitive(a.drop_first(), b.drop_first(), c.drop_first());
    }
}

/// Any two different byte strings are ordered one way or the other.
pub proof fn lemma_bytes_connected(a: Seq<u8>, b: Seq<u8>)
    ensures
        a == b || bytes_precede(a, b) || bytes_precede(b, a),
    decreases a.len(),
{
    if a.len() == 0 || b.len() == 0 {
        if a.len() == 0 && b.len() == 0 {
            assert(a =~= b);
        }
    } else if a[0] == b[0] {
        lemma_bytes_connected(a.drop_first(), b.drop_first());
        if a.drop_first() == b.drop_first() {
            assert(a =~= seq![a[0]] + a.drop_first());
            assert(b =~= seq![b[0]] + b.drop_first());
        }
    }
}

/// Putting the same byte in front of two strings does not change their order.
pub proof fn lemma_bytes_shared_head(head: u8, a: Seq<u8>, b: Seq<u8>)
    ensures
        bytes_precede(seq![head] + a, seq![head] + b) == bytes_precede(a, b),
        (seq![head] + a == seq![head] + b) == (a == b),
{
    let ha = seq![head] + a;
    let hb = seq![head] + b;
    assert(ha.drop_first() =~= a);
    assert(hb.drop_first() =~= b);
    if ha == hb {
        assert(a =~= ha.drop_first());
    }
}

/// The outcome of a comparison read in the other direction.
pub proof fn lemma_bytes_order_flip(a: Seq<u8>, b: Seq<u8>)
    ensures
        bytes_order(a, b) == Precedence::Before <==> bytes_order(b, a) == Precedence::After,
        bytes_order(a, b) == Precedence::Same <==> bytes_order(b, a) == Precedence::Same,
        bytes_order(a, b) == Precedence::After <==> bytes_precede(b, a),
{
    lemma_bytes_connected(a, b);
    lemma_bytes_irreflexive(a);
    if bytes_precede(a, b) {
        lemma_bytes_asymmetric(a, b);
    }
    if bytes_precede(b, a) {
        lemma_bytes_asymmetric(b, a);
    }
}

/// Compares two byte strings lexicographically.
pub fn compare_bytes(a: &[u8], b: &[u8]) -> (r: Precedence)
    ensures
        r == bytes_order(a@, b@),
{
    let mut i: usize = 0;
    proof {
        assert(a@.skip(0) =~= a@);
        assert(b@.skip(0) =~= b@);
        assert(a@.take(0) =~= b@.take(0));
    }
    while i < a.len() && i < b.len() && a[i] == b[i]
        invariant
            i <= a@.len(),
            i <= b@.len(),
            a@.take(i as int) == b@.take(i as int),
            bytes_precede(a@, b@) == bytes_precede(a@.skip(i as int), b@.skip(i as int)),
            bytes_precede(b@, a@) == bytes_precede(b@.skip(i as int), a@.skip(i as int)),
        decreases a@.len() - i,
    {
        proof {
            let sa = a@.skip(i as int);
            let sb = b@.skip(i as int);
            assert(sa.drop_first() =~= a@.skip(i + 1));
            assert(sb.drop_first() =~= b@.skip(i + 1));
            assert(sa[0] == sb[0]);
            assert(a@.take(i + 1) =~= a@.take(i as int).push(a@[i as int]));
            assert(b@.take(i + 1) =~= b@.take(i as int).push(b@[i as int]));
        }
        i = i + 1;
    }
    proof {
        let sa = a@.skip(i as int);
        let sb = b@.skip(i as int);
        lemma_bytes_order_flip(a@, b@);
        if i == a@.len() && i == b@.len() {
            assert(a@ =~= a@.take(i as int));
            assert(b@ =~= b@.take(i as int));
        } else if i < a@.len() && i < b@.len() {
            assert(sa[0] == a@[i as int]);
            assert(sb[0] == b@[i as int]);
            assert(a@ != b@);
        } else {
            assert(a@.len() != b@.len());
        }
    }
    if i == a.len() {
        if i == b.len() {
            Precedence::Same
        } else {
            Precedence::Before
        }
    } else if i == b.len() {
        Precedence::After
    } else if a[i] < b[i] {
        Precedence::Before
    } else {
        Precedence::After
    }
}

} // verus!
