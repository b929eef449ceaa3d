//! Byte-lexicographic ordering.
//!
//! Terms in the dictionary are ordered by byte-lexicographic comparison of
//! their UTF-8 encodings; a term's dimension id is its zero-based rank in
//! that order. This module defines the order on byte sequences, proves that
//! it is a strict total order, and provides the executable three-way
//! comparison the binary searches are built on.

use vstd::prelude::*;

verus! {

/// `a` is strictly smaller than `b` in byte-lexicographic order: at the
/// first position where they differ, `a` has the smaller byte, or `a` is a
/// proper prefix of `b`.
pub open spec fn lex_lt(a: Seq<u8>, b: Seq<u8>) -> bool
    decreases a.len(),
{
    if b.len() == 0 {
        false
    } else if a.len() == 0 {
        true
    } else if a[0] < b[0] {
        true
    } else if a[0] > b[0] {
        false
    } else {
        lex_lt(a.drop_first(), b.drop_first())
    }
}

/// Two sequences with equal length, equal head and equal tail are equal.
proof fn lemma_head_tail_eq(a: Seq<u8>, b: Seq<u8>)
    requires
        a.len() == b.len(),
        a.len() > 0,
        a[0] == b[0],
        a.drop_first() == b.drop_first(),
    ensures
        a == b,
{
    assert forall|i: int| 0 <= i < a.len() implies a[i] == b[i] by {
        if i > 0 {
            assert(a.drop_first()[i - 1] == b.drop_first()[i - 1]);
            assert(a.drop_first()[i - 1] == a[i]);
            assert(b.drop_first()[i - 1] == b[i]);
        }
    }
    assert(a =~= b);
}

/// The order is trichotomous: exactly one of `a < b`, `b < a`, `a == b`.
pub proof fn lemma_lex_trichotomy(a: Seq<u8>, b: Seq<u8>)
    ensures
        lex_lt(a, b) || lex_lt(b, a) || a == b,
        lex_lt(a, b) ==> !lex_lt(b, a) && a != b,
        lex_lt(b, a) ==> a != b,
    decreases a.len(),
{
    if a.len() == 0 && b.len() == 0 {
        assert(a =~= b);
    } else if a.len() > 0 && b.len() > 0 && a[0] == b[0] {
        lemma_lex_trichotomy(a.drop_first(), b.drop_first());
        if a.drop_first() == b.drop_first() {
            lemma_head_tail_eq(a, b);
        }
        if a == b {
            assert(a.drop_first() =~= b.drop_first());
        }
    } else {
        if a == b && a.len() > 0 {
            assert(a[0] == b[0]);
        }
    }
}

/// The order is transitive.
pub proof fn lemma_lex_transitive(a: Seq<u8>, b: Seq<u8>, c: Seq<u8>)
    requires
        lex_lt(a, b),
        lex_lt(b, c),
    ensures
        lex_lt(a, c),
    decreases a.len() + b.len() + c.len(),
{
    if b.len() == 0 {
        // lex_lt(b, c) forces c nonempty; lex_lt(a, b) impossible
        assert(false);
    } else if a.len() == 0 {
        // c nonempty since lex_lt(b, c) and b nonempty
    } else {
        // a, b, c all nonempty here (c nonempty from lex_lt(b, c))
        if a[0] < b[0] {
            if b[0] < c[0] {
            } else if b[0] == c[0] {
            } else {
                assert(!lex_lt(b, c));
            }
        } else if a[0] == b[0] {
            if b[0] < c[0] {
            } else if b[0] == c[0] {
                lemma_lex_transitive(a.drop_first(), b.drop_first(), c.drop_first());
            } else {
                assert(!lex_lt(b, c));
            }
        } else {
            assert(!lex_lt(a, b));
        }
    }
}

/// If `a` and `b` agree on their first `k` bytes and differ at position `k`,
/// the byte at `k` decides the order.
pub proof fn lemma_lex_first_diff(a: Seq<u8>, b: Seq<u8>, k: int)
    requires
        0 <= k < a.len(),
        k < b.len(),
        forall|i: int| 0 <= i < k ==> a[i] == b[i],
        a[k] < b[k],
    ensures
        lex_lt(a, b),
    decreases k,
{
    if k == 0 {
    } else {
        assert(a[0] == b[0]);
        assert forall|i: int| 0 <= i < k - 1 implies a.drop_first()[i] == b.drop_first()[i] by {
            assert(a[i + 1] == b[i + 1]);
        }
        assert(a.drop_first()[k - 1] == a[k]);
        assert(b.drop_first()[k - 1] == b[k]);
        lemma_lex_first_diff(a.drop_first(), b.drop_first(), k - 1);
    }
}

/// A proper prefix is strictly smaller.
pub proof fn lemma_lex_proper_prefix(a: Seq<u8>, b: Seq<u8>)
    requires
        a.len() < b.len(),
        forall|i: int| 0 <= i < a.len() ==> a[i] == b[i],
    ensures
        lex_lt(a, b),
    decreases a.len(),
{
    if a.len() == 0 {
    } else {
        assert forall|i: int| 0 <= i < a.drop_first().len() implies a.drop_first()[i]
            == b.drop_first()[i] by {
            assert(a[i + 1] == b[i + 1]);
        }
        lemma_lex_proper_prefix(a.drop_first(), b.drop_first());
    }
}

/// Three-way byte-lexicographic comparison: `-1` when `a` is smaller, `0`
/// when equal, `1` when `b` is smaller.
#[verifier::loop_isolation(false)]
pub fn lex_cmp(a: &[u8], b: &[u8]) -> (r: i8)
    ensures
        r == -1i8 || r == 0i8 || r == 1i8,
        r == -1i8 <==> lex_lt(a@, b@),
        r == 0i8 <==> a@ == b@,
        r == 1i8 <==> lex_lt(b@, a@),
{
    proof {
        lemma_lex_trichotomy(a@, b@);
    }
    let mut k: usize = 0;
    while k < a.len() && k < b.len()
        invariant
            0 <= k <= a@.len(),
            k <= b@.len(),
            forall|i: int| 0 <= i < k ==> a@[i] == b@[i],
        decreases a@.len() - k,
    {
        let x = a[k];
        let y = b[k];
        if x < y {
            proof {
                lemma_lex_first_diff(a@, b@, k as int);
            }
            return -1;
        }
        if x > y {
            proof {
                lemma_lex_first_diff(b@, a@, k as int);
            }
            return 1;
        }
        k += 1;
    }
    if a.len() < b.len() {
        proof {
            lemma_lex_proper_prefix(a@, b@);
        }
        return -1;
    }
    if b.len() < a.len() {
        proof {
            lemma_lex_proper_prefix(b@, a@);
        }
        return 1;
    }
    proof {
        assert(a@ =~= b@);
    }
    0
}

} // verus!
