//! Byte-lexicographic order on byte strings.

use vstd::prelude::*;

verus! {

/// `a` and `b` agree on their first `k` bytes.
pub open spec fn agree_below(a: Seq<u8>, b: Seq<u8>, k: int) -> bool {
    &&& 0 <= k <= a.len()
    &&& k <= b.len()
    &&& forall|j: int| 0 <= j < k ==> a[j] == b[j]
}

/// Position `k` is where `a` first falls below `b`: either `a` ends there
/// while `b` goes on, or `a` holds the smaller byte there.
pub open spec fn falls_below_at(a: Seq<u8>, b: Seq<u8>, k: int) -> bool {
    &&& agree_below(a, b, k)
    &&& k < b.len()
    &&& (k == a.len() || a[k] < b[k])
}

/// `a` comes strictly before `b` in byte-lexicographic order.
pub open spec fn lex_lt(a: Seq<u8>, b: Seq<u8>) -> bool {
    exists|k: int| #[trigger] falls_below_at(a, b, k)
}

/// No byte string comes before itself.
pub proof fn lemma_lex_lt_irreflexive(a: Seq<u8>)
    ensures
        !lex_lt(a, a),
{
}

/// The order is transitive.
pub proof fn lemma_lex_lt_transitive(a: Seq<u8>, b: Seq<u8>, c: Seq<u8>)
    requires
        lex_lt(a, b),
        lex_lt(b, c),
    ensures
        lex_lt(a, c),
{
    let k1 = choose|k: int| falls_below_at(a, b, k);
    let k2 = choose|k: int| falls_below_at(b, c, k);
    if k1 <= k2 {
        assert(falls_below_at(a, c, k1));
    } else {
        assert(falls_below_at(a, c, k2));
    }
}

/// Of two byte strings in order, the second does not come before the
/// first, and they differ.
pub proof fn lemma_lex_lt_asymmetric(a: Seq<u8>, b: Seq<u8>)
    requires
        lex_lt(a, b),
    ensures
        !lex_lt(b, a),
        a != b,
{
    if lex_lt(b, a) {
        lemma_lex_lt_transitive(a, b, a);
    }
}

/// Three-way comparison of two byte strings.
pub fn compare_bytes(a: &[u8], b: &[u8]) -> (r: core::cmp::Ordering)
    ensures
        (r == core::cmp::Ordering::Less) == lex_lt(a@, b@),
        (r == core::cmp::Ordering::Greater) == lex_lt(b@, a@),
        (r == core::cmp::Ordering::Equal) == (a@ == b@),
{
    let mut i: usize = 0;
    while i < a.len() && i < b.len() && a[i] == b[i]
        invariant
            agree_below(a@, b@, i as int),
        decreases a.len() - i,
    {
        i = i + 1;
    }
    if i < a.len() && i < b.len() {
        if a[i] < b[i] {
            assert(falls_below_at(a@, b@, i as int));
            proof { lemma_lex_lt_asymmetric(a@, b@); }
            core::cmp::Ordering::Less
        } else {
            assert(falls_below_at(b@, a@, i as int));
            proof { lemma_lex_lt_asymmetric(b@, a@); }
            core::cmp::Ordering::Greater
        }
    } else if i < b.len() {
        assert(falls_below_at(a@, b@, i as int));
        proof { lemma_lex_lt_asymmetric(a@, b@); }
        core::cmp::Ordering::Less
    } else if i < a.len() {
        assert(falls_below_at(b@, a@, i as int));
        proof { lemma_lex_lt_asymmetric(b@, a@); }
        core::cmp::Ordering::Greater
    } else {
        assert(a@ =~= b@);
        proof { lemma_lex_lt_irreflexive(a@); }
        core::cmp::Ordering::Equal
    }
}

} // verus!
