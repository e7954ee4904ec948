//! Binary search over an encoded name table.
//!
//! An encoded table is a slice of `(value, names)` pairs, sorted strictly
//! ascending by `value` in byte-lexicographic order. `names` holds every
//! name of that value, joined by zero bytes.

use vstd::prelude::*;
use vstd::slice::slice_to_vec;
use crate::order::{lex_lt, compare_bytes, lemma_lex_lt_transitive, lemma_lex_lt_asymmetric};

verus! {

/// Abstract view of an encoded table: `(value, names)` byte strings.
pub type TableView = Seq<(Seq<u8>, Seq<u8>)>;

/// The byte strings of each `(value, names)` entry of `list`.
pub open spec fn table_view(list: Seq<(Vec<u8>, Vec<u8>)>) -> TableView {
    list.map_values(|e: (Vec<u8>, Vec<u8>)| (e.0@, e.1@))
}

/// The values of `t` strictly increase: hence they are unique as well.
pub open spec fn strictly_sorted(t: TableView) -> bool {
    forall|i: int, j: int| 0 <= i < j < t.len() ==> lex_lt(#[trigger] t[i].0, #[trigger] t[j].0)
}

/// Some entry of `t` has value `q`.
pub open spec fn has_value(t: TableView, q: Seq<u8>) -> bool {
    exists|i: int| 0 <= i < t.len() && #[trigger] t[i].0 == q
}

/// The names blob that `t` holds for `q`, or the empty string if none.
pub open spec fn names_for(t: TableView, q: Seq<u8>) -> Seq<u8> {
    if has_value(t, q) {
        t[choose|i: int| 0 <= i < t.len() && #[trigger] t[i].0 == q].1
    } else {
        Seq::empty()
    }
}

/// In a strictly sorted table, an entry with value `t[i].0` stands at `i` alone.
pub proof fn lemma_names_for_index(t: TableView, i: int)
    requires
        strictly_sorted(t),
        0 <= i < t.len(),
    ensures
        names_for(t, t[i].0) == t[i].1,
{
    let q = t[i].0;
    assert(has_value(t, q));
    let j = choose|j: int| 0 <= j < t.len() && #[trigger] t[j].0 == q;
    if i < j {
        lemma_lex_lt_asymmetric(t[i].0, t[j].0);
    } else if j < i {
        lemma_lex_lt_asymmetric(t[j].0, t[i].0);
    }
}

/// Looking up any value in the empty table gives the empty blob.
pub proof fn lemma_lookup_empty_table(q: Seq<u8>)
    ensures
        names_for(Seq::empty(), q) == Seq::<u8>::empty(),
{
}

/// The smallest value of a table finds the first entry's names, and a value
/// strictly between two adjacent values finds nothing.
pub proof fn lemma_lookup_boundary(t: TableView, i: int, q: Seq<u8>)
    requires
        strictly_sorted(t),
        0 <= i < t.len() - 1,
        lex_lt(t[i].0, q),
        lex_lt(q, t[i + 1].0),
    ensures
        names_for(t, t[0].0) == t[0].1,
        names_for(t, q) == Seq::<u8>::empty(),
{
    lemma_names_for_index(t, 0);
    assert forall|j: int| 0 <= j < t.len() implies #[trigger] t[j].0 != q by {
        if j <= i {
            if j < i {
                lemma_lex_lt_transitive(t[j].0, t[i].0, q);
            }
            lemma_lex_lt_asymmetric(t[j].0, q);
        } else {
            if j > i + 1 {
                lemma_lex_lt_transitive(q, t[i + 1].0, t[j].0);
            }
            lemma_lex_lt_asymmetric(q, t[j].0);
        }
    }
}

/// The first components of `list` strictly increase.
pub open spec fn keys_sorted<T>(list: Seq<(Vec<u8>, T)>) -> bool {
    forall|i: int, j: int|
        0 <= i < j < list.len() ==> lex_lt(#[trigger] list[i].0@, #[trigger] list[j].0@)
}

/// Binary search for `v` among the first components of `list`: `Ok(i)` where
/// `list[i]` has key `v`, else `Err(i)` where `v` would have to be inserted.
pub fn locate<T>(v: &[u8], list: &[(Vec<u8>, T)]) -> (r: Result<usize, usize>)
    requires
        keys_sorted(list@),
    ensures
        r matches Ok(i) ==> i < list@.len() && list@[i as int].0@ == v@,
        r matches Err(i) ==> {
            &&& i <= list@.len()
            &&& forall|j: int| 0 <= j < i ==> lex_lt(#[trigger] list@[j].0@, v@)
            &&& forall|j: int| i <= j < list@.len() ==> lex_lt(v@, #[trigger] list@[j].0@)
        },
{
    let ghost q = v@;
    let mut lo: usize = 0;
    let mut hi: usize = list.len();
    while lo < hi
        invariant
            q == v@,
            keys_sorted(list@),
            lo <= hi <= list@.len(),
            forall|i: int| 0 <= i < lo ==> lex_lt(#[trigger] list@[i].0@, q),
            forall|i: int| hi <= i < list@.len() ==> lex_lt(q, #[trigger] list@[i].0@),
        decreases hi - lo,
    {
        let mid: usize = lo + (hi - lo) / 2;
        let ghost m = list@[mid as int].0@;
        match compare_bytes(list[mid].0.as_slice(), v) {
            core::cmp::Ordering::Less => {
                assert forall|i: int| 0 <= i < mid + 1 implies lex_lt(#[trigger] list@[i].0@, q) by {
                    if i < mid {
                        lemma_lex_lt_transitive(list@[i].0@, m, q);
                    }
                }
                lo = mid + 1;
            },
            core::cmp::Ordering::Greater => {
                assert forall|i: int| mid <= i < list@.len() implies lex_lt(q, #[trigger] list@[i].0@) by {
                    if i > mid {
                        lemma_lex_lt_transitive(q, m, list@[i].0@);
                    }
                }
                hi = mid;
            },
            core::cmp::Ordering::Equal => {
                return Ok(mid);
            },
        }
    }
    Err(lo)
}

/// Finds the names blob of `symbol` in `list` by binary search; an absent
/// value gives the empty blob.
pub fn find_names(symbol: &[u8], list: &[(Vec<u8>, Vec<u8>)]) -> (r: Vec<u8>)
    requires
        strictly_sorted(table_view(list@)),
    ensures
        r@ == names_for(table_view(list@), symbol@),
        !has_value(table_view(list@), symbol@) ==> r@.len() == 0,
{
    let ghost t = table_view(list@);
    assert(keys_sorted(list@)) by {
        assert forall|i: int, j: int| 0 <= i < j < list@.len() implies
            lex_lt(#[trigger] list@[i].0@, #[trigger] list@[j].0@) by {
            assert(t[i].0 == list@[i].0@ && t[j].0 == list@[j].0@);
        }
    }
    match locate(symbol, list) {
        Ok(i) => {
            assert(t[i as int].0 == symbol@);
            proof { lemma_names_for_index(t, i as int); }
            slice_to_vec(list[i].1.as_slice())
        },
        Err(i) => {
            assert(!has_value(t, symbol@)) by {
                assert forall|j: int| 0 <= j < t.len() implies #[trigger] t[j].0 != symbol@ by {
                    assert(t[j].0 == list@[j].0@);
                    if j < i {
                        lemma_lex_lt_asymmetric(t[j].0, symbol@);
                    } else {
                        lemma_lex_lt_asymmetric(symbol@, t[j].0);
                    }
                }
            }
            Vec::new()
        },
    }
}

} // verus!
