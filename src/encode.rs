//! Encoding `(name, value)` pairs into a sorted name table.
//!
//! Pairs are grouped by value; each group's names keep the order in which
//! they came and are joined by zero bytes; the groups are ordered by value.

use vstd::prelude::*;
use vstd::slice::slice_to_vec;
use vstd::utf8::encode_utf8;
use crate::order::{lex_lt, lemma_lex_lt_asymmetric};
use crate::lookup::{TableView, table_view, names_for, strictly_sorted, has_value, keys_sorted, locate};

verus! {

/// Abstract view of a list of `(name, value)` byte strings.
pub type PairsView = Seq<(Seq<u8>, Seq<u8>)>;

/// A list of `(name, value)` strings.
pub type NamePairs = Seq<(Seq<char>, Seq<char>)>;

/// The views of a list of `(name, value)` strings.
pub open spec fn pairs_view(v: Seq<(String, String)>) -> NamePairs {
    v.map_values(|p: (String, String)| (p.0@, p.1@))
}

/// The UTF-8 bytes of each `(name, value)` pair.
pub open spec fn utf8_of(p: NamePairs) -> PairsView {
    p.map_values(|x: (Seq<char>, Seq<char>)| (encode_utf8(x.0), encode_utf8(x.1)))
}

/// The UTF-8 bytes of each `(name, value)` string pair.
pub open spec fn utf8_pairs(s: Seq<(String, String)>) -> PairsView {
    s.map_values(|p: (String, String)| (encode_utf8(p.0@), encode_utf8(p.1@)))
}

/// The byte strings of a list of names.
pub open spec fn bytes_list(ns: Seq<Vec<u8>>) -> Seq<Seq<u8>> {
    ns.map_values(|n: Vec<u8>| n@)
}

/// The names that `pairs` gives to value `v`, in the order of `pairs`.
pub open spec fn names_of_value(pairs: PairsView, v: Seq<u8>) -> Seq<Seq<u8>>
    decreases pairs.len(),
{
    if pairs.len() == 0 {
        Seq::empty()
    } else {
        let rest = names_of_value(pairs.drop_last(), v);
        if pairs.last().1 == v {
            rest.push(pairs.last().0)
        } else {
            rest
        }
    }
}

/// The names joined by single zero bytes, with no trailing separator.
pub open spec fn join_names(ns: Seq<Seq<u8>>) -> Seq<u8>
    decreases ns.len(),
{
    if ns.len() == 0 {
        Seq::empty()
    } else if ns.len() == 1 {
        ns[0]
    } else {
        join_names(ns.drop_last()) + seq![0u8] + ns.last()
    }
}

/// `t` is the encoding of `pairs`: sorted strictly by value, one entry for
/// each value that occurs, holding that value's names joined.
pub open spec fn encodes(pairs: PairsView, t: TableView) -> bool {
    &&& strictly_sorted(t)
    &&& forall|i: int|
        0 <= i < t.len() ==> {
            &&& #[trigger] names_of_value(pairs, t[i].0).len() > 0
            &&& t[i].1 == join_names(names_of_value(pairs, t[i].0))
        }
    &&& forall|j: int| 0 <= j < pairs.len() ==> has_value(t, #[trigger] pairs[j].1)
}

/// Some element of `list` has key `v`.
pub open spec fn has_key<T>(list: Seq<(Vec<u8>, T)>, v: Seq<u8>) -> bool {
    exists|g: int| 0 <= g < list.len() && #[trigger] list[g].0@ == v
}

/// A value that no pair holds has no names.
pub proof fn lemma_names_of_absent_value(pairs: PairsView, v: Seq<u8>)
    requires
        forall|j: int| 0 <= j < pairs.len() ==> #[trigger] pairs[j].1 != v,
    ensures
        names_of_value(pairs, v) == Seq::<Seq<u8>>::empty(),
    decreases pairs.len(),
{
    if pairs.len() > 0 {
        let init = pairs.drop_last();
        assert forall|j: int| 0 <= j < init.len() implies #[trigger] init[j].1 != v by {
            assert(init[j] == pairs[j]);
        }
        lemma_names_of_absent_value(init, v);
    }
}

/// A value with names is held by some pair.
pub proof fn lemma_names_of_present_value(pairs: PairsView, v: Seq<u8>)
    requires
        names_of_value(pairs, v).len() > 0,
    ensures
        exists|j: int| 0 <= j < pairs.len() && #[trigger] pairs[j].1 == v,
{
    if forall|j: int| 0 <= j < pairs.len() ==> #[trigger] pairs[j].1 != v {
        lemma_names_of_absent_value(pairs, v);
    }
}

/// Joins `ns` with zero bytes.
fn join_with_zero(ns: &Vec<Vec<u8>>) -> (r: Vec<u8>)
    ensures
        r@ == join_names(bytes_list(ns@)),
{
    let ghost d = bytes_list(ns@);
    let mut r: Vec<u8> = Vec::new();
    let mut i: usize = 0;
    while i < ns.len()
        invariant
            d == bytes_list(ns@),
            i <= ns.len(),
            r@ == join_names(d.take(i as int)),
        decreases ns.len() - i,
    {
        let ghost before = r@;
        if i > 0 {
            r.push(0u8);
        }
        r.extend_from_slice(ns[i].as_slice());
        assert(d.take(i + 1).drop_last() =~= d.take(i as int));
        assert(d[i as int] == ns@[i as int]@);
        if i == 0 {
            assert(r@ =~= d.take(1)[0]);
        } else {
            assert(r@ =~= before + seq![0u8] + d[i as int]);
        }
        i = i + 1;
    }
    assert(d.take(ns.len() as int) =~= d);
    r
}

/// Groups `symbols` by the bytes of their value: one group per value, in
/// ascending value order, with the value's names in the order of `symbols`.
fn group_by_value(symbols: &Vec<(String, String)>) -> (groups: Vec<(Vec<u8>, Vec<Vec<u8>>)>)
    ensures
        keys_sorted(groups@),
        forall|g: int|
            0 <= g < groups@.len() ==> {
                &&& #[trigger] bytes_list(groups@[g].1@) == names_of_value(
                    utf8_pairs(symbols@),
                    groups@[g].0@,
                )
                &&& groups@[g].1@.len() > 0
            },
        forall|j: int|
            0 <= j < symbols@.len() ==> has_key(groups@, #[trigger] utf8_pairs(symbols@)[j].1),
{
    let ghost all = utf8_pairs(symbols@);
    let mut groups: Vec<(Vec<u8>, Vec<Vec<u8>>)> = Vec::new();
    let mut k: usize = 0;
    while k < symbols.len()
        invariant
            all == utf8_pairs(symbols@),
            k <= symbols@.len(),
            keys_sorted(groups@),
            forall|g: int|
                0 <= g < groups@.len() ==> {
                    &&& #[trigger] bytes_list(groups@[g].1@) == names_of_value(
                        all.take(k as int),
                        groups@[g].0@,
                    )
                    &&& groups@[g].1@.len() > 0
                },
            forall|j: int| 0 <= j < k ==> has_key(groups@, #[trigger] all[j].1),
        decreases symbols@.len() - k,
    {
        let name = slice_to_vec(symbols[k].0.as_str().as_bytes());
        let value = slice_to_vec(symbols[k].1.as_str().as_bytes());
        let ghost prev = all.take(k as int);
        let ghost next = all.take(k + 1);
        let ghost old_groups = groups@;
        assert(next.drop_last() =~= prev);
        assert(next.last() == all[k as int]);
        assert(all[k as int] == (name@, value@));
        match locate(value.as_slice(), groups.as_slice()) {
            Ok(i) => {
                let ghost old_names = groups@[i as int].1;
                groups[i].1.push(name);
                assert forall|g: int| 0 <= g < groups@.len() implies {
                    &&& #[trigger] bytes_list(groups@[g].1@) == names_of_value(next, groups@[g].0@)
                    &&& groups@[g].1@.len() > 0
                } by {
                    if g == i {
                        assert(groups@[g].1@ =~= old_names@.push(name));
                        assert(bytes_list(groups@[g].1@) =~= bytes_list(old_names@).push(name@));
                    } else {
                        assert(groups@[g] == old_groups[g]);
                        if g < i {
                            lemma_lex_lt_asymmetric(old_groups[g].0@, old_groups[i as int].0@);
                        } else {
                            lemma_lex_lt_asymmetric(old_groups[i as int].0@, old_groups[g].0@);
                        }
                    }
                }
                assert forall|j: int| 0 <= j < k + 1 implies has_key(groups@, #[trigger] all[j].1) by {
                    if j < k {
                        let g0 = choose|g: int| 0 <= g < old_groups.len() && #[trigger] old_groups[g].0@ == all[j].1;
                        assert(groups@[g0].0@ == all[j].1);
                    } else {
                        assert(groups@[i as int].0@ == all[j].1);
                    }
                }
            },
            Err(i) => {
                proof {
                    assert forall|j: int| 0 <= j < prev.len() implies #[trigger] prev[j].1 != value@ by {
                        let g0 = choose|g: int| 0 <= g < old_groups.len() && #[trigger] old_groups[g].0@ == all[j].1;
                        if g0 < i {
                            lemma_lex_lt_asymmetric(old_groups[g0].0@, value@);
                        } else {
                            lemma_lex_lt_asymmetric(value@, old_groups[g0].0@);
                        }
                    }
                    lemma_names_of_absent_value(prev, value@);
                }
                let mut names: Vec<Vec<u8>> = Vec::new();
                names.push(name);
                groups.insert(i, (value, names));
                assert(keys_sorted(groups@)) by {
                    assert forall|a: int, b: int| 0 <= a < b < groups@.len() implies
                        lex_lt(#[trigger] groups@[a].0@, #[trigger] groups@[b].0@) by {
                        if a < i && b == i {
                        } else if a == i {
                            assert(groups@[b] == old_groups[b - 1]);
                        } else if b < i {
                            assert(groups@[a] == old_groups[a] && groups@[b] == old_groups[b]);
                        } else if a < i {
                            assert(groups@[a] == old_groups[a] && groups@[b] == old_groups[b - 1]);
                        } else {
                            assert(groups@[a] == old_groups[a - 1] && groups@[b] == old_groups[b - 1]);
                        }
                    }
                }
                assert forall|g: int| 0 <= g < groups@.len() implies {
                    &&& #[trigger] bytes_list(groups@[g].1@) == names_of_value(next, groups@[g].0@)
                    &&& groups@[g].1@.len() > 0
                } by {
                    if g == i {
                        assert(bytes_list(groups@[g].1@) =~= seq![name@]);
                        assert(names_of_value(next, value@) =~= seq![name@]);
                    } else if g < i {
                        assert(groups@[g] == old_groups[g]);
                        lemma_lex_lt_asymmetric(old_groups[g].0@, value@);
                    } else {
                        assert(groups@[g] == old_groups[g - 1]);
                        lemma_lex_lt_asymmetric(value@, old_groups[g - 1].0@);
                    }
                }
                assert forall|j: int| 0 <= j < k + 1 implies has_key(groups@, #[trigger] all[j].1) by {
                    if j < k {
                        let g0 = choose|g: int| 0 <= g < old_groups.len() && #[trigger] old_groups[g].0@ == all[j].1;
                        if g0 < i {
                            assert(groups@[g0].0@ == all[j].1);
                        } else {
                            assert(groups@[g0 + 1].0@ == all[j].1);
                        }
                    } else {
                        assert(groups@[i as int].0@ == all[j].1);
                    }
                }
            },
        }
        k = k + 1;
    }
    assert(all.take(symbols@.len() as int) =~= all);
    groups
}

/// Encodes `symbols`, a list of `(name, value)` pairs, into a name table.
pub fn encode_name_list(symbols: &Vec<(String, String)>) -> (r: Vec<(Vec<u8>, Vec<u8>)>)
    ensures
        encodes(utf8_of(pairs_view(symbols@)), table_view(r@)),
{
    let ghost all = utf8_pairs(symbols@);
    let groups = group_by_value(symbols);
    let mut r: Vec<(Vec<u8>, Vec<u8>)> = Vec::new();
    let mut g: usize = 0;
    while g < groups.len()
        invariant
            all == utf8_pairs(symbols@),
            g <= groups@.len(),
            r@.len() == g,
            keys_sorted(groups@),
            forall|h: int|
                0 <= h < groups@.len() ==> {
                    &&& #[trigger] bytes_list(groups@[h].1@) == names_of_value(all, groups@[h].0@)
                    &&& groups@[h].1@.len() > 0
                },
            forall|h: int|
                0 <= h < g ==> {
                    &&& #[trigger] r@[h].0@ == groups@[h].0@
                    &&& r@[h].1@ == join_names(names_of_value(all, groups@[h].0@))
                },
        decreases groups@.len() - g,
    {
        let value = slice_to_vec(groups[g].0.as_slice());
        let blob = join_with_zero(&groups[g].1);
        assert(bytes_list(groups@[g as int].1@) == names_of_value(all, groups@[g as int].0@));
        r.push((value, blob));
        g = g + 1;
    }
    proof {
        assert(utf8_of(pairs_view(symbols@)) =~= all);
        let t = table_view(r@);
        assert forall|h: int| 0 <= h < t.len() implies #[trigger] t[h] == (groups@[h].0@, r@[h].1@) by {
        }
        assert(strictly_sorted(t)) by {
            assert forall|a: int, b: int| 0 <= a < b < t.len() implies
                lex_lt(#[trigger] t[a].0, #[trigger] t[b].0) by {
                assert(t[a] == (groups@[a].0@, r@[a].1@));
                assert(t[b] == (groups@[b].0@, r@[b].1@));
            }
        }
        assert forall|h: int| 0 <= h < t.len() implies {
            &&& #[trigger] names_of_value(all, t[h].0).len() > 0
            &&& t[h].1 == join_names(names_of_value(all, t[h].0))
        } by {
            assert(t[h] == (groups@[h].0@, r@[h].1@));
            assert(bytes_list(groups@[h].1@).len() == groups@[h].1@.len());
        }
        assert forall|j: int| 0 <= j < all.len() implies has_value(t, #[trigger] all[j].1) by {
            let h = choose|h: int| 0 <= h < groups@.len() && #[trigger] groups@[h].0@ == all[j].1;
            assert(t[h].0 == all[j].1);
        }
    }
    r
}

/// Each pair's name is among the names of its value, in order.
pub proof fn lemma_name_among_names_of_value(pairs: PairsView, j: int)
    requires
        0 <= j < pairs.len(),
    ensures
        names_of_value(pairs, pairs[j].1).contains(pairs[j].0),
    decreases pairs.len(),
{
    let v = pairs[j].1;
    if j == pairs.len() - 1 {
        let ns = names_of_value(pairs, v);
        assert(ns[ns.len() - 1] == pairs[j].0);
    } else {
        let init = pairs.drop_last();
        assert(init[j] == pairs[j]);
        lemma_name_among_names_of_value(init, j);
        let rest = names_of_value(init, v);
        let k = choose|k: int| 0 <= k < rest.len() && rest[k] == pairs[j].0;
        assert(names_of_value(pairs, v)[k] == pairs[j].0);
    }
}

/// Adjacent values of an encoded table are in strictly ascending byte order,
/// and no value occurs twice.
pub proof fn lemma_encoded_sorted_and_unique(pairs: PairsView, t: TableView)
    requires
        encodes(pairs, t),
    ensures
        forall|i: int| 0 <= i < t.len() - 1 ==> lex_lt(#[trigger] t[i].0, t[i + 1].0),
        forall|i: int, j: int| 0 <= i < t.len() && 0 <= j < t.len() && i != j ==> #[trigger] t[i].0 != #[trigger] t[j].0,
{
    assert forall|i: int| 0 <= i < t.len() - 1 implies lex_lt(#[trigger] t[i].0, t[i + 1].0) by {
        assert(lex_lt(t[i].0, t[i + 1].0));
    }
    assert forall|i: int, j: int| 0 <= i < t.len() && 0 <= j < t.len() && i != j implies
        #[trigger] t[i].0 != #[trigger] t[j].0 by {
        if i < j {
            lemma_lex_lt_asymmetric(t[i].0, t[j].0);
        } else {
            lemma_lex_lt_asymmetric(t[j].0, t[i].0);
        }
    }
}

/// Looking up the value of any encoded pair gives a blob whose zero-separated
/// components include that pair's name.
pub proof fn lemma_round_trip(pairs: PairsView, t: TableView, j: int)
    requires
        encodes(pairs, t),
        0 <= j < pairs.len(),
    ensures
        names_for(t, pairs[j].1) == join_names(names_of_value(pairs, pairs[j].1)),
        names_of_value(pairs, pairs[j].1).contains(pairs[j].0),
{
    let v = pairs[j].1;
    assert(has_value(t, v));
    let i = choose|i: int| 0 <= i < t.len() && #[trigger] t[i].0 == v;
    assert(names_of_value(pairs, t[i].0).len() > 0);
    lemma_name_among_names_of_value(pairs, j);
}

proof fn lemma_keys_agree(pairs: PairsView, t1: TableView, t2: TableView, i: int)
    requires
        encodes(pairs, t1),
        encodes(pairs, t2),
        0 <= i < t1.len(),
        i < t2.len(),
    ensures
        forall|k: int| 0 <= k <= i ==> #[trigger] t1[k].0 == t2[k].0,
    decreases i,
{
    if i > 0 {
        lemma_keys_agree(pairs, t1, t2, i - 1);
    }
    let a = t1[i].0;
    let b = t2[i].0;
    lemma_present_in_other(pairs, t1, t2, i);
    lemma_present_in_other(pairs, t2, t1, i);
    let j = choose|j: int| 0 <= j < t2.len() && #[trigger] t2[j].0 == a;
    let m = choose|m: int| 0 <= m < t1.len() && #[trigger] t1[m].0 == b;
    if j < i {
        assert(t1[j].0 == t2[j].0);
        lemma_lex_lt_asymmetric(t1[j].0, t1[i].0);
    } else if m < i {
        assert(t1[m].0 == t2[m].0);
        lemma_lex_lt_asymmetric(t2[m].0, t2[i].0);
    } else if j > i && m > i {
        lemma_lex_lt_asymmetric(t2[i].0, t2[j].0);
        lemma_lex_lt_asymmetric(t1[i].0, t1[m].0);
        lemma_lex_lt_asymmetric(a, b);
    }
}

proof fn lemma_present_in_other(pairs: PairsView, t1: TableView, t2: TableView, i: int)
    requires
        encodes(pairs, t1),
        encodes(pairs, t2),
        0 <= i < t1.len(),
    ensures
        has_value(t2, t1[i].0),
{
    assert(names_of_value(pairs, t1[i].0).len() > 0);
    lemma_names_of_present_value(pairs, t1[i].0);
    let j = choose|j: int| 0 <= j < pairs.len() && #[trigger] pairs[j].1 == t1[i].0;
    assert(has_value(t2, pairs[j].1));
}

/// Encoding is deterministic: the same pairs always give the same table,
/// byte for byte.
pub proof fn lemma_encoding_deterministic(pairs: PairsView, t1: TableView, t2: TableView)
    requires
        encodes(pairs, t1),
        encodes(pairs, t2),
    ensures
        t1 == t2,
{
    lemma_not_shorter(pairs, t1, t2);
    lemma_not_shorter(pairs, t2, t1);
    if t1.len() > 0 {
        lemma_keys_agree(pairs, t1, t2, t1.len() - 1);
    }
    assert forall|i: int| 0 <= i < t1.len() implies #[trigger] t1[i] == t2[i] by {
        assert(names_of_value(pairs, t1[i].0).len() > 0);
        assert(names_of_value(pairs, t2[i].0).len() > 0);
    }
    assert(t1 =~= t2);
}

proof fn lemma_not_shorter(pairs: PairsView, t1: TableView, t2: TableView)
    requires
        encodes(pairs, t1),
        encodes(pairs, t2),
    ensures
        t1.len() >= t2.len(),
{
    let n = t1.len() as int;
    if n < t2.len() {
        if n > 0 {
            lemma_keys_agree(pairs, t1, t2, n - 1);
        }
        lemma_present_in_other(pairs, t2, t1, n);
        let m = choose|m: int| 0 <= m < t1.len() && #[trigger] t1[m].0 == t2[n].0;
        assert(t1[m].0 == t2[m].0);
        lemma_lex_lt_asymmetric(t2[m].0, t2[n].0);
    }
}

} // verus!
