//! The symbol namespace, a tree of named bindings, and the walk that lists
//! every name it defines as active or deprecated.

use vstd::prelude::*;
use vstd::string::StringExecFns;
use crate::encode::{NamePairs, pairs_view};

verus! {

/// One variant of a symbol: its modifiers (dot-separated, possibly empty),
/// its value, and whether it is deprecated on its own.
pub struct Variant {
    pub modifiers: String,
    pub value: String,
    pub deprecated: bool,
}

/// A module: its bindings, in their own order.
pub struct Module {
    pub bindings: Vec<Binding>,
}

/// What a binding defines.
pub enum Def {
    Symbol(Vec<Variant>),
    Module(Module),
}

/// A named definition, possibly deprecated (and with it all it holds).
pub struct Binding {
    pub id: String,
    pub deprecated: bool,
    pub def: Def,
}

/// A discovered name: `(full name, value, deprecated)`.
pub type Entry = (Seq<char>, Seq<char>, bool);

/// The dotted path of binding `id` below `prefix`.
pub open spec fn child_name(prefix: Seq<char>, id: Seq<char>) -> Seq<char> {
    if prefix.len() == 0 {
        id
    } else {
        prefix + seq!['.'] + id
    }
}

/// The name of a variant with `modifiers` of the symbol named `name`.
pub open spec fn variant_name(name: Seq<char>, modifiers: Seq<char>) -> Seq<char> {
    if modifiers.len() == 0 {
        name
    } else {
        name + seq!['.'] + modifiers
    }
}

/// The entries of the first `n` variants of the symbol named `name`.
pub open spec fn variant_entries(vs: Seq<Variant>, name: Seq<char>, dep: bool, n: nat) -> Seq<Entry>
    decreases n,
{
    if n == 0 || n > vs.len() {
        Seq::empty()
    } else {
        let v = vs[n - 1];
        variant_entries(vs, name, dep, (n - 1) as nat).push(
            (variant_name(name, v.modifiers@), v.value@, dep || v.deprecated),
        )
    }
}

/// The entries that definition `d`, named `name`, holds, depth first.
pub open spec fn def_entries(d: Def, name: Seq<char>, dep: bool) -> Seq<Entry>
    decreases d, 0nat,
{
    match d {
        Def::Symbol(vs) => variant_entries(vs@, name, dep, vs@.len()),
        Def::Module(m) => binding_entries(m, name, dep, m.bindings@.len()),
    }
}

/// The entries of the first `n` bindings of module `m` below `prefix`.
pub open spec fn binding_entries(m: Module, prefix: Seq<char>, dep: bool, n: nat) -> Seq<Entry>
    decreases m, n,
{
    if n == 0 || n > m.bindings@.len() {
        Seq::empty()
    } else {
        let b = m.bindings@[n - 1];
        binding_entries(m, prefix, dep, (n - 1) as nat) + def_entries(
            b.def,
            child_name(prefix, b.id@),
            dep || b.deprecated,
        )
    }
}

/// Every entry of module `m` below `prefix`.
pub open spec fn module_entries(m: Module, prefix: Seq<char>, dep: bool) -> Seq<Entry> {
    binding_entries(m, prefix, dep, m.bindings@.len())
}

/// The `(name, value)` pairs of the entries whose deprecation is `dep`.
pub open spec fn select_pairs(es: Seq<Entry>, dep: bool) -> NamePairs
    decreases es.len(),
{
    if es.len() == 0 {
        Seq::empty()
    } else {
        let rest = select_pairs(es.drop_last(), dep);
        if es.last().2 == dep {
            rest.push((es.last().0, es.last().1))
        } else {
            rest
        }
    }
}

/// The `(name, value)` pairs of all entries.
pub open spec fn all_pairs(es: Seq<Entry>) -> NamePairs {
    es.map_values(|e: Entry| (e.0, e.1))
}

/// Selecting from a concatenation selects from each part in turn.
pub proof fn lemma_select_pairs_append(a: Seq<Entry>, b: Seq<Entry>, dep: bool)
    ensures
        select_pairs(a + b, dep) == select_pairs(a, dep) + select_pairs(b, dep),
    decreases b.len(),
{
    if b.len() == 0 {
        assert(a + b =~= a);
        assert(select_pairs(a, dep) + select_pairs(b, dep) =~= select_pairs(a, dep));
    } else {
        assert((a + b).drop_last() =~= a + b.drop_last());
        lemma_select_pairs_append(a, b.drop_last(), dep);
        if b.last().2 == dep {
            assert(select_pairs(a, dep) + select_pairs(b.drop_last(), dep).push((b.last().0, b.last().1))
                =~= (select_pairs(a, dep) + select_pairs(b.drop_last(), dep)).push((b.last().0, b.last().1)));
        }
    }
}

/// Walks module `m`, whose path is `name`, and appends each variant's
/// `(full name, value)` to `symbols` if it is active, to `deprecated` if it,
/// its symbol or any module above it is deprecated.
pub fn explore_module(
    symbols: &mut Vec<(String, String)>,
    deprecated: &mut Vec<(String, String)>,
    m: &Module,
    name: &str,
    is_deprecated: bool,
)
    ensures
        pairs_view(final(symbols)@) == pairs_view(old(symbols)@) + select_pairs(
            module_entries(*m, name@, is_deprecated),
            false,
        ),
        pairs_view(final(deprecated)@) == pairs_view(old(deprecated)@) + select_pairs(
            module_entries(*m, name@, is_deprecated),
            true,
        ),
    decreases m,
{
    let ghost s0 = pairs_view(symbols@);
    let ghost d0 = pairs_view(deprecated@);
    let mut i: usize = 0;
    while i < m.bindings.len()
        invariant
            i <= m.bindings@.len(),
            pairs_view(symbols@) == s0 + select_pairs(binding_entries(*m, name@, is_deprecated, i as nat), false),
            pairs_view(deprecated@) == d0 + select_pairs(binding_entries(*m, name@, is_deprecated, i as nat), true),
        decreases m.bindings@.len() - i,
    {
        let binding = &m.bindings[i];
        let new_name = if name.is_empty() {
            binding.id.clone()
        } else {
            let mut s = String::from_str(name);
            s.append(".");
            s.append(binding.id.as_str());
            proof { reveal_strlit("."); }
            s
        };
        assert(new_name@ =~= child_name(name@, binding.id@));
        let binding_is_deprecated = is_deprecated || binding.deprecated;
        let ghost before = binding_entries(*m, name@, is_deprecated, i as nat);
        let ghost s1 = pairs_view(symbols@);
        let ghost d1 = pairs_view(deprecated@);
        match &binding.def {
            Def::Symbol(variants) => {
                let mut k: usize = 0;
                while k < variants.len()
                    invariant
                        k <= variants@.len(),
                        pairs_view(symbols@) == s1 + select_pairs(
                            variant_entries(variants@, new_name@, binding_is_deprecated, k as nat),
                            false,
                        ),
                        pairs_view(deprecated@) == d1 + select_pairs(
                            variant_entries(variants@, new_name@, binding_is_deprecated, k as nat),
                            true,
                        ),
                    decreases variants@.len() - k,
                {
                    let v = &variants[k];
                    let mut full_name = new_name.clone();
                    if !v.modifiers.as_str().is_empty() {
                        full_name.append(".");
                        full_name.append(v.modifiers.as_str());
                    }
                    proof { reveal_strlit("."); }
                    assert(full_name@ =~= variant_name(new_name@, v.modifiers@));
                    let variant_is_deprecated = binding_is_deprecated || v.deprecated;
                    let ghost vs_prev = variant_entries(variants@, new_name@, binding_is_deprecated, k as nat);
                    let ghost vs_next = variant_entries(variants@, new_name@, binding_is_deprecated, (k + 1) as nat);
                    assert(vs_next.drop_last() == vs_prev);
                    let ghost sv = pairs_view(symbols@);
                    let ghost dv = pairs_view(deprecated@);
                    if variant_is_deprecated {
                        deprecated.push((full_name, v.value.clone()));
                        assert(pairs_view(deprecated@) =~= dv.push((full_name@, v.value@)));
                    } else {
                        symbols.push((full_name, v.value.clone()));
                        assert(pairs_view(symbols@) =~= sv.push((full_name@, v.value@)));
                    }
                    k = k + 1;
                }
            },
            Def::Module(m2) => {
                explore_module(symbols, deprecated, m2, new_name.as_str(), binding_is_deprecated);
            },
        }
        let ghost inner = def_entries(binding.def, new_name@, binding_is_deprecated);
        proof {
            lemma_select_pairs_append(before, inner, false);
            lemma_select_pairs_append(before, inner, true);
        }
        i = i + 1;
    }
}

proof fn lemma_select_pairs_partition(es: Seq<Entry>)
    ensures
        select_pairs(es, false).to_multiset().add(select_pairs(es, true).to_multiset())
            == all_pairs(es).to_multiset(),
    decreases es.len(),
{
    broadcast use vstd::seq_lib::group_to_multiset_ensures;
    if es.len() == 0 {
        assert(all_pairs(es) =~= Seq::<(Seq<char>, Seq<char>)>::empty());
        assert(select_pairs(es, false).to_multiset().add(select_pairs(es, true).to_multiset())
            =~= all_pairs(es).to_multiset());
    } else {
        let init = es.drop_last();
        lemma_select_pairs_partition(init);
        let e = es.last();
        assert(all_pairs(es) =~= all_pairs(init).push((e.0, e.1)));
        assert(select_pairs(es, false).to_multiset().add(select_pairs(es, true).to_multiset())
            =~= all_pairs(es).to_multiset());
    }
}

proof fn lemma_selected_entry(es: Seq<Entry>, dep: bool, p: (Seq<char>, Seq<char>))
    requires
        select_pairs(es, dep).contains(p),
    ensures
        exists|i: int| 0 <= i < es.len() && #[trigger] es[i] == (p.0, p.1, dep),
    decreases es.len(),
{
    let init = es.drop_last();
    let rest = select_pairs(init, dep);
    if rest.contains(p) {
        lemma_selected_entry(init, dep, p);
        let i = choose|i: int| 0 <= i < init.len() && #[trigger] init[i] == (p.0, p.1, dep);
        assert(es[i] == init[i]);
    } else {
        assert(es[es.len() - 1] == (p.0, p.1, dep));
    }
}

/// Every variant of the namespace `m` is listed exactly once, either as
/// active or as deprecated: counted with multiplicity, the two lists together
/// hold exactly the `(name, value)` pairs of all variants. Where no two
/// variants share a full name, no name is both active and deprecated.
pub proof fn lemma_partition(m: Module)
    ensures
        ({
            let es = module_entries(m, Seq::empty(), false);
            select_pairs(es, false).to_multiset().add(select_pairs(es, true).to_multiset())
                == all_pairs(es).to_multiset()
        }),
        ({
            let es = module_entries(m, Seq::empty(), false);
            (forall|i: int, j: int| 0 <= i < j < es.len() ==> #[trigger] es[i].0 != #[trigger] es[j].0)
                ==> forall|p: (Seq<char>, Seq<char>), q: (Seq<char>, Seq<char>)|
                #[trigger] select_pairs(es, false).contains(p) && #[trigger] select_pairs(es, true).contains(q)
                    ==> p.0 != q.0
        }),
{
    let es = module_entries(m, Seq::empty(), false);
    lemma_select_pairs_partition(es);
    if forall|i: int, j: int| 0 <= i < j < es.len() ==> #[trigger] es[i].0 != #[trigger] es[j].0 {
        assert forall|p: (Seq<char>, Seq<char>), q: (Seq<char>, Seq<char>)|
            #[trigger] select_pairs(es, false).contains(p) && #[trigger] select_pairs(es, true).contains(q)
                implies p.0 != q.0 by {
            lemma_selected_entry(es, false, p);
            lemma_selected_entry(es, true, q);
            let i = choose|i: int| 0 <= i < es.len() && #[trigger] es[i] == (p.0, p.1, false);
            let j = choose|j: int| 0 <= j < es.len() && #[trigger] es[j] == (q.0, q.1, true);
            if i < j {
                assert(es[i].0 != es[j].0);
            } else {
                assert(es[j].0 != es[i].0);
            }
        }
    }
}

} // verus!
