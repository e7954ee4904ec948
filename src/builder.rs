//! The styled-name list: every name that styling a Latin letter, a digit, a
//! shorthand or a symbol can produce.

use vstd::prelude::*;
use vstd::string::StrSliceExecFns;
use crate::encode::{NamePairs, pairs_view};
use crate::namespace::{Module, explore_module, module_entries, select_pairs};
use crate::styling::{MathStyleConfig, style_name, variations, config_strings_view, find_variations};

verus! {

/// The single characters that serve as base tokens: digits, then upper- and
/// lower-case Latin letters.
pub const BASE_CHARS: &'static str = "0123456789ABCDEFGHIJKLMNOPQRSTUVWXYZabcdefghijklmnopqrstuvwxyz";

/// Each character as a token whose name and value are that character.
pub open spec fn char_tokens(cs: Seq<char>) -> NamePairs {
    cs.map_values(|c: char| (seq![c], seq![c]))
}

/// The base tokens: single characters, then shorthands, then the active
/// symbols of `sym`.
pub open spec fn base_tokens(sym: Module, shorthands: NamePairs) -> NamePairs {
    char_tokens(BASE_CHARS@) + shorthands + select_pairs(module_entries(sym, Seq::empty(), false), false)
}

/// The styled names of the token `(name, value)`.
pub open spec fn named_variations(name: Seq<char>, value: Seq<char>) -> NamePairs {
    variations(value).map_values(|p: (MathStyleConfig, Seq<char>)| (style_name(p.0, name), p.1))
}

/// The styled names of every token of `bases`, token by token.
pub open spec fn styled_names(bases: NamePairs) -> NamePairs
    decreases bases.len(),
{
    if bases.len() == 0 {
        Seq::empty()
    } else {
        styled_names(bases.drop_last()) + named_variations(bases.last().0, bases.last().1)
    }
}

/// Appends the styled names of the token `(name, value)` to `out`.
fn push_variations(out: &mut Vec<(String, String)>, name: &String, value: &String)
    ensures
        pairs_view(final(out)@) == pairs_view(old(out)@) + named_variations(name@, value@),
{
    let vars = find_variations(value.as_str());
    let ghost o0 = pairs_view(out@);
    let ghost nv = named_variations(name@, value@);
    let mut k: usize = 0;
    while k < vars.len()
        invariant
            config_strings_view(vars@) == variations(value@),
            nv == named_variations(name@, value@),
            k <= vars@.len(),
            pairs_view(out@) == o0 + nv.take(k as int),
        decreases vars@.len() - k,
    {
        let (cfg, v) = &vars[k];
        let styled = cfg.to_typst(name.as_str());
        let ghost before = pairs_view(out@);
        out.push((styled, v.clone()));
        assert(config_strings_view(vars@)[k as int] == (*cfg, v@));
        assert(nv.take(k + 1) =~= nv.take(k as int).push((styled@, v@)));
        assert(pairs_view(out@) =~= before.push((styled@, v@)));
        k = k + 1;
    }
    assert(nv.take(vars@.len() as int) =~= nv);
}

/// The base tokens, built from `sym` and `shorthands`.
fn collect_bases(sym: &Module, shorthands: &Vec<(String, String)>) -> (r: Vec<(String, String)>)
    ensures
        pairs_view(r@) == base_tokens(*sym, pairs_view(shorthands@)),
{
    let mut r: Vec<(String, String)> = Vec::new();
    let n = BASE_CHARS.unicode_len();
    let mut i: usize = 0;
    while i < n
        invariant
            n == BASE_CHARS@.len(),
            i <= n,
            pairs_view(r@) == char_tokens(BASE_CHARS@).take(i as int),
        decreases n - i,
    {
        let c = BASE_CHARS.substring_char(i, i + 1).to_owned();
        assert(c@ =~= seq![BASE_CHARS@[i as int]]);
        let ghost before = pairs_view(r@);
        r.push((c.clone(), c));
        assert(pairs_view(r@) =~= before.push((seq![BASE_CHARS@[i as int]], seq![BASE_CHARS@[i as int]])));
        assert(char_tokens(BASE_CHARS@).take(i + 1) =~= char_tokens(BASE_CHARS@).take(i as int).push(
            (seq![BASE_CHARS@[i as int]], seq![BASE_CHARS@[i as int]]),
        ));
        i = i + 1;
    }
    assert(char_tokens(BASE_CHARS@).take(n as int) =~= char_tokens(BASE_CHARS@));
    let ghost chars = pairs_view(r@);
    let mut j: usize = 0;
    while j < shorthands.len()
        invariant
            j <= shorthands@.len(),
            pairs_view(r@) == chars + pairs_view(shorthands@).take(j as int),
        decreases shorthands@.len() - j,
    {
        let ghost before = pairs_view(r@);
        r.push((shorthands[j].0.clone(), shorthands[j].1.clone()));
        assert(pairs_view(shorthands@).take(j + 1) =~= pairs_view(shorthands@).take(j as int).push(
            (shorthands@[j as int].0@, shorthands@[j as int].1@),
        ));
        assert(pairs_view(r@) =~= before.push((shorthands@[j as int].0@, shorthands@[j as int].1@)));
        j = j + 1;
    }
    assert(pairs_view(shorthands@).take(shorthands@.len() as int) =~= pairs_view(shorthands@));
    let mut unused: Vec<(String, String)> = Vec::new();
    let ghost r0 = pairs_view(r@);
    explore_module(&mut r, &mut unused, sym, "", false);
    proof { reveal_strlit(""); }
    assert(""@ =~= Seq::<char>::empty());
    assert(pairs_view(r@) =~= base_tokens(*sym, pairs_view(shorthands@)));
    r
}

/// Every styled name: each base token (digits and Latin letters, then
/// `shorthands`, then the active symbols of `sym`) under each descriptor,
/// keeping for each token only the first name of each distinct value.
pub fn find_math_names(sym: &Module, shorthands: &Vec<(String, String)>) -> (r: Vec<(String, String)>)
    ensures
        pairs_view(r@) == styled_names(base_tokens(*sym, pairs_view(shorthands@))),
{
    let bases = collect_bases(sym, shorthands);
    let ghost b = pairs_view(bases@);
    let mut r: Vec<(String, String)> = Vec::new();
    let mut i: usize = 0;
    while i < bases.len()
        invariant
            b == pairs_view(bases@),
            i <= bases@.len(),
            pairs_view(r@) == styled_names(b.take(i as int)),
        decreases bases@.len() - i,
    {
        push_variations(&mut r, &bases[i].0, &bases[i].1);
        assert(b.take(i + 1).drop_last() =~= b.take(i as int));
        i = i + 1;
    }
    assert(b.take(bases@.len() as int) =~= b);
    r
}

} // verus!
