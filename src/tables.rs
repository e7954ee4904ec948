//! The three name tables and the two queries over them.

use vstd::prelude::*;
use crate::builder::{base_tokens, styled_names, find_math_names};
use crate::encode::{encodes, encode_name_list, pairs_view, utf8_of};
use crate::lookup::{strictly_sorted, table_view, names_for, find_names};
use crate::namespace::{Module, explore_module, module_entries, select_pairs};

verus! {

/// The encoded tables: active names, deprecated names, and styled names.
pub struct NameTables {
    pub symbols: Vec<(Vec<u8>, Vec<u8>)>,
    pub deprecated: Vec<(Vec<u8>, Vec<u8>)>,
    pub math_names: Vec<(Vec<u8>, Vec<u8>)>,
}

impl NameTables {
    /// Every table is sorted strictly by value.
    pub open spec fn wf(&self) -> bool {
        &&& strictly_sorted(table_view(self.symbols@))
        &&& strictly_sorted(table_view(self.deprecated@))
        &&& strictly_sorted(table_view(self.math_names@))
    }
}

/// Builds the tables: the active and deprecated names of `root`, and the
/// styled names of the base tokens drawn from `sym` and `shorthands`.
pub fn build_tables(root: &Module, sym: &Module, shorthands: &Vec<(String, String)>) -> (t: NameTables)
    ensures
        t.wf(),
        encodes(
            utf8_of(select_pairs(module_entries(*root, Seq::empty(), false), false)),
            table_view(t.symbols@),
        ),
        encodes(
            utf8_of(select_pairs(module_entries(*root, Seq::empty(), false), true)),
            table_view(t.deprecated@),
        ),
        encodes(
            utf8_of(styled_names(base_tokens(*sym, pairs_view(shorthands@)))),
            table_view(t.math_names@),
        ),
{
    let mut symbols: Vec<(String, String)> = Vec::new();
    let mut deprecated: Vec<(String, String)> = Vec::new();
    explore_module(&mut symbols, &mut deprecated, root, "", false);
    proof { reveal_strlit(""); }
    assert(""@ =~= Seq::<char>::empty());
    assert(pairs_view(symbols@) =~= select_pairs(module_entries(*root, Seq::empty(), false), false));
    assert(pairs_view(deprecated@) =~= select_pairs(module_entries(*root, Seq::empty(), false), true));
    let math_names = find_math_names(sym, shorthands);
    NameTables {
        symbols: encode_name_list(&symbols),
        deprecated: encode_name_list(&deprecated),
        math_names: encode_name_list(&math_names),
    }
}

/// The active names of `symbol`, joined by zero bytes; empty if none.
pub fn get_names(symbol: &[u8], tables: &NameTables) -> (r: Vec<u8>)
    requires
        tables.wf(),
    ensures
        r@ == names_for(table_view(tables.symbols@), symbol@),
{
    find_names(symbol, tables.symbols.as_slice())
}

/// The deprecated names of `symbol`, joined by zero bytes; empty if none.
pub fn get_deprecated_names(symbol: &[u8], tables: &NameTables) -> (r: Vec<u8>)
    requires
        tables.wf(),
    ensures
        r@ == names_for(table_view(tables.deprecated@), symbol@),
{
    find_names(symbol, tables.deprecated.as_slice())
}

} // verus!
