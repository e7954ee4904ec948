use symbol_names::builder::find_math_names;
use symbol_names::lookup::find_names;
use symbol_names::namespace::{explore_module, Binding, Def, Module, Variant};
use symbol_names::styling::{find_variations, MathStyleConfig, MathVariant};
use symbol_names::tables::{build_tables, get_deprecated_names, get_names, NameTables};

fn variant(modifiers: &str, value: &str, deprecated: bool) -> Variant {
    Variant { modifiers: modifiers.to_string(), value: value.to_string(), deprecated }
}

fn symbol(id: &str, deprecated: bool, variants: Vec<Variant>) -> Binding {
    Binding { id: id.to_string(), deprecated, def: Def::Symbol(variants) }
}

fn module(id: &str, deprecated: bool, bindings: Vec<Binding>) -> Binding {
    Binding { id: id.to_string(), deprecated, def: Def::Module(Module { bindings }) }
}

fn alpha_namespace() -> Module {
    Module {
        bindings: vec![symbol(
            "alpha",
            false,
            vec![variant("", "α", false), variant("alt", "α", true)],
        )],
    }
}

fn tables_of(root: &Module) -> NameTables {
    build_tables(root, &Module { bindings: Vec::new() }, &Vec::new())
}

fn sample_namespace() -> Module {
    Module {
        bindings: vec![
            module(
                "sym",
                false,
                vec![
                    symbol("arrow", false, vec![variant("", "→", false), variant("r.long", "⟶", false)]),
                    symbol("old", true, vec![variant("", "‽", false)]),
                    module("legacy", true, vec![symbol("dot", false, vec![variant("", "⋅", false)])]),
                ],
            ),
            symbol("top", false, vec![variant("", "⊤", false), variant("x", "⊥", true)]),
        ],
    }
}

fn pairs(v: &[(&str, &str)]) -> Vec<(String, String)> {
    v.iter().map(|(a, b)| (a.to_string(), b.to_string())).collect()
}

#[test]
fn alpha_scenario() {
    let t = tables_of(&alpha_namespace());
    assert_eq!(get_names("α".as_bytes(), &t), b"alpha".to_vec());
    assert_eq!(get_deprecated_names("α".as_bytes(), &t), b"alpha.alt".to_vec());
    assert!(get_names("β".as_bytes(), &t).is_empty());
}

#[test]
fn walk_builds_dotted_names_and_propagates_deprecation() {
    let mut active = Vec::new();
    let mut deprecated = Vec::new();
    explore_module(&mut active, &mut deprecated, &sample_namespace(), "", false);
    assert_eq!(
        active,
        pairs(&[("sym.arrow", "→"), ("sym.arrow.r.long", "⟶"), ("top", "⊤")])
    );
    assert_eq!(
        deprecated,
        pairs(&[("sym.old", "‽"), ("sym.legacy.dot", "⋅"), ("top.x", "⊥")])
    );
}

#[test]
fn walk_partitions_every_variant() {
    let mut active = Vec::new();
    let mut deprecated = Vec::new();
    explore_module(&mut active, &mut deprecated, &sample_namespace(), "", false);
    assert_eq!(active.len() + deprecated.len(), 6);
    for (name, _) in &active {
        assert!(deprecated.iter().all(|(d, _)| d != name));
    }
}

#[test]
fn walk_under_deprecated_prefix_marks_all() {
    let mut active = Vec::new();
    let mut deprecated = Vec::new();
    explore_module(&mut active, &mut deprecated, &sample_namespace(), "root", true);
    assert!(active.is_empty());
    assert_eq!(deprecated.len(), 6);
    assert_eq!(deprecated[0], ("root.sym.arrow".to_string(), "→".to_string()));
}

#[test]
fn descriptors_come_in_fixed_order() {
    let all = MathStyleConfig::all();
    assert_eq!(all.len(), 42);
    assert_eq!(all[0], MathStyleConfig { variant: MathVariant::Plain, bold: false, italic: None });
    assert_eq!(all[4], MathStyleConfig { variant: MathVariant::Plain, bold: true, italic: Some(false) });
    assert_eq!(all[41], MathStyleConfig { variant: MathVariant::Roundhand, bold: true, italic: Some(true) });
}

#[test]
fn style_names_nest_variant_italic_bold() {
    let c = MathStyleConfig { variant: MathVariant::Fraktur, bold: true, italic: Some(false) };
    assert_eq!(c.to_typst("A"), "bold(upright(frak(A)))");
    let c = MathStyleConfig { variant: MathVariant::Plain, bold: false, italic: None };
    assert_eq!(c.to_typst("arrow.r"), "arrow.r");
    let c = MathStyleConfig { variant: MathVariant::DoubleStruck, bold: false, italic: Some(true) };
    assert_eq!(c.to_typst("x"), "italic(bb(x))");
    let c = MathStyleConfig { variant: MathVariant::Roundhand, bold: true, italic: None };
    assert_eq!(c.to_typst("x"), "bold(scr(x))");
}

#[test]
fn styling_is_deterministic() {
    let c = MathStyleConfig { variant: MathVariant::Fraktur, bold: true, italic: Some(false) };
    assert_eq!(c.to_typst("A"), c.to_typst("A"));
    assert_eq!(c.apply_to("A"), c.apply_to("A"));
    assert_eq!(c.apply_to("A"), "\u{1D56C}");
}

#[test]
fn styling_changes_letters() {
    let c = MathStyleConfig { variant: MathVariant::Fraktur, bold: false, italic: None };
    assert_eq!(c.apply_to("Ab"), "\u{1D504}\u{1D51F}");
    let c = MathStyleConfig { variant: MathVariant::Plain, bold: false, italic: Some(false) };
    assert_eq!(c.apply_to("Ab"), "Ab");
}

#[test]
fn variations_keep_first_descriptor_per_value() {
    let v = find_variations("A");
    assert_eq!(v[0], (MathStyleConfig { variant: MathVariant::Plain, bold: false, italic: None }, "\u{1D434}".to_string()));
    assert_eq!(v[1], (MathStyleConfig { variant: MathVariant::Plain, bold: false, italic: Some(false) }, "A".to_string()));
    for i in 0..v.len() {
        for j in 0..i {
            assert_ne!(v[i].1, v[j].1);
        }
    }
}

#[test]
fn variations_strip_text_selector() {
    let v = find_variations("\u{2191}\u{FE0E}");
    let plain = MathStyleConfig { variant: MathVariant::Plain, bold: false, italic: None };
    assert_eq!(v[0], (plain, "\u{2191}".to_string()));
    assert_eq!(v[1], (plain, "\u{2191}\u{FE0E}".to_string()));
    assert_eq!(v.len(), 2);
}

#[test]
fn math_names_cover_letters_shorthands_and_symbols() {
    let sym = Module { bindings: vec![symbol("arrow", false, vec![variant("", "→", false)])] };
    let shorthands = pairs(&[("->", "→")]);
    let names = find_math_names(&sym, &shorthands);
    assert!(names.contains(&("bold(frak(A))".to_string(), "\u{1D56C}".to_string())));
    assert!(names.contains(&("0".to_string(), "0".to_string())));
    assert!(names.contains(&("->".to_string(), "→".to_string())));
    assert!(names.contains(&("arrow".to_string(), "→".to_string())));
    assert!(!names.iter().any(|(n, _)| n == "upright(bold(frak(A)))"));
}

#[test]
fn math_table_finds_styled_names() {
    let sym = Module { bindings: vec![symbol("arrow", false, vec![variant("", "→", false)])] };
    let shorthands = pairs(&[("->", "→")]);
    let t = build_tables(&sym, &sym, &shorthands);
    assert_eq!(find_names("\u{1D56C}".as_bytes(), &t.math_names), b"bold(frak(A))".to_vec());
    assert_eq!(find_names("→".as_bytes(), &t.math_names), b"->\0arrow".to_vec());
    assert_eq!(get_names("→".as_bytes(), &t), b"arrow".to_vec());
}
