//! Math style descriptors, the names they give to styled tokens, and the
//! styled values that a token takes under each descriptor.

use vstd::prelude::*;
use vstd::string::{StringExecFns, StrSliceExecFns};

verus! {

/// The base alphabet of a math style.
#[derive(Clone, Copy, Debug, PartialEq, Eq, Structural)]
pub enum MathVariant {
    Plain,
    Fraktur,
    SansSerif,
    Monospace,
    DoubleStruck,
    Chancery,
    Roundhand,
}

/// A style descriptor: a variant, boldness, and an optional italic choice
/// (`None` leaves italics to the automatic rules).
#[derive(Clone, Copy, Debug, PartialEq, Eq, Structural)]
pub struct MathStyleConfig {
    pub variant: MathVariant,
    pub bold: bool,
    pub italic: Option<bool>,
}

/// Number of style descriptors.
pub const CONFIG_COUNT: usize = 42;

/// The variant at position `i` of the enumeration order.
pub open spec fn variant_at(i: int) -> MathVariant {
    if i == 0 {
        MathVariant::Plain
    } else if i == 1 {
        MathVariant::Fraktur
    } else if i == 2 {
        MathVariant::SansSerif
    } else if i == 3 {
        MathVariant::Monospace
    } else if i == 4 {
        MathVariant::DoubleStruck
    } else if i == 5 {
        MathVariant::Chancery
    } else {
        MathVariant::Roundhand
    }
}

/// The descriptor at position `i` of the enumeration order: variants outermost,
/// then boldness (off first), then italics (none, upright, italic).
pub open spec fn config_at(i: int) -> MathStyleConfig {
    MathStyleConfig {
        variant: variant_at(i / 6),
        bold: i % 6 >= 3,
        italic: if i % 3 == 0 {
            None
        } else if i % 3 == 1 {
            Some(false)
        } else {
            Some(true)
        },
    }
}

/// The function name that wraps a token in `v`, if any.
pub open spec fn variant_function(v: MathVariant) -> Seq<char> {
    match v {
        MathVariant::Plain => Seq::empty(),
        MathVariant::Fraktur => seq!['f', 'r', 'a', 'k'],
        MathVariant::SansSerif => seq!['s', 'a', 'n', 's'],
        MathVariant::Monospace => seq!['m', 'o', 'n', 'o'],
        MathVariant::DoubleStruck => seq!['b', 'b'],
        MathVariant::Chancery => seq!['c', 'a', 'l'],
        MathVariant::Roundhand => seq!['s', 'c', 'r'],
    }
}

/// `f(body)`.
pub open spec fn call_of(f: Seq<char>, body: Seq<char>) -> Seq<char> {
    f + seq!['('] + body + seq![')']
}

/// The name of `body` styled by `cfg`: variant innermost, then italics, then
/// boldness outermost, e.g. `bold(upright(frak(A)))`.
pub open spec fn style_name(cfg: MathStyleConfig, body: Seq<char>) -> Seq<char> {
    let inner = if cfg.variant == MathVariant::Plain {
        body
    } else {
        call_of(variant_function(cfg.variant), body)
    };
    let slanted = match cfg.italic {
        None => inner,
        Some(false) => call_of(seq!['u', 'p', 'r', 'i', 'g', 'h', 't'], inner),
        Some(true) => call_of(seq!['i', 't', 'a', 'l', 'i', 'c'], inner),
    };
    if cfg.bold {
        call_of(seq!['b', 'o', 'l', 'd'], slanted)
    } else {
        slanted
    }
}

/// What codex's math styling makes of the character `c` under `cfg`.
pub uninterp spec fn styled_char(c: char, cfg: MathStyleConfig) -> Seq<char>;

/// Relies on codex's `MathStyle::select`, which picks the math style for `c`
/// from the descriptor, and `to_style`, which yields the styled characters:
/// together a function of `c` and the descriptor alone.
#[verifier::external_body]
fn apply_style(c: char, cfg: MathStyleConfig) -> (r: String)
    ensures
        r@ == styled_char(c, cfg),
{
    let variant = match cfg.variant {
        MathVariant::Plain => codex::styling::MathVariant::Plain,
        MathVariant::Fraktur => codex::styling::MathVariant::Fraktur,
        MathVariant::SansSerif => codex::styling::MathVariant::SansSerif,
        MathVariant::Monospace => codex::styling::MathVariant::Monospace,
        MathVariant::DoubleStruck => codex::styling::MathVariant::DoubleStruck,
        MathVariant::Chancery => codex::styling::MathVariant::Chancery,
        MathVariant::Roundhand => codex::styling::MathVariant::Roundhand,
    };
    let style = codex::styling::MathStyle::select(c, Some(variant), cfg.bold, cfg.italic);
    codex::styling::to_style(c, style).collect()
}

/// The characters of `s` styled one by one under `cfg`, concatenated.
pub open spec fn styled_value(cfg: MathStyleConfig, s: Seq<char>) -> Seq<char>
    decreases s.len(),
{
    if s.len() == 0 {
        Seq::empty()
    } else {
        styled_value(cfg, s.drop_last()) + styled_char(s.last(), cfg)
    }
}

/// The text presentation selector, U+FE0E.
pub open spec fn text_selector() -> char {
    '\u{FE0E}'
}

/// `(found, emitted)` after one descriptor's styled value `res`: the value
/// without a trailing text presentation selector comes first, then the value
/// itself, each only if not found before.
pub open spec fn variation_step(
    state: (Seq<Seq<char>>, Seq<(MathStyleConfig, Seq<char>)>),
    cfg: MathStyleConfig,
    res: Seq<char>,
) -> (Seq<Seq<char>>, Seq<(MathStyleConfig, Seq<char>)>) {
    let (found, out) = state;
    let stripped = res.drop_last();
    let (found1, out1) = if res.len() > 0 && res.last() == text_selector() && !found.contains(
        stripped,
    ) {
        (found.push(stripped), out.push((cfg, stripped)))
    } else {
        (found, out)
    };
    if !found1.contains(res) {
        (found1.push(res), out1.push((cfg, res)))
    } else {
        (found1, out1)
    }
}

/// The variations of `s` under the first `n` descriptors.
pub open spec fn variations_upto(s: Seq<char>, n: nat) -> (
    Seq<Seq<char>>,
    Seq<(MathStyleConfig, Seq<char>)>,
)
    decreases n,
{
    if n == 0 {
        (Seq::empty(), Seq::empty())
    } else {
        let cfg = config_at(n - 1);
        variation_step(variations_upto(s, (n - 1) as nat), cfg, styled_value(cfg, s))
    }
}

/// Every distinct styled value of `s`, each with the first descriptor that
/// gives it.
pub open spec fn variations(s: Seq<char>) -> Seq<(MathStyleConfig, Seq<char>)> {
    variations_upto(s, CONFIG_COUNT as nat).1
}

/// The views of a list of `(descriptor, value)` results.
pub open spec fn config_strings_view(v: Seq<(MathStyleConfig, String)>) -> Seq<
    (MathStyleConfig, Seq<char>),
> {
    v.map_values(|p: (MathStyleConfig, String)| (p.0, p.1@))
}

/// The variant with index `i` of the enumeration order.
fn variant_of_index(i: usize) -> (v: MathVariant)
    ensures
        v == variant_at(i as int),
{
    if i == 0 {
        MathVariant::Plain
    } else if i == 1 {
        MathVariant::Fraktur
    } else if i == 2 {
        MathVariant::SansSerif
    } else if i == 3 {
        MathVariant::Monospace
    } else if i == 4 {
        MathVariant::DoubleStruck
    } else if i == 5 {
        MathVariant::Chancery
    } else {
        MathVariant::Roundhand
    }
}

/// Wraps `body` as a call of the function named `f`.
fn call_with(f: &str, body: String) -> (r: String)
    ensures
        r@ == call_of(f@, body@),
{
    let mut s = String::from_str(f);
    s.append("(");
    s.append(body.as_str());
    s.append(")");
    proof {
        reveal_strlit("(");
        reveal_strlit(")");
    }
    assert(s@ =~= call_of(f@, body@));
    s
}

impl MathStyleConfig {
    /// The descriptor at position `i` of the enumeration order.
    pub fn at(i: usize) -> (r: MathStyleConfig)
        requires
            i < CONFIG_COUNT,
        ensures
            r == config_at(i as int),
    {
        let k: usize = i % 3;
        MathStyleConfig {
            variant: variant_of_index(i / 6),
            bold: i % 6 >= 3,
            italic: if k == 0 {
                None
            } else if k == 1 {
                Some(false)
            } else {
                Some(true)
            },
        }
    }

    /// All descriptors, in enumeration order.
    pub fn all() -> (r: Vec<MathStyleConfig>)
        ensures
            r@.len() == CONFIG_COUNT,
            forall|i: int| 0 <= i < CONFIG_COUNT ==> #[trigger] r@[i] == config_at(i),
    {
        let mut r: Vec<MathStyleConfig> = Vec::new();
        let mut i: usize = 0;
        while i < CONFIG_COUNT
            invariant
                i <= CONFIG_COUNT,
                r@.len() == i,
                forall|j: int| 0 <= j < i ==> #[trigger] r@[j] == config_at(j),
            decreases CONFIG_COUNT - i,
        {
            r.push(MathStyleConfig::at(i));
            i = i + 1;
        }
        r
    }

    /// The name of `body` styled by this descriptor, e.g. `bold(upright(frak(A)))`.
    pub fn to_typst(self, body: &str) -> (r: String)
        ensures
            r@ == style_name(self, body@),
    {
        let mut s = String::from_str(body);
        let f: &str = match self.variant {
            MathVariant::Plain => "",
            MathVariant::Fraktur => "frak",
            MathVariant::SansSerif => "sans",
            MathVariant::Monospace => "mono",
            MathVariant::DoubleStruck => "bb",
            MathVariant::Chancery => "cal",
            MathVariant::Roundhand => "scr",
        };
        proof {
            reveal_strlit("frak");
            reveal_strlit("sans");
            reveal_strlit("mono");
            reveal_strlit("bb");
            reveal_strlit("cal");
            reveal_strlit("scr");
            reveal_strlit("upright");
            reveal_strlit("italic");
            reveal_strlit("bold");
        }
        if self.variant != MathVariant::Plain {
            assert(f@ =~= variant_function(self.variant));
            s = call_with(f, s);
        }
        match self.italic {
            None => {},
            Some(false) => {
                s = call_with("upright", s);
            },
            Some(true) => {
                s = call_with("italic", s);
            },
        }
        if self.bold {
            s = call_with("bold", s);
        }
        assert(s@ =~= style_name(self, body@));
        s
    }

    /// The characters of `source` styled one by one, concatenated.
    pub fn apply_to(self, source: &str) -> (r: String)
        ensures
            r@ == styled_value(self, source@),
    {
        let n = source.unicode_len();
        let mut r = String::new();
        let mut i: usize = 0;
        while i < n
            invariant
                n == source@.len(),
                i <= n,
                r@ == styled_value(self, source@.take(i as int)),
            decreases n - i,
        {
            let c = source.get_char(i);
            let piece = apply_style(c, self);
            r.append(piece.as_str());
            assert(source@.take(i + 1).drop_last() =~= source@.take(i as int));
            i = i + 1;
        }
        assert(source@.take(n as int) =~= source@);
        r
    }
}

/// Whether `found` holds a string equal to `s`.
fn holds_string(found: &Vec<String>, s: &String) -> (r: bool)
    ensures
        r == found@.map_values(|f: String| f@).contains(s@),
{
    let ghost fv = found@.map_values(|f: String| f@);
    let mut i: usize = 0;
    while i < found.len()
        invariant
            fv == found@.map_values(|f: String| f@),
            i <= found@.len(),
            forall|j: int| 0 <= j < i ==> #[trigger] fv[j] != s@,
        decreases found@.len() - i,
    {
        if found[i] == *s {
            assert(fv[i as int] == s@);
            return true;
        }
        i = i + 1;
    }
    false
}

/// Every distinct styled value of `source`, each with the first descriptor
/// (in enumeration order) that gives it; a value that ends in a text
/// presentation selector also yields the value without it, just before.
pub fn find_variations(source: &str) -> (r: Vec<(MathStyleConfig, String)>)
    ensures
        config_strings_view(r@) == variations(source@),
{
    let configs = MathStyleConfig::all();
    let mut found: Vec<String> = Vec::new();
    let mut out: Vec<(MathStyleConfig, String)> = Vec::new();
    let mut i: usize = 0;
    while i < CONFIG_COUNT
        invariant
            configs@.len() == CONFIG_COUNT,
            forall|j: int| 0 <= j < CONFIG_COUNT ==> #[trigger] configs@[j] == config_at(j),
            i <= CONFIG_COUNT,
            found@.map_values(|f: String| f@) == variations_upto(source@, i as nat).0,
            config_strings_view(out@) == variations_upto(source@, i as nat).1,
        decreases CONFIG_COUNT - i,
    {
        let cfg = configs[i];
        let res = cfg.apply_to(source);
        let ghost found0 = found@.map_values(|f: String| f@);
        let ghost out0 = out@;
        let ghost state = variations_upto(source@, i as nat);
        let ghost res_v = res@;
        let ghost stripped = res_v.drop_last();
        let n = res.as_str().unicode_len();
        if n > 0 && res.as_str().get_char(n - 1) == '\u{FE0E}' {
            let alt = res.as_str().substring_char(0, n - 1).to_owned();
            assert(alt@ =~= stripped);
            if !holds_string(&found, &alt) {
                found.push(alt.clone());
                out.push((cfg, alt));
                assert(found@.map_values(|f: String| f@) =~= found0.push(stripped));
                assert(config_strings_view(out@) =~= config_strings_view(out0).push((cfg, stripped)));
            }
        }
        let ghost found1 = found@.map_values(|f: String| f@);
        let ghost out1 = out@;
        if !holds_string(&found, &res) {
            found.push(res.clone());
            out.push((cfg, res));
            assert(found@.map_values(|f: String| f@) =~= found1.push(res_v));
            assert(config_strings_view(out@) =~= config_strings_view(out1).push((cfg, res_v)));
        }
        i = i + 1;
    }
    out
}

} // verus!
