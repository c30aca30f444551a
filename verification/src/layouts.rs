//! The physical keyboard layout that the keyboard view draws, chosen from
//! the `kb_layout` setting.
use crate::text::{chars_of, eq_chars, lower_chars, split_on, split_on_exec, trim, trim_chars, lowercase};
use vstd::prelude::*;

verus! {

broadcast use vstd::string::group_string_axioms;

/// The first keyboard layout of a comma-separated list, trimmed and
/// lowercased.
pub open spec fn first_layout(kb_layout: Seq<char>) -> Seq<char> {
    lowercase(trim(split_on(kb_layout, ',')[0]))
}

/// The physical layout of a keyboard layout code: `jp` is JIS, `br` ABNT2,
/// `hu` HU, the European codes ISO, anything else ANSI.
pub open spec fn layout_of(code: Seq<char>) -> Seq<char> {
    if code == "jp"@ {
        "JIS"@
    } else if code == "br"@ {
        "ABNT2"@
    } else if code == "hu"@ {
        "HU"@
    } else if code == "us"@ {
        "ANSI"@
    } else if code == "gb"@ || code == "uk"@ || code == "de"@ || code == "fr"@ || code == "it"@
        || code == "es"@ || code == "pt"@ || code == "no"@ || code == "se"@ || code == "fi"@ || code
        == "dk"@ || code == "pl"@ || code == "cz"@ {
        "ISO"@
    } else {
        "ANSI"@
    }
}

fn is_code(c: &[char], lit: &str) -> (r: bool)
    ensures
        r == (c@ == lit@),
{
    eq_chars(c, &chars_of(lit))
}

/// The physical layout for a `kb_layout` setting, from its first layout.
pub fn detect_layout(kb_layout: &str) -> (r: &'static str)
    ensures
        r@ == layout_of(first_layout(kb_layout@)),
{
    let parts = split_on_exec(&chars_of(kb_layout), ',');
    proof {
        assert(split_on(kb_layout@, ',').len() > 0) by {
            crate::text::lemma_find_from(kb_layout@, seq![','], 0);
        }
    }
    let c = lower_chars(&trim_chars(&parts[0]));
    if is_code(&c, "jp") {
        "JIS"
    } else if is_code(&c, "br") {
        "ABNT2"
    } else if is_code(&c, "hu") {
        "HU"
    } else if is_code(&c, "us") {
        "ANSI"
    } else if is_code(&c, "gb") || is_code(&c, "uk") || is_code(&c, "de") || is_code(&c, "fr")
        || is_code(&c, "it") || is_code(&c, "es") || is_code(&c, "pt") || is_code(&c, "no")
        || is_code(&c, "se") || is_code(&c, "fi") || is_code(&c, "dk") || is_code(&c, "pl")
        || is_code(&c, "cz") {
        "ISO"
    } else {
        "ANSI"
    }
}

/// The key rows a layout name selects.
#[derive(Clone, Copy, Debug, PartialEq, Eq, Structural)]
pub enum LayoutRows {
    Ansi,
    Iso,
    Jis,
    Abnt2,
    Hu,
}

/// The rows drawn for a layout name: `HU` and `HUNGARIAN` both give the
/// Hungarian rows; unknown names the ANSI ones.
pub open spec fn rows_of(layout: Seq<char>) -> LayoutRows {
    if layout == "ISO"@ {
        LayoutRows::Iso
    } else if layout == "JIS"@ {
        LayoutRows::Jis
    } else if layout == "ABNT2"@ {
        LayoutRows::Abnt2
    } else if layout == "HU"@ || layout == "HUNGARIAN"@ {
        LayoutRows::Hu
    } else {
        LayoutRows::Ansi
    }
}

/// The key rows to draw for a layout name.
pub fn layout_rows(layout: &str) -> (r: LayoutRows)
    ensures
        r == rows_of(layout@),
{
    let c = chars_of(layout);
    if is_code(&c, "ISO") {
        LayoutRows::Iso
    } else if is_code(&c, "JIS") {
        LayoutRows::Jis
    } else if is_code(&c, "ABNT2") {
        LayoutRows::Abnt2
    } else if is_code(&c, "HU") || is_code(&c, "HUNGARIAN") {
        LayoutRows::Hu
    } else {
        LayoutRows::Ansi
    }
}

} // verus!
