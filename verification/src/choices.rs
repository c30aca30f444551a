//! The drop-down choices of the settings pages: which entry shows a saved
//! setting, and which setting an entry saves.
use crate::hud::HudPosition;
use crate::parser::opt_view;
use crate::text::{chars_of, contains, contains_exec, eq_chars, lower_chars, str_eq, lowercase, uppercase, upper_chars};
use vstd::prelude::*;

verus! {

broadcast use vstd::string::group_string_axioms;

// ---------------------------------------------------------------------------
// Keyboard layout
// ---------------------------------------------------------------------------

/// The entry that shows an uppercase layout name: ISO 1, JIS 2, ABNT2 3,
/// HU or HUNGARIAN 4, ORTHO or ORTHOLINEAR 5, anything else (ANSI) 0.
pub open spec fn layout_index_of(upper: Seq<char>) -> u32 {
    if upper == "ISO"@ {
        1
    } else if upper == "JIS"@ {
        2
    } else if upper == "ABNT2"@ {
        3
    } else if upper == "HU"@ || upper == "HUNGARIAN"@ {
        4
    } else if upper == "ORTHO"@ || upper == "ORTHOLINEAR"@ {
        5
    } else {
        0
    }
}

/// The layout an entry saves.
pub open spec fn layout_name_at(i: u32) -> Seq<char> {
    if i == 1 {
        "ISO"@
    } else if i == 2 {
        "JIS"@
    } else if i == 3 {
        "ABNT2"@
    } else if i == 4 {
        "HUNGARIAN"@
    } else if i == 5 {
        "ORTHOLINEAR"@
    } else {
        "ANSI"@
    }
}

/// The entry that shows the saved layout setting (read in uppercase).
pub fn layout_choice_index(layout: &str) -> (r: u32)
    ensures
        r == layout_index_of(uppercase(layout@)),
{
    let u = upper_chars(&chars_of(layout));
    if eq_chars(&u, &chars_of("ISO")) {
        1
    } else if eq_chars(&u, &chars_of("JIS")) {
        2
    } else if eq_chars(&u, &chars_of("ABNT2")) {
        3
    } else if eq_chars(&u, &chars_of("HU")) || eq_chars(&u, &chars_of("HUNGARIAN")) {
        4
    } else if eq_chars(&u, &chars_of("ORTHO")) || eq_chars(&u, &chars_of("ORTHOLINEAR")) {
        5
    } else {
        0
    }
}

/// The layout setting an entry saves.
pub fn layout_choice_name(i: u32) -> (r: &'static str)
    ensures
        r@ == layout_name_at(i),
{
    match i {
        1 => "ISO",
        2 => "JIS",
        3 => "ABNT2",
        4 => "HUNGARIAN",
        5 => "ORTHOLINEAR",
        _ => "ANSI",
    }
}

/// The layout an entry saves is shown by that entry again (the saved names
/// are already uppercase).
pub proof fn lemma_layout_choice_round_trip(i: u32)
    requires
        i <= 5,
    ensures
        layout_index_of(layout_name_at(i)) == i,
{
    reveal_strlit("ISO");
    reveal_strlit("JIS");
    reveal_strlit("ABNT2");
    reveal_strlit("HU");
    reveal_strlit("HUNGARIAN");
    reveal_strlit("ORTHO");
    reveal_strlit("ORTHOLINEAR");
    reveal_strlit("ANSI");
    assert("ISO"@ != "JIS"@) by {
        assert("ISO"@[0] != "JIS"@[0]);
    }
    assert("ISO"@.len() == 3 && "JIS"@.len() == 3 && "ABNT2"@.len() == 5 && "HU"@.len() == 2);
    assert("HUNGARIAN"@.len() == 9 && "ORTHO"@.len() == 5 && "ORTHOLINEAR"@.len() == 11);
    assert("ANSI"@.len() == 4);
}

// ---------------------------------------------------------------------------
// Default sort column
// ---------------------------------------------------------------------------

/// The entry that shows a lowercase sort setting: one naming modifiers 1,
/// the action 2, arguments 3, the submap 4, else the key 0 (tested in that
/// order, by the part of the name it contains).
pub open spec fn sort_index_of(lower: Seq<char>) -> u32 {
    if contains(lower, "mod"@) {
        1
    } else if contains(lower, "disp"@) || contains(lower, "action"@) {
        2
    } else if contains(lower, "arg"@) {
        3
    } else if contains(lower, "sub"@) {
        4
    } else {
        0
    }
}

/// The sort setting an entry saves.
pub open spec fn sort_name_at(i: u32) -> Seq<char> {
    if i == 1 {
        "mods"@
    } else if i == 2 {
        "dispatcher"@
    } else if i == 3 {
        "args"@
    } else if i == 4 {
        "submap"@
    } else {
        "key"@
    }
}

/// The entry that shows the saved sort setting (read in lowercase).
pub fn sort_choice_index(sort: &str) -> (r: u32)
    ensures
        r == sort_index_of(lowercase(sort@)),
{
    let l = lower_chars(&chars_of(sort));
    if contains_exec(&l, &chars_of("mod")) {
        1
    } else if contains_exec(&l, &chars_of("disp")) || contains_exec(&l, &chars_of("action")) {
        2
    } else if contains_exec(&l, &chars_of("arg")) {
        3
    } else if contains_exec(&l, &chars_of("sub")) {
        4
    } else {
        0
    }
}

/// The sort setting an entry saves.
pub fn sort_choice_name(i: u32) -> (r: &'static str)
    ensures
        r@ == sort_name_at(i),
{
    match i {
        1 => "mods",
        2 => "dispatcher",
        3 => "args",
        4 => "submap",
        _ => "key",
    }
}

// ---------------------------------------------------------------------------
// Overlay position
// ---------------------------------------------------------------------------

/// The entry of a position: top right, top left, bottom right, bottom left.
pub open spec fn position_index_of(p: HudPosition) -> u32 {
    match p {
        HudPosition::TopRight => 0,
        HudPosition::TopLeft => 1,
        HudPosition::BottomRight => 2,
        HudPosition::BottomLeft => 3,
    }
}

/// The position an entry saves; an unknown entry is the top right.
pub open spec fn position_at(i: u32) -> HudPosition {
    if i == 1 {
        HudPosition::TopLeft
    } else if i == 2 {
        HudPosition::BottomRight
    } else if i == 3 {
        HudPosition::BottomLeft
    } else {
        HudPosition::TopRight
    }
}

/// The entry that shows a position.
pub fn position_choice_index(p: HudPosition) -> (r: u32)
    ensures
        r == position_index_of(p),
{
    match p {
        HudPosition::TopRight => 0,
        HudPosition::TopLeft => 1,
        HudPosition::BottomRight => 2,
        HudPosition::BottomLeft => 3,
    }
}

/// The position an entry saves.
pub fn position_choice(i: u32) -> (r: HudPosition)
    ensures
        r == position_at(i),
{
    match i {
        1 => HudPosition::TopLeft,
        2 => HudPosition::BottomRight,
        3 => HudPosition::BottomLeft,
        _ => HudPosition::TopRight,
    }
}

/// Choosing the entry of a position saves that position, and the entry of
/// a saved position is the one chosen.
pub proof fn lemma_position_choice_round_trip(p: HudPosition, i: u32)
    requires
        i <= 3,
    ensures
        position_at(position_index_of(p)) == p,
        position_index_of(position_at(i)) == i,
{
}

// ---------------------------------------------------------------------------
// Default submap
// ---------------------------------------------------------------------------

/// The default submap an entry saves: none for `All Submaps`.
pub open spec fn default_submap_of(entry: Seq<char>) -> Option<Seq<char>> {
    if entry == "All Submaps"@ {
        None
    } else {
        Some(entry)
    }
}

/// The default submap saved for a chosen entry.
pub fn default_submap_choice(entry: &str) -> (r: Option<String>)
    ensures
        opt_view(r) == default_submap_of(entry@),
{
    if str_eq(entry, "All Submaps") {
        None
    } else {
        Some(entry.to_string())
    }
}

} // verus!
