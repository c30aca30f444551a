//! The visual keyboard: which layout it draws, which submaps it offers, and
//! which keys the chosen modifiers bind, with their actions.
use crate::components::{collect_submaps, used_submap};
use crate::edit::or_empty;
use crate::export::object_views;
use crate::keybind_object::{KeybindDataView, KeybindObject};
use crate::keybinds::{normalize, normalized_key, normalized_mods};
use crate::layouts::{detect_layout, first_layout, layout_of};
use crate::order::strictly_sorted;
use crate::parser::opt_view;
use crate::search::ascii_lower;
use crate::text::{append, chars_of, eq_chars, join, join_exec, str_eq, string_of, uppercase, upper_chars, views};
use crate::vars::{string_views, VarMap};
use vstd::prelude::*;

verus! {

broadcast use vstd::string::group_string_axioms;

/// The layout drawn for a layout setting: the setting in uppercase, or,
/// when that is `AUTO`, the layout detected from the keyboard layouts.
pub open spec fn drawn_layout(pref: Seq<char>, kb_layout: Seq<char>) -> Seq<char> {
    if uppercase(pref) == "AUTO"@ {
        layout_of(first_layout(kb_layout))
    } else {
        uppercase(pref)
    }
}

/// The layout the keyboard is drawn in.
pub fn keyboard_layout(pref: &str, kb_layout: &str) -> (r: String)
    ensures
        r@ == drawn_layout(pref@, kb_layout@),
{
    let up = upper_chars(&chars_of(pref));
    if eq_chars(&up, &chars_of("AUTO")) {
        detect_layout(kb_layout).to_string()
    } else {
        string_of(&up)
    }
}

/// The name of the submap choice that stands for keybinds outside any
/// submap.
pub open spec fn root_choice() -> Seq<char> {
    "Global (Root)"@
}

/// The submaps offered: the root choice, then the submaps that keybinds
/// use, sorted, each once.
pub fn submap_choices(objects: &[KeybindObject]) -> (r: Vec<String>)
    ensures
        r@.len() >= 1,
        r@[0]@ == root_choice(),
        strictly_sorted(string_views(r@).drop_first()),
        forall|name: Seq<char>|
            string_views(r@).drop_first().contains(name) <==> used_submap(object_views(objects@), name),
{
    let subs = collect_submaps(objects);
    let mut out: Vec<String> = Vec::new();
    out.push("Global (Root)".to_string());
    let mut i: usize = 0;
    while i < subs.len()
        invariant
            i <= subs@.len(),
            out@.len() == i + 1,
            out@[0]@ == root_choice(),
            string_views(out@).drop_first() == string_views(subs@).take(i as int),
        decreases subs@.len() - i,
    {
        out.push(subs[i].clone());
        assert(string_views(out@).drop_first() =~= string_views(subs@).take(i + 1));
        i = i + 1;
    }
    assert(string_views(subs@).take(i as int) =~= string_views(subs@));
    out
}

/// The first position of `name` in `items`, if it is there.
pub open spec fn first_position(items: Seq<Seq<char>>, name: Seq<char>) -> Option<int>
    decreases items.len(),
{
    if items.len() == 0 {
        None
    } else if items[0] == name {
        Some(0)
    } else {
        match first_position(items.drop_first(), name) {
            Some(k) => Some(k + 1),
            None => None,
        }
    }
}

/// The choice selected at first: the first one named like the default
/// submap, else the first choice.
pub open spec fn initial_choice_of(items: Seq<Seq<char>>, default: Option<Seq<char>>) -> int {
    match default {
        Some(d) => match first_position(items, d) {
            Some(k) => k,
            None => 0,
        },
        None => 0,
    }
}

/// The position of the choice selected at first.
pub fn initial_choice(items: &[String], default: &Option<String>) -> (r: usize)
    ensures
        r as int == initial_choice_of(string_views(items@), opt_view(*default)),
{
    match default {
        Some(d) => {
            let ghost all = string_views(items@);
            assert(all.skip(0) =~= all);
            let mut i: usize = 0;
            while i < items.len()
                invariant
                    i <= items@.len(),
                    all == string_views(items@),
                    opt_view(*default) == Some(d@),
                    first_position(all, d@) == (match first_position(all.skip(i as int), d@) {
                        Some(k) => Some(k + i),
                        None => None,
                    }),
                decreases items@.len() - i,
            {
                assert(all.skip(i as int).drop_first() =~= all.skip(i + 1));
                assert(all.skip(i as int)[0] == items@[i as int]@);
                if str_eq(items[i].as_str(), d.as_str()) {
                    assert(first_position(all.skip(i as int), d@) == Some(0int));
                    return i;
                }
                i = i + 1;
            }
            assert(all.skip(i as int) =~= Seq::<Seq<char>>::empty());
            0
        },
        None => 0,
    }
}

/// The modifiers whose toggles are on, in the order SUPER, SHIFT, CTRL,
/// ALT.
pub open spec fn toggled_modifiers(super_on: bool, shift_on: bool, ctrl_on: bool, alt_on: bool) -> Seq<Seq<char>> {
    let a: Seq<Seq<char>> = if super_on {
        seq!["SUPER"@]
    } else {
        seq![]
    };
    let b: Seq<Seq<char>> = if shift_on {
        a.push("SHIFT"@)
    } else {
        a
    };
    let c: Seq<Seq<char>> = if ctrl_on {
        b.push("CTRL"@)
    } else {
        b
    };
    if alt_on {
        c.push("ALT"@)
    } else {
        c
    }
}

/// The modifiers of the toggles that are on.
pub fn active_modifiers(super_on: bool, shift_on: bool, ctrl_on: bool, alt_on: bool) -> (r: Vec<String>)
    ensures
        string_views(r@) == toggled_modifiers(super_on, shift_on, ctrl_on, alt_on),
{
    let mut out: Vec<String> = Vec::new();
    if super_on {
        out.push("SUPER".to_string());
    }
    if shift_on {
        out.push("SHIFT".to_string());
    }
    if ctrl_on {
        out.push("CTRL".to_string());
    }
    if alt_on {
        out.push("ALT".to_string());
    }
    assert(string_views(out@) =~= toggled_modifiers(super_on, shift_on, ctrl_on, alt_on));
    out
}

/// `str::eq_ignore_ascii_case`: the same length, and the same characters
/// once ASCII letters are lowercased.
pub open spec fn same_ignoring_ascii_case(a: Seq<char>, b: Seq<char>) -> bool {
    a.len() == b.len() && forall|i: int| 0 <= i < a.len() ==> ascii_lower(#[trigger] a[i]) == ascii_lower(b[i])
}

fn ascii_lower_exec(c: char) -> (r: char)
    ensures
        r == ascii_lower(c),
{
    if 'A' <= c && c <= 'Z' {
        let b: u8 = c as u8;
        assert(b == c as u32);
        ((b + 32) as char)
    } else {
        c
    }
}

fn eq_ignore_ascii_case(a: &[char], b: &[char]) -> (r: bool)
    ensures
        r == same_ignoring_ascii_case(a@, b@),
{
    if a.len() != b.len() {
        return false;
    }
    let mut i: usize = 0;
    while i < a.len()
        invariant
            i <= a@.len(),
            a@.len() == b@.len(),
            forall|k: int| 0 <= k < i ==> ascii_lower(#[trigger] a@[k]) == ascii_lower(b@[k]),
        decreases a@.len() - i,
    {
        if ascii_lower_exec(a[i]) != ascii_lower_exec(b[i]) {
            return false;
        }
        i = i + 1;
    }
    true
}

/// Whether a keybind in `submap` (empty outside any) is shown for the
/// chosen submap: with the root choice, those outside any submap or in the
/// one named `reset` in any ASCII case; else those of that submap.
pub open spec fn shown_for_submap(submap: Seq<char>, chosen: Seq<char>) -> bool {
    if chosen == root_choice() {
        submap.len() == 0 || same_ignoring_ascii_case(submap, "reset"@)
    } else {
        submap == chosen
    }
}

/// Whether a keybind in `submap` is shown for the chosen submap.
pub fn in_chosen_submap(submap: &str, chosen: &str) -> (r: bool)
    ensures
        r == shown_for_submap(submap@, chosen@),
{
    let s = chars_of(submap);
    if str_eq(chosen, "Global (Root)") {
        s.len() == 0 || eq_ignore_ascii_case(&s, &chars_of("reset"))
    } else {
        str_eq(submap, chosen)
    }
}

/// The action a key shows: the dispatcher, with its arguments in brackets
/// when there are any.
pub open spec fn action_text(dispatcher: Seq<char>, args: Seq<char>) -> Seq<char> {
    if args.len() == 0 {
        dispatcher
    } else {
        dispatcher + " ("@ + args + ")"@
    }
}

/// The keys bound with modifiers `target_mods` (in canonical form) in the
/// chosen submap, by canonical key, with their actions; a later keybind
/// wins.
pub open spec fn key_actions_of(ds: Seq<KeybindDataView>, target_mods: Seq<char>, chosen: Seq<char>) -> Map<
    Seq<char>,
    Seq<char>,
>
    decreases ds.len(),
{
    if ds.len() == 0 {
        Map::empty()
    } else {
        let m = key_actions_of(ds.drop_last(), target_mods, chosen);
        let d = ds.last();
        if shown_for_submap(or_empty(d.submap), chosen) && normalized_mods(d.clean_mods) == target_mods {
            m.insert(normalized_key(d.key), action_text(d.dispatcher, or_empty(d.args)))
        } else {
            m
        }
    }
}

fn or_empty_string(o: &Option<String>) -> (r: String)
    ensures
        r@ == or_empty(opt_view(*o)),
{
    match o {
        Some(s) => s.clone(),
        None => String::new(),
    }
}

/// The keys the keyboard highlights for the active modifiers and chosen
/// submap, by canonical key name, each with the action shown for it.
pub fn keyboard_key_actions(objects: &[KeybindObject], active_mods: &[String], chosen: &str) -> (r: VarMap)
    ensures
        r@ == key_actions_of(
            object_views(objects@),
            normalized_mods(join(string_views(active_mods@), seq![' '])),
            chosen@,
        ),
{
    let mut parts: Vec<Vec<char>> = Vec::new();
    let mut j: usize = 0;
    while j < active_mods.len()
        invariant
            j <= active_mods@.len(),
            views(parts@) == string_views(active_mods@).take(j as int),
        decreases active_mods@.len() - j,
    {
        let ghost before = views(parts@);
        parts.push(chars_of(active_mods[j].as_str()));
        assert(views(parts@) =~= before.push(active_mods@[j as int]@));
        assert(string_views(active_mods@).take(j + 1) =~= string_views(active_mods@).take(j as int).push(
            active_mods@[j as int]@,
        ));
        j = j + 1;
    }
    assert(string_views(active_mods@).take(j as int) =~= string_views(active_mods@));
    let sp = vec![' '];
    assert(sp@ == seq![' ']);
    let joined = string_of(&join_exec(&parts, &sp));
    let (target, _) = normalize(joined.as_str(), "");
    let ghost ds = object_views(objects@);
    let mut m = VarMap::new();
    let mut i: usize = 0;
    while i < objects.len()
        invariant
            i <= objects@.len(),
            ds == object_views(objects@),
            m@ == key_actions_of(ds.take(i as int), target@, chosen@),
        decreases objects@.len() - i,
    {
        assert(ds.take(i + 1).drop_last() =~= ds.take(i as int));
        let d = &objects[i].data;
        assert(ds.take(i + 1).last() == d@);
        let submap = or_empty_string(&d.submap);
        if in_chosen_submap(submap.as_str(), chosen) {
            let (mods, key) = normalize(d.clean_mods.as_str(), d.key.as_str());
            if str_eq(mods.as_str(), target.as_str()) {
                let args = or_empty_string(&d.args);
                let action = if chars_of(args.as_str()).len() == 0 {
                    d.dispatcher.clone()
                } else {
                    let mut a = chars_of(d.dispatcher.as_str());
                    append(&mut a, &chars_of(" ("));
                    append(&mut a, &chars_of(args.as_str()));
                    append(&mut a, &chars_of(")"));
                    string_of(&a)
                };
                m.insert(key, action);
            }
        }
        i = i + 1;
    }
    assert(ds.take(i as int) =~= ds);
    m
}

} // verus!
