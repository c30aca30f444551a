//! The choices of the keybind form's drop-downs: bind flags and mouse
//! buttons, by position in the list and by the text written to the file,
//! and the submaps the listed keybinds use.
use crate::export::object_views;
use crate::keybind_object::{KeybindDataView, KeybindObject};
use crate::order::{insert_sorted, strictly_sorted};
use crate::text::{chars_of, eq_chars, join, join_exec, string_of, views};
use crate::vars::string_views;
use vstd::prelude::*;

verus! {

broadcast use vstd::string::group_string_axioms;

/// The bind flags in the order the drop-down lists them.
pub open spec fn flag_table() -> Seq<Seq<char>> {
    seq![""@, "l"@, "e"@, "r"@, "el"@, "n"@, "t"@, "nl"@, "m"@, "d"@]
}

/// The flags at a position of the list; past its end, no flags.
pub open spec fn flag_at(index: u32) -> Seq<char> {
    if index < 10 {
        flag_table()[index as int]
    } else {
        ""@
    }
}

/// The first position from `i` on that lists `s`, or the first position.
pub open spec fn index_in(table: Seq<Seq<char>>, s: Seq<char>, i: int) -> int
    decreases table.len() - i,
{
    if i < 0 || i >= table.len() {
        0
    } else if table[i] == s {
        i
    } else {
        index_in(table, s, i + 1)
    }
}

/// The position that lists `flag`; unknown flags select the first.
pub open spec fn flag_index(flag: Seq<char>) -> u32 {
    index_in(flag_table(), flag, 0) as u32
}

/// The flags that the drop-down position `index` stands for.
pub fn get_flag_from_index(index: u32) -> (r: &'static str)
    ensures
        r@ == flag_at(index),
{
    match index {
        0 => "",
        1 => "l",
        2 => "e",
        3 => "r",
        4 => "el",
        5 => "n",
        6 => "t",
        7 => "nl",
        8 => "m",
        9 => "d",
        _ => "",
    }
}

/// The drop-down position of the flags `flag`.
pub fn get_index_from_flag(flag: &str) -> (r: u32)
    ensures
        r == flag_index(flag@),
{
    let f = chars_of(flag);
    let table: [&str; 10] = ["", "l", "e", "r", "el", "n", "t", "nl", "m", "d"];
    let mut i: usize = 0;
    while i < 10
        invariant
            i <= 10,
            forall|j: int| 0 <= j < 10 ==> table@[j]@ == flag_table()[j],
            index_in(flag_table(), f@, 0) == index_in(flag_table(), f@, i as int),
            f@ == flag@,
        decreases 10 - i,
    {
        if eq_chars(&f, &chars_of(table[i])) {
            return i as u32;
        }
        i = i + 1;
    }
    0
}

/// In a list without repeats, each element is found at its own position.
proof fn lemma_table_distinct(table: Seq<Seq<char>>, k: int)
    requires
        0 <= k < table.len(),
        forall|a: int, b: int| 0 <= a < b < table.len() ==> table[a] != table[b],
    ensures
        index_in(table, table[k], 0) == k,
{
    lemma_index_in(table, table[k], 0, k);
}

proof fn lemma_index_in(table: Seq<Seq<char>>, s: Seq<char>, i: int, k: int)
    requires
        0 <= i <= k < table.len(),
        table[k] == s,
        forall|a: int, b: int| 0 <= a < b < table.len() ==> table[a] != table[b],
    ensures
        index_in(table, s, i) == k,
    decreases k - i,
{
    if i < k {
        assert(table[i] != table[k]);
        lemma_index_in(table, s, i + 1, k);
    }
}

/// No flag string is listed twice.
proof fn lemma_flags_distinct()
    ensures
        forall|a: int, b: int| 0 <= a < b < flag_table().len() ==> flag_table()[a] != flag_table()[b],
{
    reveal_strlit("");
    reveal_strlit("l");
    reveal_strlit("e");
    reveal_strlit("r");
    reveal_strlit("el");
    reveal_strlit("n");
    reveal_strlit("t");
    reveal_strlit("nl");
    reveal_strlit("m");
    reveal_strlit("d");
    let t = flag_table();
    assert forall|a: int, b: int| 0 <= a < b < t.len() implies t[a] != t[b] by {
        if t[a].len() == t[b].len() && t[a].len() > 0 {
            assert(t[a][0] != t[b][0] || t[a][t[a].len() - 1] != t[b][t[b].len() - 1]);
        }
    }
}

/// Choosing a position and writing its flags, then reading them back, gives
/// the position again.
pub proof fn lemma_flag_round_trip(index: u32)
    requires
        index < 10,
    ensures
        flag_index(flag_at(index)) == index,
{
    lemma_flags_distinct();
    lemma_table_distinct(flag_table(), index as int);
}

/// Reading a listed flag string to its position and back gives the string.
pub proof fn lemma_flag_index_round_trip(flag: Seq<char>)
    requires
        flag_table().contains(flag),
    ensures
        flag_at(flag_index(flag)) == flag,
{
    lemma_flags_distinct();
    let k = choose|k: int| 0 <= k < flag_table().len() && flag_table()[k] == flag;
    lemma_table_distinct(flag_table(), k);
}

/// The mouse buttons in the order the drop-down lists them.
pub open spec fn mouse_table() -> Seq<Seq<char>> {
    seq![
        "mouse:272"@,
        "mouse:273"@,
        "mouse:274"@,
        "mouse:275"@,
        "mouse:276"@,
        "mouse:277"@,
        "mouse:278"@,
        "mouse_up"@,
        "mouse_down"@,
    ]
}

/// The mouse code at a position; past the end, the left button.
pub open spec fn mouse_code_at(index: u32) -> Seq<char> {
    if index < 9 {
        mouse_table()[index as int]
    } else {
        "mouse:272"@
    }
}

/// The position of a mouse code; unknown codes select the left button.
pub open spec fn mouse_index(code: Seq<char>) -> u32 {
    index_in(mouse_table(), code, 0) as u32
}

/// The mouse code that the drop-down position `index` stands for.
pub fn get_mouse_code_from_index(index: u32) -> (r: &'static str)
    ensures
        r@ == mouse_code_at(index),
{
    match index {
        0 => "mouse:272",
        1 => "mouse:273",
        2 => "mouse:274",
        3 => "mouse:275",
        4 => "mouse:276",
        5 => "mouse:277",
        6 => "mouse:278",
        7 => "mouse_up",
        8 => "mouse_down",
        _ => "mouse:272",
    }
}

/// The drop-down position of the mouse code `code`.
pub fn get_index_from_mouse_code(code: &str) -> (r: u32)
    ensures
        r == mouse_index(code@),
{
    let c = chars_of(code);
    let table: [&str; 9] = [
        "mouse:272",
        "mouse:273",
        "mouse:274",
        "mouse:275",
        "mouse:276",
        "mouse:277",
        "mouse:278",
        "mouse_up",
        "mouse_down",
    ];
    let mut i: usize = 0;
    while i < 9
        invariant
            i <= 9,
            forall|j: int| 0 <= j < 9 ==> table@[j]@ == mouse_table()[j],
            index_in(mouse_table(), c@, 0) == index_in(mouse_table(), c@, i as int),
            c@ == code@,
        decreases 9 - i,
    {
        if eq_chars(&c, &chars_of(table[i])) {
            return i as u32;
        }
        i = i + 1;
    }
    0
}

proof fn lemma_mouse_distinct()
    ensures
        forall|a: int, b: int| 0 <= a < b < mouse_table().len() ==> mouse_table()[a] != mouse_table()[b],
{
    reveal_strlit("mouse:272");
    reveal_strlit("mouse:273");
    reveal_strlit("mouse:274");
    reveal_strlit("mouse:275");
    reveal_strlit("mouse:276");
    reveal_strlit("mouse:277");
    reveal_strlit("mouse:278");
    reveal_strlit("mouse_up");
    reveal_strlit("mouse_down");
    let t = mouse_table();
    assert forall|a: int, b: int| 0 <= a < b < t.len() implies t[a] != t[b] by {
        if t[a].len() == t[b].len() {
            if b <= 6 {
                assert(t[a][8] != t[b][8]);
            } else if a <= 6 {
                assert(t[a][5] != t[b][5]);
            }
        }
    }
}

/// Choosing a button position, writing its code and reading it back gives
/// the position again.
pub proof fn lemma_mouse_round_trip(index: u32)
    requires
        index < 9,
    ensures
        mouse_index(mouse_code_at(index)) == index,
{
    lemma_mouse_distinct();
    lemma_table_distinct(mouse_table(), index as int);
}

/// Reading a listed mouse code to its position and back gives the code.
pub proof fn lemma_mouse_index_round_trip(code: Seq<char>)
    requires
        mouse_table().contains(code),
    ensures
        mouse_code_at(mouse_index(code)) == code,
{
    lemma_mouse_distinct();
    let k = choose|k: int| 0 <= k < mouse_table().len() && mouse_table()[k] == code;
    lemma_table_distinct(mouse_table(), k);
}

// ---------------------------------------------------------------------------
// Submaps
// ---------------------------------------------------------------------------

/// Some listed keybind is in the submap named `name`, which is not empty.
pub open spec fn used_submap(ds: Seq<KeybindDataView>, name: Seq<char>) -> bool {
    name.len() > 0 && exists|i: int| 0 <= i < ds.len() && (#[trigger] ds[i]).submap == Some(name)
}

/// The submaps the listed keybinds use, each once, in order of name (the
/// choices of the submap drop-down besides the global one).
pub fn collect_submaps(objects: &[KeybindObject]) -> (r: Vec<String>)
    ensures
        strictly_sorted(string_views(r@)),
        forall|name: Seq<char>| string_views(r@).contains(name) <==> used_submap(object_views(objects@), name),
{
    let ghost ds = object_views(objects@);
    let mut acc: Vec<Vec<char>> = Vec::new();
    let mut i: usize = 0;
    while i < objects.len()
        invariant
            i <= objects@.len(),
            ds == object_views(objects@),
            strictly_sorted(views(acc@)),
            forall|name: Seq<char>|
                views(acc@).contains(name) <==> (name.len() > 0 && exists|j: int|
                    0 <= j < i && (#[trigger] ds[j]).submap == Some(name)),
        decreases objects@.len() - i,
    {
        assert(ds[i as int] == objects@[i as int].data@);
        let ghost before = views(acc@);
        match &objects[i].data.submap {
            Some(s) => {
                let c = chars_of(s.as_str());
                if c.len() > 0 {
                    insert_sorted(&mut acc, c);
                }
            },
            None => {},
        }
        assert forall|name: Seq<char>|
            views(acc@).contains(name) <==> (name.len() > 0 && exists|j: int|
                0 <= j < i + 1 && (#[trigger] ds[j]).submap == Some(name)) by {
            if name.len() > 0 && ds[i as int].submap == Some(name) {
                assert(views(acc@).contains(name));
            }
            if views(acc@).contains(name) && !before.contains(name) {
                assert(ds[i as int].submap == Some(name));
            }
            if name.len() > 0 && (exists|j: int| 0 <= j < i + 1 && (#[trigger] ds[j]).submap == Some(name)) {
                let j = choose|j: int| 0 <= j < i + 1 && (#[trigger] ds[j]).submap == Some(name);
                if j < i {
                    assert(before.contains(name));
                }
            }
        }
        i = i + 1;
    }
    let mut r: Vec<String> = Vec::new();
    let mut k: usize = 0;
    while k < acc.len()
        invariant
            k <= acc@.len(),
            string_views(r@) == views(acc@).take(k as int),
        decreases acc@.len() - k,
    {
        let ghost before = string_views(r@);
        r.push(string_of(&acc[k]));
        assert(string_views(r@) =~= before.push(acc@[k as int]@));
        assert(views(acc@).take(k + 1) =~= views(acc@).take(k as int).push(acc@[k as int]@));
        k = k + 1;
    }
    assert(views(acc@).take(k as int) =~= views(acc@));
    r
}

// ---------------------------------------------------------------------------
// Recorded modifiers
// ---------------------------------------------------------------------------

/// The names of the modifiers held, in the order the recorder writes them.
pub open spec fn held_modifiers(super_held: bool, control: bool, alt: bool, shift: bool) -> Seq<Seq<char>> {
    (if super_held {
        seq!["SUPER"@]
    } else {
        seq![]
    }) + (if control {
        seq!["CONTROL"@]
    } else {
        seq![]
    }) + (if alt {
        seq!["ALT"@]
    } else {
        seq![]
    }) + (if shift {
        seq!["SHIFT"@]
    } else {
        seq![]
    })
}

/// The modifiers field the key recorder fills in for the modifier keys held
/// (Super, Control, Alt, Shift): their names joined by spaces.
pub fn recorded_modifiers(super_held: bool, control: bool, alt: bool, shift: bool) -> (r: String)
    ensures
        r@ == join(held_modifiers(super_held, control, alt, shift), " "@),
{
    let mut names: Vec<Vec<char>> = Vec::new();
    if super_held {
        names.push(chars_of("SUPER"));
    }
    if control {
        names.push(chars_of("CONTROL"));
    }
    if alt {
        names.push(chars_of("ALT"));
    }
    if shift {
        names.push(chars_of("SHIFT"));
    }
    assert(views(names@) =~= held_modifiers(super_held, control, alt, shift));
    let sp = chars_of(" ");
    string_of(&join_exec(&names, &sp))
}

} // verus!
