//! Exporting the keybind list as a Markdown table.
use crate::keybind_object::{KeybindDataView, KeybindObject};
use crate::parser::opt_view;
use crate::text::{append, chars_of, string_of};
use vstd::prelude::*;

verus! {

broadcast use vstd::string::group_string_axioms;

/// An optional text, or the empty text.
pub open spec fn text_or_empty(o: Option<Seq<char>>) -> Seq<char> {
    match o {
        Some(s) => s,
        None => seq![],
    }
}

/// The table row of a keybind: its modifiers, key, action, arguments,
/// submap and description between `|`.
pub open spec fn markdown_row(d: KeybindDataView) -> Seq<char> {
    "| "@ + d.clean_mods + " | "@ + d.key + " | "@ + d.dispatcher + " | "@ + text_or_empty(d.args)
        + " | "@ + text_or_empty(d.submap) + " | "@ + text_or_empty(d.description) + " |\n"@
}

/// The rows of the keybinds, one after the other.
pub open spec fn markdown_rows(ds: Seq<KeybindDataView>) -> Seq<char>
    decreases ds.len(),
{
    if ds.len() == 0 {
        seq![]
    } else {
        markdown_rows(ds.drop_last()) + markdown_row(ds.last())
    }
}

/// The exported document: a title, a note, the table's header and a row per
/// keybind.
pub open spec fn markdown_document(ds: Seq<KeybindDataView>) -> Seq<char> {
    "# Hyprland Keybinds\n\n(Exported with HyprKCS)\n\n| Modifiers | Key | Action | Arguments | Submap | Description |\n|---|---|---|---|---|---|\n"@
        + markdown_rows(ds)
}

/// The keybinds' data as plain values.
pub open spec fn object_views(v: Seq<KeybindObject>) -> Seq<KeybindDataView> {
    v.map_values(|o: KeybindObject| o.data@)
}

fn append_opt(out: &mut Vec<char>, o: &Option<String>)
    ensures
        final(out)@ == old(out)@ + text_or_empty(opt_view(*o)),
{
    match o {
        Some(s) => append(out, &chars_of(s.as_str())),
        None => {
            assert(old(out)@ + Seq::<char>::empty() =~= old(out)@);
        },
    }
}

/// The Markdown text that exporting the keybinds writes.
pub fn export_keybinds_to_markdown(objects: &[KeybindObject]) -> (r: String)
    ensures
        r@ == markdown_document(object_views(objects@)),
{
    let mut out = chars_of(
        "# Hyprland Keybinds\n\n(Exported with HyprKCS)\n\n| Modifiers | Key | Action | Arguments | Submap | Description |\n|---|---|---|---|---|---|\n",
    );
    let ghost head = out@;
    let ghost ds = object_views(objects@);
    let mut i: usize = 0;
    while i < objects.len()
        invariant
            i <= objects@.len(),
            ds == object_views(objects@),
            out@ == head + markdown_rows(ds.take(i as int)),
        decreases objects@.len() - i,
    {
        let d = &objects[i].data;
        assert(ds.take(i + 1).drop_last() =~= ds.take(i as int));
        assert(ds.take(i + 1).last() == d@);
        let ghost before = out@;
        append(&mut out, &chars_of("| "));
        append(&mut out, &chars_of(d.clean_mods.as_str()));
        append(&mut out, &chars_of(" | "));
        append(&mut out, &chars_of(d.key.as_str()));
        append(&mut out, &chars_of(" | "));
        append(&mut out, &chars_of(d.dispatcher.as_str()));
        append(&mut out, &chars_of(" | "));
        append_opt(&mut out, &d.args);
        append(&mut out, &chars_of(" | "));
        append_opt(&mut out, &d.submap);
        append(&mut out, &chars_of(" | "));
        append_opt(&mut out, &d.description);
        append(&mut out, &chars_of(" |\n"));
        assert(out@ =~= before + markdown_row(d@));
        i = i + 1;
    }
    assert(ds.take(i as int) =~= ds);
    string_of(&out)
}

} // verus!
