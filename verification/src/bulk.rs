//! Replacing a text in one field of many keybinds at once: which keybinds
//! match, what each field becomes, and what the keybind is rewritten with.
use crate::edit::or_empty;
use crate::export::object_views;
use crate::keybind_object::{nonempty, KeybindData, KeybindDataView, KeybindObject};
use crate::numbers::{nat_text, nat_to_text};
use crate::parser::opt_view;
use crate::text::{
    append, chars_of, contains, contains_exec, find_from, find_from_exec, lemma_find_from, lower_chars, slice,
    string_of, lowercase,
};
use vstd::prelude::*;

verus! {

broadcast use vstd::string::group_string_axioms;

/// The field of a keybind that a bulk replacement changes.
#[derive(Clone, Copy, Debug, PartialEq, Eq, Structural)]
pub enum ReplaceTarget {
    Modifiers,
    Key,
    Dispatcher,
    Arguments,
}

/// The target chosen at position `i` of the list of targets (modifiers,
/// key, dispatcher, arguments); any later position is the arguments.
pub fn replace_target(i: u32) -> (t: ReplaceTarget)
    ensures
        t == (if i == 0 {
            ReplaceTarget::Modifiers
        } else if i == 1 {
            ReplaceTarget::Key
        } else if i == 2 {
            ReplaceTarget::Dispatcher
        } else {
            ReplaceTarget::Arguments
        }),
{
    match i {
        0 => ReplaceTarget::Modifiers,
        1 => ReplaceTarget::Key,
        2 => ReplaceTarget::Dispatcher,
        _ => ReplaceTarget::Arguments,
    }
}

/// `value` from index `i` on, with each occurrence of `pat` in `lower` (its
/// lowercase form, of the same length) replaced, taken left to right without
/// overlap; the text between occurrences is taken from `value`.
pub open spec fn replaced_from(value: Seq<char>, lower: Seq<char>, pat: Seq<char>, rep: Seq<char>, i: int) -> Seq<
    char,
>
    decreases lower.len() - i,
{
    if pat.len() == 0 || i < 0 || i > lower.len() {
        value.skip(i)
    } else {
        match find_from(lower, pat, i) {
            Some(k) => {
                proof {
                    lemma_find_from(lower, pat, i);
                }
                value.subrange(i, k) + rep + replaced_from(value, lower, pat, rep, k + pat.len())
            },
            None => value.skip(i),
        }
    }
}

/// Replaces in `value` the places where `pat` occurs in `lower`, the
/// lowercase form of `value`, by `rep`.
pub fn replace_lowered(value: &[char], lower: &[char], pat: &[char], rep: &[char]) -> (r: Vec<char>)
    requires
        value@.len() == lower@.len(),
        pat@.len() > 0,
    ensures
        r@ == replaced_from(value@, lower@, pat@, rep@, 0),
{
    let mut out: Vec<char> = Vec::new();
    let mut i: usize = 0;
    loop
        invariant
            i <= lower@.len(),
            value@.len() == lower@.len(),
            pat@.len() > 0,
            out@ + replaced_from(value@, lower@, pat@, rep@, i as int) == replaced_from(
                value@,
                lower@,
                pat@,
                rep@,
                0,
            ),
        decreases lower@.len() - i,
    {
        proof {
            lemma_find_from(lower@, pat@, i as int);
        }
        match find_from_exec(lower, pat, i) {
            Some(k) => {
                assert(find_from(lower@, pat@, i as int) == Some(k as int));
                let llen: usize = lower.len();
                let plen: usize = pat.len();
                assert(k as int + plen as int <= llen);
                let next_i: usize = k + plen;
                let ghost before = out@;
                append(&mut out, &slice(value, i, k));
                append(&mut out, rep);
                assert(before + replaced_from(value@, lower@, pat@, rep@, i as int) =~= out@
                    + replaced_from(value@, lower@, pat@, rep@, next_i as int));
                i = next_i;
            },
            None => {
                let ghost before = out@;
                append(&mut out, &slice(value, i, value.len()));
                assert(value@.subrange(i as int, value@.len() as int) =~= value@.skip(i as int));
                assert(out@ =~= before + replaced_from(value@, lower@, pat@, rep@, i as int));
                return out;
            },
        }
    }
}

/// What a field becomes when `find` is replaced by `rep` regardless of case:
/// nothing when `find` (or its lowercase form) is empty, when the field's
/// lowercase form does not contain that of `find`, or when lowercasing
/// changed the field's length, so that its places do not line up with the
/// field's own.
pub open spec fn bulk_replaced(value: Seq<char>, find: Seq<char>, rep: Seq<char>) -> Option<Seq<char>> {
    let lv = lowercase(value);
    let lf = lowercase(find);
    if find.len() > 0 && lf.len() > 0 && lv.len() == value.len() && contains(lv, lf) {
        Some(replaced_from(value, lv, lf, rep, 0))
    } else {
        None
    }
}

/// The new text of a field in which `find` is replaced by `replacement`
/// regardless of case, if `find` occurs in it.
pub fn bulk_replacement(value: &str, find: &str, replacement: &str) -> (r: Option<String>)
    ensures
        opt_view(r) == bulk_replaced(value@, find@, replacement@),
{
    let v = chars_of(value);
    let f = chars_of(find);
    if f.len() == 0 {
        return None;
    }
    let lv = lower_chars(&v);
    let lf = lower_chars(&f);
    if lf.len() == 0 || lv.len() != v.len() || !contains_exec(&lv, &lf) {
        return None;
    }
    let out = replace_lowered(&v, &lv, &lf, &chars_of(replacement));
    Some(string_of(&out))
}

/// The text of a keybind's field that a target names; absent arguments are
/// empty.
pub open spec fn target_text(d: KeybindDataView, t: ReplaceTarget) -> Seq<char> {
    match t {
        ReplaceTarget::Modifiers => d.mods,
        ReplaceTarget::Key => d.key,
        ReplaceTarget::Dispatcher => d.dispatcher,
        ReplaceTarget::Arguments => or_empty(d.args),
    }
}

fn target_chars(d: &KeybindData, t: ReplaceTarget) -> (r: String)
    ensures
        r@ == target_text(d@, t),
{
    match t {
        ReplaceTarget::Modifiers => d.mods.clone(),
        ReplaceTarget::Key => d.key.clone(),
        ReplaceTarget::Dispatcher => d.dispatcher.clone(),
        ReplaceTarget::Arguments => match &d.args {
            Some(a) => a.clone(),
            None => String::new(),
        },
    }
}

/// A keybind of the list that a bulk replacement changes, and the new text
/// of its field.
pub struct PendingChange {
    pub index: usize,
    pub new_value: String,
}

/// The changes as pairs of a position and a new text.
pub open spec fn change_views(v: Seq<PendingChange>) -> Seq<(int, Seq<char>)> {
    v.map_values(|c: PendingChange| (c.index as int, c.new_value@))
}

/// The changes of a bulk replacement over the keybinds, in their order:
/// each keybind whose field gets a new text.
pub open spec fn bulk_changes(ds: Seq<KeybindDataView>, t: ReplaceTarget, find: Seq<char>, rep: Seq<char>) -> Seq<
    (int, Seq<char>),
>
    decreases ds.len(),
{
    if ds.len() == 0 {
        seq![]
    } else {
        let before = bulk_changes(ds.drop_last(), t, find, rep);
        match bulk_replaced(target_text(ds.last(), t), find, rep) {
            Some(s) => before.push(((ds.len() - 1) as int, s)),
            None => before,
        }
    }
}

/// The changes that replacing `find` by `replacement` in the `target` field
/// of the keybinds would make; how many there are is the number of matches
/// the preview shows.
pub fn bulk_preview(objects: &[KeybindObject], target: ReplaceTarget, find: &str, replacement: &str) -> (r: Vec<
    PendingChange,
>)
    ensures
        change_views(r@) == bulk_changes(object_views(objects@), target, find@, replacement@),
{
    let ghost ds = object_views(objects@);
    let mut out: Vec<PendingChange> = Vec::new();
    let mut i: usize = 0;
    while i < objects.len()
        invariant
            i <= objects@.len(),
            ds == object_views(objects@),
            change_views(out@) == bulk_changes(ds.take(i as int), target, find@, replacement@),
        decreases objects@.len() - i,
    {
        let ghost before = out@;
        assert(ds.take(i + 1).drop_last() =~= ds.take(i as int));
        assert(ds.take(i + 1).last() == objects@[i as int].data@);
        let value = target_chars(&objects[i].data, target);
        match bulk_replacement(value.as_str(), find, replacement) {
            Some(s) => {
                out.push(PendingChange { index: i, new_value: s });
                assert(change_views(out@) =~= change_views(before).push((i as int, opt_view(Some(s))->0)));
            },
            None => {
                assert(change_views(out@) =~= change_views(before));
            },
        }
        i = i + 1;
    }
    assert(ds.take(i as int) =~= ds);
    out
}

/// The fields a keybind is rewritten with after a bulk replacement.
pub struct ChangedFields {
    pub mods: String,
    pub key: String,
    pub dispatcher: String,
    pub args: String,
    pub description: Option<String>,
}

/// The fields of a keybind with the target field set to `new_value`:
/// absent arguments are written empty, an empty description as none.
pub fn changed_fields(d: &KeybindData, target: ReplaceTarget, new_value: &str) -> (r: ChangedFields)
    ensures
        r.mods@ == (if target == ReplaceTarget::Modifiers {
            new_value@
        } else {
            d.mods@
        }),
        r.key@ == (if target == ReplaceTarget::Key {
            new_value@
        } else {
            d.key@
        }),
        r.dispatcher@ == (if target == ReplaceTarget::Dispatcher {
            new_value@
        } else {
            d.dispatcher@
        }),
        r.args@ == (if target == ReplaceTarget::Arguments {
            new_value@
        } else {
            or_empty(opt_view(d.args))
        }),
        opt_view(r.description) == nonempty(opt_view(d.description)),
{
    let mut mods = d.mods.clone();
    let mut key = d.key.clone();
    let mut dispatcher = d.dispatcher.clone();
    let mut args = match &d.args {
        Some(a) => a.clone(),
        None => String::new(),
    };
    match target {
        ReplaceTarget::Modifiers => mods = new_value.to_string(),
        ReplaceTarget::Key => key = new_value.to_string(),
        ReplaceTarget::Dispatcher => dispatcher = new_value.to_string(),
        ReplaceTarget::Arguments => args = new_value.to_string(),
    }
    let description = match &d.description {
        Some(s) => if chars_of(s.as_str()).len() > 0 {
            Some(s.clone())
        } else {
            None
        },
        None => None,
    };
    ChangedFields { mods, key, dispatcher, args, description }
}

/// What a row of the preview shows beside a change: the modifiers and key
/// when the dispatcher or arguments change, else the dispatcher.
pub open spec fn preview_context_text(d: KeybindDataView, t: ReplaceTarget) -> Seq<char> {
    match t {
        ReplaceTarget::Dispatcher | ReplaceTarget::Arguments => d.mods + " + "@ + d.key,
        _ => d.dispatcher,
    }
}

/// The text shown beside a change in the preview.
pub fn preview_context(d: &KeybindData, target: ReplaceTarget) -> (r: String)
    ensures
        r@ == preview_context_text(d@, target),
{
    match target {
        ReplaceTarget::Dispatcher | ReplaceTarget::Arguments => {
            let mut out = chars_of(d.mods.as_str());
            append(&mut out, &chars_of(" + "));
            append(&mut out, &chars_of(d.key.as_str()));
            string_of(&out)
        },
        _ => d.dispatcher.clone(),
    }
}

/// A keybind in one line: `mods key, dispatcher args`.
pub open spec fn bind_summary_text(d: KeybindDataView) -> Seq<char> {
    d.mods + " "@ + d.key + ", "@ + d.dispatcher + " "@ + or_empty(d.args)
}

/// The whole keybind, as the tooltip of a preview row shows it.
pub fn bind_summary(d: &KeybindData) -> (r: String)
    ensures
        r@ == bind_summary_text(d@),
{
    let mut out = chars_of(d.mods.as_str());
    append(&mut out, &chars_of(" "));
    append(&mut out, &chars_of(d.key.as_str()));
    append(&mut out, &chars_of(", "));
    append(&mut out, &chars_of(d.dispatcher.as_str()));
    append(&mut out, &chars_of(" "));
    match &d.args {
        Some(a) => append(&mut out, &chars_of(a.as_str())),
        None => {
            assert(out@ + Seq::<char>::empty() =~= out@);
        },
    }
    string_of(&out)
}

/// The heading of the preview: `Preview (n matches)`.
pub fn preview_title(count: u64) -> (r: String)
    ensures
        r@ == "Preview ("@ + nat_text(count as nat) + " matches)"@,
{
    let mut out = chars_of("Preview (");
    append(&mut out, &nat_to_text(count));
    append(&mut out, &chars_of(" matches)"));
    string_of(&out)
}

/// The message after the changes were written: how many keybinds were
/// updated, and how many failed when any did.
pub fn bulk_result_message(updated: u64, failed: u64) -> (r: String)
    ensures
        r@ == (if failed > 0 {
            "Updated "@ + nat_text(updated as nat) + " keybinds. "@ + nat_text(failed as nat) + " failed."@
        } else {
            "Successfully updated "@ + nat_text(updated as nat) + " keybinds."@
        }),
{
    if failed > 0 {
        let mut out = chars_of("Updated ");
        append(&mut out, &nat_to_text(updated));
        append(&mut out, &chars_of(" keybinds. "));
        append(&mut out, &nat_to_text(failed));
        append(&mut out, &chars_of(" failed."));
        string_of(&out)
    } else {
        let mut out = chars_of("Successfully updated ");
        append(&mut out, &nat_to_text(updated));
        append(&mut out, &chars_of(" keybinds."));
        string_of(&out)
    }
}

} // verus!
