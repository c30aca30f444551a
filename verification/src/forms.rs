//! The checks of the keybind forms before a keybind is added or saved, and
//! the texts they show.
use crate::conflicts::{ConflictInfo, ConflictInfoView};
use crate::macros::{compile_macro, compiled_macro, pair_views};
use crate::numbers::{nat_text, nat_to_text};
use crate::parser::opt_view;
use crate::text::{append, chars_of, slice, starts_with, starts_with_exec, str_eq, string_of, trim, trim_chars};
use vstd::prelude::*;

verus! {

broadcast use vstd::string::group_string_axioms;

/// The submap a form names: its trimmed text, none when that is empty.
pub open spec fn form_submap_of(raw: Seq<char>) -> Option<Seq<char>> {
    if trim(raw).len() == 0 {
        None
    } else {
        Some(trim(raw))
    }
}

/// The submap a form names.
pub fn form_submap(raw: &str) -> (r: Option<String>)
    ensures
        opt_view(r) == form_submap_of(raw@),
{
    let t = trim_chars(&chars_of(raw));
    if t.len() == 0 {
        None
    } else {
        Some(string_of(&t))
    }
}

/// Why a form cannot be saved, checked in order: an empty key (when a key
/// must be typed), a macro that compiles to nothing, an empty dispatcher
/// (outside macro mode).
pub open spec fn form_error_of(
    key: Seq<char>,
    key_required: bool,
    macro_mode: bool,
    actions: Seq<(Seq<char>, Seq<char>)>,
    dispatcher: Seq<char>,
) -> Option<Seq<char>> {
    if key_required && trim(key).len() == 0 {
        Some("Error: Key cannot be empty"@)
    } else if macro_mode {
        if compiled_macro(actions) is None {
            Some("Error: Macro must have at least one valid action"@)
        } else {
            None
        }
    } else if trim(dispatcher).len() == 0 {
        Some("Error: Dispatcher cannot be empty"@)
    } else {
        None
    }
}

/// The message that stops a form from being saved, if any.
pub fn form_error(
    key: &str,
    key_required: bool,
    macro_mode: bool,
    actions: &[(String, String)],
    dispatcher: &str,
) -> (r: Option<String>)
    ensures
        opt_view(r) == form_error_of(key@, key_required, macro_mode, pair_views(actions@), dispatcher@),
{
    if key_required && trim_chars(&chars_of(key)).len() == 0 {
        Some("Error: Key cannot be empty".to_string())
    } else if macro_mode {
        if compile_macro(actions).is_none() {
            Some("Error: Macro must have at least one valid action".to_string())
        } else {
            None
        }
    } else if trim_chars(&chars_of(dispatcher)).len() == 0 {
        Some("Error: Dispatcher cannot be empty".to_string())
    } else {
        None
    }
}

/// The command whose presence is checked before saving: the trimmed
/// arguments of an `exec` or `execr` keybind outside macro mode, unless it
/// begins with `$` and variables are let through.
pub open spec fn command_to_check_of(
    macro_mode: bool,
    dispatcher: Seq<char>,
    args: Seq<char>,
    pass_variables: bool,
) -> Option<Seq<char>> {
    if !macro_mode && (dispatcher == "exec"@ || dispatcher == "execr"@) {
        if pass_variables && starts_with(trim(args), seq!['$']) {
            None
        } else {
            Some(trim(args))
        }
    } else {
        None
    }
}

/// The command to look for before saving, if any.
pub fn command_to_check(macro_mode: bool, dispatcher: &str, args: &str, pass_variables: bool) -> (r: Option<
    String,
>)
    ensures
        opt_view(r) == command_to_check_of(macro_mode, dispatcher@, args@, pass_variables),
{
    if !macro_mode && (str_eq(dispatcher, "exec") || str_eq(dispatcher, "execr")) {
        let cmd = trim_chars(&chars_of(args));
        let dollar = vec!['$'];
        assert(dollar@ == seq!['$']);
        if pass_variables && starts_with_exec(&cmd, &dollar) {
            None
        } else {
            Some(string_of(&cmd))
        }
    } else {
        None
    }
}

/// The question asked when the command is not found; `action` is what
/// the form does (`add`, `save`).
pub open spec fn missing_command_text(cmd: Seq<char>, action: Seq<char>) -> Seq<char> {
    "The command '"@ + cmd + "' was not found in your PATH.\nAre you sure you want to "@ + action
        + " this keybind?"@
}

/// The question asked when the command is not found.
pub fn missing_command_message(cmd: &str, action: &str) -> (r: String)
    ensures
        r@ == missing_command_text(cmd@, action@),
{
    let mut out = chars_of("The command '");
    append(&mut out, &chars_of(cmd));
    append(&mut out, &chars_of("' was not found in your PATH.\nAre you sure you want to "));
    append(&mut out, &chars_of(action));
    append(&mut out, &chars_of(" this keybind?"));
    string_of(&out)
}

/// What the conflict page shows of the keybind that holds the combination.
pub open spec fn conflict_details_text(c: ConflictInfoView) -> Seq<char> {
    "Dispatcher: "@ + c.dispatcher + "\nArgs: "@ + c.args + "\nFile: "@ + c.file + ":"@ + nat_text(c.line as nat)
}

/// The details of the keybind that holds the combination.
pub fn conflict_details(c: &ConflictInfo) -> (r: String)
    ensures
        r@ == conflict_details_text(c@),
{
    let mut out = chars_of("Dispatcher: ");
    append(&mut out, &chars_of(c.dispatcher.as_str()));
    append(&mut out, &chars_of("\nArgs: "));
    append(&mut out, &chars_of(c.args.as_str()));
    append(&mut out, &chars_of("\nFile: "));
    append(&mut out, &chars_of(c.file.as_str()));
    append(&mut out, &chars_of(":"));
    append(&mut out, &nat_to_text(c.line as u64));
    string_of(&out)
}

/// The label of a suggested combination: `mods + key`.
pub fn suggestion_label(mods: &str, key: &str) -> (r: String)
    ensures
        r@ == mods@ + " + "@ + key@,
{
    let mut out = chars_of(mods);
    append(&mut out, &chars_of(" + "));
    append(&mut out, &chars_of(key));
    string_of(&out)
}

/// A field as the edit form shows it: without a leading `$`, and whether
/// there was one.
pub open spec fn shown_field(s: Seq<char>) -> (Seq<char>, bool) {
    if s.len() > 0 && s[0] == '$' {
        (s.drop_first(), true)
    } else {
        (s, false)
    }
}

/// The edit form's text of a field and whether a `$` was taken off.
pub fn strip_variable_prefix(s: &str) -> (r: (String, bool))
    ensures
        (r.0@, r.1) == shown_field(s@),
{
    let c = chars_of(s);
    if c.len() > 0 && c[0] == '$' {
        (string_of(&slice(&c, 1, c.len())), true)
    } else {
        (s.to_string(), false)
    }
}

/// A field as the edit form saves it: the `$` put back when it was taken
/// off.
pub open spec fn saved_field(shown: Seq<char>, had_prefix: bool) -> Seq<char> {
    if had_prefix {
        seq!['$'] + shown
    } else {
        shown
    }
}

/// The text saved for an edited field.
pub fn with_variable_prefix(shown: &str, had_prefix: bool) -> (r: String)
    ensures
        r@ == saved_field(shown@, had_prefix),
{
    if had_prefix {
        let mut out = vec!['$'];
        append(&mut out, &chars_of(shown));
        string_of(&out)
    } else {
        shown.to_string()
    }
}

/// Saving a field unedited gives it back as it was.
pub proof fn lemma_unedited_field_saved_back(s: Seq<char>)
    ensures
        saved_field(shown_field(s).0, shown_field(s).1) == s,
{
    if s.len() > 0 && s[0] == '$' {
        assert(seq!['$'] + s.drop_first() =~= s);
    }
}

} // verus!
