//! What the doctor report reads from system text: the name of the
//! distribution in `os-release`, and what `hyprctl -j devices` says of the
//! keyboards.
use crate::text::{
    chars_of, contains, contains_exec, eq_chars, find, find_char, find_char_exec, find_exec, lines,
    lines_exec, slice, starts_with, starts_with_exec, string_of, trim, trim_char, trim_char_exec,
    trim_chars, views,
};
use vstd::prelude::*;

verus! {

broadcast use vstd::string::group_string_axioms;

/// `str::trim_start_matches` of a text: `p` removed from the start of `s` as
/// many times as it stands there.
pub open spec fn strip_repeated(s: Seq<char>, p: Seq<char>) -> Seq<char>
    decreases s.len(),
{
    if p.len() > 0 && starts_with(s, p) {
        strip_repeated(s.skip(p.len() as int), p)
    } else {
        s
    }
}

fn strip_repeated_exec(s: &[char], p: &[char]) -> (r: Vec<char>)
    ensures
        r@ == strip_repeated(s@, p@),
{
    let mut cur = slice(s, 0, s.len());
    assert(cur@ =~= s@);
    if p.len() == 0 {
        return cur;
    }
    while starts_with_exec(&cur, p)
        invariant
            p@.len() > 0,
            strip_repeated(cur@, p@) == strip_repeated(s@, p@),
        decreases cur@.len(),
    {
        cur = slice(&cur, p.len(), cur.len());
    }
    cur
}

/// The first line from `i` on that starts with `PRETTY_NAME=`.
pub open spec fn first_pretty_line(ls: Seq<Seq<char>>, i: int) -> Option<Seq<char>>
    decreases ls.len() - i,
{
    if i < 0 || i >= ls.len() {
        None
    } else if starts_with(ls[i], "PRETTY_NAME="@) {
        Some(ls[i])
    } else {
        first_pretty_line(ls, i + 1)
    }
}

/// The name of the distribution in an `os-release` text: the first
/// `PRETTY_NAME=` line without that key and without surrounding quotes, or
/// `Linux (Unknown)`.
pub open spec fn pretty_name_of(os_release: Seq<char>) -> Seq<char> {
    match first_pretty_line(lines(os_release), 0) {
        Some(l) => trim_char(strip_repeated(l, "PRETTY_NAME="@), '"'),
        None => "Linux (Unknown)"@,
    }
}

/// The name of the distribution that an `os-release` text gives.
pub fn pretty_name(os_release: &str) -> (r: String)
    ensures
        r@ == pretty_name_of(os_release@),
{
    let ls = lines_exec(&chars_of(os_release));
    let ghost lv = views(ls@);
    let key = chars_of("PRETTY_NAME=");
    let mut i: usize = 0;
    while i < ls.len()
        invariant
            i <= ls@.len(),
            lv == views(ls@),
            lv == lines(os_release@),
            key@ == "PRETTY_NAME="@,
            first_pretty_line(lv, 0) == first_pretty_line(lv, i as int),
        decreases ls@.len() - i,
    {
        assert(lv[i as int] == ls@[i as int]@);
        if starts_with_exec(&ls[i], &key) {
            let v = strip_repeated_exec(&ls[i], &key);
            return string_of(&trim_char_exec(&v, '"'));
        }
        i = i + 1;
    }
    string_of(&chars_of("Linux (Unknown)"))
}

/// The text after the `:` of the first `key` in `s`, up to the next `stop`
/// (none when the key or the stop is missing).
pub open spec fn value_after(s: Seq<char>, key: Seq<char>, stop: char) -> Option<Seq<char>> {
    match find(s, key) {
        Some(idx) => {
            let rest = s.skip(idx);
            match find_char(rest, ':') {
                Some(st) => match find_char(rest.skip(st), stop) {
                    Some(e) => Some(rest.subrange(st + 1, st + e)),
                    None => None,
                },
                None => None,
            }
        },
        None => None,
    }
}

fn value_after_exec(s: &[char], key: &[char], stop: char) -> (r: Option<Vec<char>>)
    requires
        stop != ':',
    ensures
        match r {
            Some(v) => value_after(s@, key@, stop) == Some(v@),
            None => value_after(s@, key@, stop) is None,
        },
{
    match find_exec(s, key) {
        Some(idx) => {
            proof {
                crate::text::lemma_find_from(s@, key@, 0);
            }
            let rest = slice(s, idx, s.len());
            assert(rest@ =~= s@.skip(idx as int));
            match find_char_exec(&rest, ':') {
                Some(st) => {
                    proof {
                        crate::text::lemma_find_from(rest@, seq![':'], 0);
                    }
                    let after = slice(&rest, st, rest.len());
                    assert(after@ =~= rest@.skip(st as int));
                    match find_char_exec(&after, stop) {
                        Some(e) => {
                            proof {
                                crate::text::lemma_find_from(after@, seq![stop], 0);
                                assert(rest@.subrange(st as int, st + 1)[0] == rest@[st as int]);
                                assert(rest@[st as int] == ':');
                                assert(after@[0] == ':');
                                if e == 0 {
                                    assert(after@.subrange(0, 1)[0] == after@[0]);
                                }
                            }
                            Some(slice(&rest, st + 1, st + e))
                        },
                        None => None,
                    }
                },
                None => None,
            }
        },
        None => None,
    }
}

/// What `hyprctl -j devices` says of the keyboards: whether it lists any,
/// the layout code of the first, and the name of its active keymap.
pub struct KeyboardReport {
    pub has_keyboards: bool,
    pub layout_code: String,
    pub keymap_name: String,
}

/// The layout code: the value of the first `"layout":` up to the next
/// comma, trimmed and without quotes.
pub open spec fn layout_code_of(devices: Seq<char>) -> Seq<char> {
    match value_after(devices, "\"layout\":"@, ',') {
        Some(v) => trim_char(trim(v), '"'),
        None => seq![],
    }
}

/// The keymap name: the value of the first `"active_keymap":` up to the end
/// of its line, trimmed and without quotes and a final comma.
pub open spec fn keymap_name_of(devices: Seq<char>) -> Seq<char> {
    match value_after(devices, "\"active_keymap\":"@, '\n') {
        Some(v) => trim_char(trim_char(trim_char(trim(v), '"'), ','), '"'),
        None => seq![],
    }
}

/// Reads the keyboards' part of the `hyprctl -j devices` output.
pub fn keyboard_report(devices: &str) -> (r: KeyboardReport)
    ensures
        r.has_keyboards == contains(devices@, "\"keyboards\":"@),
        r.layout_code@ == layout_code_of(devices@),
        r.keymap_name@ == keymap_name_of(devices@),
{
    let s = chars_of(devices);
    let has_keyboards = contains_exec(&s, &chars_of("\"keyboards\":"));
    let layout_code = match value_after_exec(&s, &chars_of("\"layout\":"), ',') {
        Some(v) => trim_char_exec(&trim_chars(&v), '"'),
        None => Vec::new(),
    };
    let keymap_name = match value_after_exec(&s, &chars_of("\"active_keymap\":"), '\n') {
        Some(v) => trim_char_exec(&trim_char_exec(&trim_char_exec(&trim_chars(&v), '"'), ','), '"'),
        None => Vec::new(),
    };
    KeyboardReport {
        has_keyboards,
        layout_code: string_of(&layout_code),
        keymap_name: string_of(&keymap_name),
    }
}

/// The physical keyboard shape a layout code suggests.
pub open spec fn physical_guess_of(code: Seq<char>) -> Seq<char> {
    if code == "us"@ {
        "ANSI (likely)"@
    } else if code == "jp"@ {
        "JIS (likely)"@
    } else if code == "br"@ {
        "ABNT2 (likely)"@
    } else if code == "hu"@ || code == "de"@ || code == "gb"@ || code == "fr"@ || code == "it"@
        || code == "es"@ || code == "pt"@ || code == "se"@ || code == "no"@ || code == "dk"@ || code
        == "fi"@ {
        "ISO (likely)"@
    } else {
        "Unknown (shape cannot be determined from code)"@
    }
}

fn is_code(c: &[char], lit: &str) -> (r: bool)
    ensures
        r == (c@ == lit@),
{
    eq_chars(c, &chars_of(lit))
}

/// The physical keyboard shape that the doctor report guesses from a
/// layout code.
pub fn physical_guess(code: &str) -> (r: &'static str)
    ensures
        r@ == physical_guess_of(code@),
{
    let c = chars_of(code);
    if is_code(&c, "us") {
        "ANSI (likely)"
    } else if is_code(&c, "jp") {
        "JIS (likely)"
    } else if is_code(&c, "br") {
        "ABNT2 (likely)"
    } else if is_code(&c, "hu") || is_code(&c, "de") || is_code(&c, "gb") || is_code(&c, "fr")
        || is_code(&c, "it") || is_code(&c, "es") || is_code(&c, "pt") || is_code(&c, "se")
        || is_code(&c, "no") || is_code(&c, "dk") || is_code(&c, "fi") {
        "ISO (likely)"
    } else {
        "Unknown (shape cannot be determined from code)"
    }
}

} // verus!
