//! Edits to the lines of a configuration file: keybinds, submap blocks and
//! variable definitions are added, rewritten and removed.
use crate::parser::split_comment_spec;
use crate::text::{
    append, chars_of, copy_chars, eq_chars, find_char, find_char_exec, lead_from, slice,
    starts_with, starts_with_exec, string_of, trim, trim_chars, trim_start_char,
    trim_start_char_exec, views,
};
use crate::vars::string_views;
use vstd::prelude::*;

verus! {

broadcast use vstd::string::group_string_axioms;

/// Why an edit of a file's lines was refused.
pub enum EditError {
    /// The line number is past the end of the file.
    LineOutOfBounds,
    /// The line does not begin with `bind`.
    NotABindLine,
    /// The `bind` line has no `=`.
    UnparsableLine,
}

impl EditError {
    /// The message that reports the error.
    pub fn message(&self) -> (r: String)
        ensures
            r@ == match self {
                EditError::LineOutOfBounds => "Line number out of bounds"@,
                EditError::NotABindLine => "Not a bind line"@,
                EditError::UnparsableLine => "Could not parse original line structure"@,
            },
    {
        match self {
            EditError::LineOutOfBounds => string_of(&chars_of("Line number out of bounds")),
            EditError::NotABindLine => string_of(&chars_of("Not a bind line")),
            EditError::UnparsableLine => string_of(&chars_of("Could not parse original line structure")),
        }
    }
}

/// The value of an optional text, or nothing.
pub open spec fn or_empty(o: Option<Seq<char>>) -> Seq<char> {
    match o {
        Some(s) => s,
        None => seq![],
    }
}

/// The text of a keybind line: `bind<flags> = mods, key, dispatcher, args`,
/// with the description after the key for `bindd`, and without the arguments
/// when they are blank.
pub open spec fn bind_text(
    indent: Seq<char>,
    flags: Seq<char>,
    mods: Seq<char>,
    key: Seq<char>,
    dispatcher: Seq<char>,
    args: Seq<char>,
    description: Option<Seq<char>>,
) -> Seq<char> {
    let head = indent + "bind"@ + flags + " = "@ + mods + ", "@ + key;
    let body = if flags == "d"@ {
        head + ", "@ + or_empty(description) + ", "@ + dispatcher
    } else {
        head + ", "@ + dispatcher
    };
    if trim(args).len() == 0 {
        body
    } else {
        body + ", "@ + args
    }
}

/// A keybind line with its comment: outside `bindd`, a given description
/// that is not blank becomes ` # description`; without one, the comment of
/// the line it replaces is kept.
pub open spec fn with_comment(
    line: Seq<char>,
    flags: Seq<char>,
    description: Option<Seq<char>>,
    replaced: Seq<char>,
) -> Seq<char> {
    if flags == "d"@ {
        line
    } else {
        match description {
            Some(d) => if trim(d).len() > 0 {
                line + " # "@ + trim(d)
            } else {
                line
            },
            None => match find_char(replaced, '#') {
                Some(i) => line + " "@ + replaced.skip(i),
                None => line,
            },
        }
    }
}

/// How many bytes `c` takes in UTF-8.
pub open spec fn utf8_width(c: char) -> int {
    if (c as u32) < 0x80 {
        1
    } else if (c as u32) < 0x800 {
        2
    } else if (c as u32) < 0x10000 {
        3
    } else {
        4
    }
}

/// The character index at which `rem` more bytes from character `i` end,
/// if that falls between two characters.
pub open spec fn boundary_from(s: Seq<char>, rem: int, i: int) -> Option<int>
    decreases s.len() - i,
{
    if rem == 0 {
        Some(i)
    } else if i < 0 || i >= s.len() || utf8_width(s[i]) > rem {
        None
    } else {
        boundary_from(s, rem - utf8_width(s[i]), i + 1)
    }
}

/// Where a line's indentation is cut: the line is sliced at the byte
/// offset that equals the number of its leading whitespace characters;
/// none when that offset falls inside a character.
pub open spec fn indent_split(l: Seq<char>) -> Option<int> {
    boundary_from(l, lead_from(l, 0), 0)
}

/// A cut found from `i` is no further than `rem` characters on.
pub proof fn lemma_boundary_bound(s: Seq<char>, rem: int, i: int)
    requires
        0 <= rem,
    ensures
        boundary_from(s, rem, i) matches Some(j) ==> i <= j <= i + rem,
    decreases s.len() - i,
{
    if rem != 0 && 0 <= i < s.len() && utf8_width(s[i]) <= rem {
        lemma_boundary_bound(s, rem - utf8_width(s[i]), i + 1);
    }
}

/// Over ASCII characters the cut falls after as many characters as bytes.
pub proof fn lemma_boundary_ascii(s: Seq<char>, rem: int, i: int)
    requires
        0 <= i,
        0 <= rem,
        i + rem <= s.len(),
        forall|q: int| i <= q < i + rem ==> (#[trigger] s[q] as u32) < 128,
    ensures
        boundary_from(s, rem, i) == Some(i + rem),
    decreases rem,
{
    if rem > 0 {
        lemma_boundary_ascii(s, rem - 1, i + 1);
    }
}

/// Rewrites the keybind on line `n` (keeping its indentation, and its flags
/// unless new ones are given).
pub open spec fn update_line_spec(
    lines: Seq<Seq<char>>,
    n: int,
    mods: Seq<char>,
    key: Seq<char>,
    dispatcher: Seq<char>,
    args: Seq<char>,
    description: Option<Seq<char>>,
    new_flags: Option<Seq<char>>,
) -> Result<Seq<Seq<char>>, EditError> {
    if n < 0 || n >= lines.len() {
        Err(EditError::LineOutOfBounds)
    } else {
        let orig = lines[n];
        let k = match indent_split(orig) {
            Some(j) => j,
            None => lead_from(orig, 0),
        };
        let ts = orig.skip(k);
        if !starts_with(ts, "bind"@) {
            Err(EditError::NotABindLine)
        } else {
            let after = ts.skip("bind"@.len() as int);
            match find_char(after, '=') {
                None => Err(EditError::UnparsableLine),
                Some(e) => {
                    let flags = match new_flags {
                        Some(f) => f,
                        None => trim(after.take(e)),
                    };
                    Ok(
                        lines.update(
                            n,
                            with_comment(
                                bind_text(
                                    orig.take(k),
                                    flags,
                                    mods,
                                    key,
                                    dispatcher,
                                    args,
                                    description,
                                ),
                                flags,
                                description,
                                orig,
                            ),
                        ),
                    )
                },
            }
        }
    }
}

/// The characters of an optional string.
pub open spec fn opt_string_view(o: Option<String>) -> Option<Seq<char>> {
    match o {
        Some(s) => Some(s@),
        None => None,
    }
}

fn bind_text_exec(
    indent: &[char],
    flags: &[char],
    mods: &[char],
    key: &[char],
    dispatcher: &[char],
    args: &[char],
    description: &Option<Vec<char>>,
) -> (r: Vec<char>)
    ensures
        r@ == bind_text(
            indent@,
            flags@,
            mods@,
            key@,
            dispatcher@,
            args@,
            match description {
                Some(d) => Some(d@),
                None => None,
            },
        ),
{
    let mut v = copy_chars(indent);
    append(&mut v, &chars_of("bind"));
    append(&mut v, flags);
    append(&mut v, &chars_of(" = "));
    append(&mut v, mods);
    append(&mut v, &chars_of(", "));
    append(&mut v, key);
    let ghost head = v@;
    if eq_chars(flags, &chars_of("d")) {
        append(&mut v, &chars_of(", "));
        match description {
            Some(d) => append(&mut v, d),
            None => {},
        }
        append(&mut v, &chars_of(", "));
        append(&mut v, dispatcher);
    } else {
        append(&mut v, &chars_of(", "));
        append(&mut v, dispatcher);
    }
    let ghost body = v@;
    if trim_chars(args).len() > 0 {
        append(&mut v, &chars_of(", "));
        append(&mut v, args);
    }
    assert(v@ =~= bind_text(
        indent@,
        flags@,
        mods@,
        key@,
        dispatcher@,
        args@,
        match description {
            Some(d) => Some(d@),
            None => None,
        },
    ));
    v
}

fn with_comment_exec(
    line: Vec<char>,
    flags: &[char],
    description: &Option<Vec<char>>,
    replaced: &[char],
) -> (r: Vec<char>)
    ensures
        r@ == with_comment(
            line@,
            flags@,
            match description {
                Some(d) => Some(d@),
                None => None,
            },
            replaced@,
        ),
{
    let mut line = line;
    if eq_chars(flags, &chars_of("d")) {
        return line;
    }
    match description {
        Some(d) => {
            let td = trim_chars(d);
            if td.len() > 0 {
                append(&mut line, &chars_of(" # "));
                append(&mut line, &td);
            }
        },
        None => match find_char_exec(replaced, '#') {
            Some(i) => {
                proof {
                    crate::text::lemma_find_from(replaced@, seq!['#'], 0);
                }
                append(&mut line, &chars_of(" "));
                append(&mut line, &slice(replaced, i, replaced.len()));
                assert(replaced@.subrange(i as int, replaced@.len() as int) == replaced@.skip(
                    i as int,
                ));
            },
            None => {},
        },
    }
    line
}

fn opt_chars_of(o: &Option<String>) -> (r: Option<Vec<char>>)
    ensures
        match r {
            Some(v) => Some(v@),
            None => None,
        } == opt_string_view(*o),
{
    match o {
        Some(s) => Some(chars_of(s.as_str())),
        None => None,
    }
}

/// How many bytes `c` takes in UTF-8.
fn utf8_width_exec(c: char) -> (r: usize)
    ensures
        r == utf8_width(c),
        1 <= r <= 4,
{
    let v = c as u32;
    if v < 0x80 {
        1
    } else if v < 0x800 {
        2
    } else if v < 0x10000 {
        3
    } else {
        4
    }
}

/// The character index at which the first `k` bytes of `s` end, if that
/// falls between two characters.
fn indent_cut(s: &[char], k: usize) -> (r: Option<usize>)
    ensures
        match r {
            Some(j) => boundary_from(s@, k as int, 0) == Some(j as int),
            None => boundary_from(s@, k as int, 0) is None,
        },
{
    let mut rem = k;
    let mut i: usize = 0;
    while rem > 0
        invariant
            i <= s@.len(),
            boundary_from(s@, rem as int, i as int) == boundary_from(s@, k as int, 0),
        decreases rem,
    {
        if i >= s.len() {
            return None;
        }
        let w = utf8_width_exec(s[i]);
        if w > rem {
            return None;
        }
        rem = rem - w;
        i = i + 1;
    }
    Some(i)
}

/// Whether the line's indentation can be cut where an update cuts it (the
/// byte offset equal to its number of leading whitespace characters falls
/// between two characters); an update of a line where it cannot is refused
/// by the caller.
pub fn indent_cuts(line: &str) -> (r: bool)
    ensures
        r == (indent_split(line@) is Some),
{
    let c = chars_of(line);
    let lead = crate::text::skip_ws(&c, 0);
    indent_cut(&c, lead).is_some()
}

/// Computes the new line `n` of an update, if the line can be updated.
fn updated_line(
    lines: &Vec<String>,
    n: usize,
    mods: &[char],
    key: &[char],
    dispatcher: &[char],
    args: &[char],
    description: &Option<Vec<char>>,
    new_flags: &Option<Vec<char>>,
) -> (r: Result<Vec<char>, EditError>)
    ensures
        ({
            let desc = match description {
                Some(d) => Some(d@),
                None => None,
            };
            let nf = match new_flags {
                Some(f) => Some(f@),
                None => None,
            };
            match (r, update_line_spec(string_views(lines@), n as int, mods@, key@, dispatcher@, args@, desc, nf)) {
                (Ok(l), Ok(ls)) => ls == string_views(lines@).update(n as int, l@),
                (Err(e1), Err(e2)) => e1 == e2,
                _ => false,
            }
        }),
{
    if n >= lines.len() {
        return Err(EditError::LineOutOfBounds);
    }
    let orig = chars_of(lines[n].as_str());
    assert(orig@ == string_views(lines@)[n as int]);
    let lead = crate::text::skip_ws(&orig, 0);
    let k = match indent_cut(&orig, lead) {
        Some(j) => j,
        None => lead,
    };
    proof {
        lemma_boundary_bound(orig@, lead as int, 0);
    }
    let ts = slice(&orig, k, orig.len());
    assert(orig@.subrange(k as int, orig@.len() as int) == orig@.skip(k as int));
    let bind = chars_of("bind");
    if !starts_with_exec(&ts, &bind) {
        return Err(EditError::NotABindLine);
    }
    let after = slice(&ts, bind.len(), ts.len());
    assert(ts@.subrange(bind@.len() as int, ts@.len() as int) == ts@.skip(bind@.len() as int));
    match find_char_exec(&after, '=') {
        None => Err(EditError::UnparsableLine),
        Some(e) => {
            proof {
                crate::text::lemma_find_from(after@, seq!['='], 0);
            }
            let flags = match new_flags {
                Some(f) => copy_chars(f),
                None => {
                    assert(after@.subrange(0, e as int) == after@.take(e as int));
                    trim_chars(&slice(&after, 0, e))
                },
            };
            let indent = slice(&orig, 0, k);
            assert(orig@.subrange(0, k as int) == orig@.take(k as int));
            let text = bind_text_exec(&indent, &flags, mods, key, dispatcher, args, description);
            let line = with_comment_exec(text, &flags, description, &orig);
            Ok(line)
        },
    }
}

/// Rewrites the keybind on line `line_number` of `lines` with new fields;
/// its indentation is kept, its flags unless `new_flags` are given, and its
/// comment unless a description is given.
pub fn update_line(
    lines: Vec<String>,
    line_number: usize,
    new_mods: &str,
    new_key: &str,
    new_dispatcher: &str,
    new_args: &str,
    description: Option<String>,
    new_flags: Option<String>,
) -> (r: Result<Vec<String>, EditError>)
    requires
        line_number < lines@.len() ==> indent_split(lines@[line_number as int]@) is Some,
    ensures
        match (r, update_line_spec(string_views(lines@), line_number as int, new_mods@, new_key@, new_dispatcher@, new_args@, opt_string_view(description), opt_string_view(new_flags))) {
            (Ok(l), Ok(ls)) => string_views(l@) == ls,
            (Err(e1), Err(e2)) => e1 == e2,
            _ => false,
        },
{
    let desc = opt_chars_of(&description);
    let nf = opt_chars_of(&new_flags);
    let m = chars_of(new_mods);
    let k = chars_of(new_key);
    let d = chars_of(new_dispatcher);
    let a = chars_of(new_args);
    match updated_line(&lines, line_number, &m, &k, &d, &a, &desc, &nf) {
        Ok(l) => {
            let mut lines = lines;
            let ghost before = lines@;
            lines.set(line_number, string_of(&l));
            assert(string_views(lines@) =~= string_views(before).update(line_number as int, l@));
            Ok(lines)
        },
        Err(e) => Err(e),
    }
}


/// One keybind's new fields in a batch of updates.
pub struct BatchUpdate {
    pub line_number: usize,
    pub new_mods: String,
    pub new_key: String,
    pub new_dispatcher: String,
    pub new_args: String,
    pub description: Option<String>,
}

/// Applies one update of a batch: a line that cannot be updated is left as it is.
pub open spec fn apply_update(lines: Seq<Seq<char>>, u: BatchUpdate) -> Seq<Seq<char>> {
    match update_line_spec(
        lines,
        u.line_number as int,
        u.new_mods@,
        u.new_key@,
        u.new_dispatcher@,
        u.new_args@,
        opt_string_view(u.description),
        None,
    ) {
        Ok(l) => l,
        Err(_) => lines,
    }
}

/// Applies a batch of updates in order.
pub open spec fn apply_updates(lines: Seq<Seq<char>>, ups: Seq<BatchUpdate>) -> Seq<Seq<char>>
    decreases ups.len(),
{
    if ups.len() == 0 {
        lines
    } else {
        apply_updates(apply_update(lines, ups[0]), ups.drop_first())
    }
}

/// Rewrites several keybinds of `lines` at once, each keeping its flags;
/// updates of lines that are not keybinds are passed over.
pub fn update_multiple_lines(lines: Vec<String>, updates: Vec<BatchUpdate>) -> (r: Vec<String>)
    requires
        forall|i: int|
            0 <= i < updates@.len() && (#[trigger] updates@[i]).line_number < lines@.len()
                ==> indent_split(lines@[updates@[i].line_number as int]@) is Some,
    ensures
        string_views(r@) == apply_updates(string_views(lines@), updates@),
{
    let ghost orig = string_views(lines@);
    let mut lines = lines;
    let mut i: usize = 0;
    assert(updates@.skip(0) == updates@);
    while i < updates.len()
        invariant
            i <= updates@.len(),
            apply_updates(string_views(lines@), updates@.skip(i as int)) == apply_updates(
                orig,
                updates@,
            ),
        decreases updates@.len() - i,
    {
        let u = &updates[i];
        assert(updates@.skip(i as int)[0] == updates@[i as int]);
        assert(updates@.skip(i as int).drop_first() == updates@.skip(i + 1));
        let desc = opt_chars_of(&u.description);
        let m = chars_of(u.new_mods.as_str());
        let k = chars_of(u.new_key.as_str());
        let d = chars_of(u.new_dispatcher.as_str());
        let a = chars_of(u.new_args.as_str());
        match updated_line(&lines, u.line_number, &m, &k, &d, &a, &desc, &None) {
            Ok(l) => {
                let ghost before = lines@;
                lines.set(u.line_number, string_of(&l));
                assert(string_views(lines@) =~= string_views(before).update(
                    u.line_number as int,
                    l@,
                ));
            },
            Err(_) => {},
        }
        i = i + 1;
    }
    assert(updates@.skip(updates@.len() as int) =~= Seq::<BatchUpdate>::empty());
    lines
}

/// Removes line `line_number` of `lines`.
pub fn delete_keybind(lines: Vec<String>, line_number: usize) -> (r: Result<Vec<String>, EditError>)
    ensures
        line_number < lines@.len() ==> (r matches Ok(l) && string_views(l@) == string_views(
            lines@,
        ).remove(line_number as int)),
        line_number >= lines@.len() ==> r matches Err(EditError::LineOutOfBounds),
{
    if line_number >= lines.len() {
        return Err(EditError::LineOutOfBounds);
    }
    let mut lines = lines;
    let ghost before = lines@;
    lines.remove(line_number);
    assert(string_views(lines@) =~= string_views(before).remove(line_number as int));
    Ok(lines)
}

/// Removes the definition on line `line_number` of `lines`.
pub fn delete_variable(lines: Vec<String>, line_number: usize) -> (r: Result<Vec<String>, EditError>)
    ensures
        line_number < lines@.len() ==> (r matches Ok(l) && string_views(l@) == string_views(
            lines@,
        ).remove(line_number as int)),
        line_number >= lines@.len() ==> r matches Err(EditError::LineOutOfBounds),
{
    delete_keybind(lines, line_number)
}

/// The first line at or after `i` that, trimmed, is `target`.
pub open spec fn first_trimmed_eq(lines: Seq<Seq<char>>, target: Seq<char>, i: int) -> Option<int>
    decreases lines.len() - i,
{
    if i < 0 || i >= lines.len() {
        None
    } else if trim(lines[i]) == target {
        Some(i)
    } else {
        first_trimmed_eq(lines, target, i + 1)
    }
}

/// The first line at or after `i` that, trimmed, begins with `p`.
pub open spec fn first_trimmed_prefix(lines: Seq<Seq<char>>, p: Seq<char>, i: int) -> Option<int>
    decreases lines.len() - i,
{
    if i < 0 || i >= lines.len() {
        None
    } else if starts_with(trim(lines[i]), p) {
        Some(i)
    } else {
        first_trimmed_prefix(lines, p, i + 1)
    }
}

proof fn lemma_first_trimmed_eq(lines: Seq<Seq<char>>, target: Seq<char>, i: int)
    requires
        0 <= i,
    ensures
        first_trimmed_eq(lines, target, i) matches Some(k) ==> i <= k < lines.len(),
    decreases lines.len() - i,
{
    if i < lines.len() && trim(lines[i]) != target {
        lemma_first_trimmed_eq(lines, target, i + 1);
    }
}

proof fn lemma_first_trimmed_prefix(lines: Seq<Seq<char>>, p: Seq<char>, i: int)
    requires
        0 <= i,
    ensures
        first_trimmed_prefix(lines, p, i) matches Some(k) ==> i <= k < lines.len(),
    decreases lines.len() - i,
{
    if i < lines.len() && !starts_with(trim(lines[i]), p) {
        lemma_first_trimmed_prefix(lines, p, i + 1);
    }
}

fn first_trimmed_eq_exec(lines: &Vec<String>, target: &[char], from: usize) -> (r: Option<usize>)
    ensures
        r matches Some(k) ==> first_trimmed_eq(string_views(lines@), target@, from as int) == Some(
            k as int,
        ) && k < lines@.len(),
        r is None ==> first_trimmed_eq(string_views(lines@), target@, from as int) is None,
{
    let mut i = from;
    while i < lines.len()
        invariant
            from <= i,
            first_trimmed_eq(string_views(lines@), target@, i as int) == first_trimmed_eq(
                string_views(lines@),
                target@,
                from as int,
            ),
        decreases lines@.len() - i,
    {
        let l = chars_of(lines[i].as_str());
        assert(l@ == string_views(lines@)[i as int]);
        if eq_chars(&trim_chars(&l), target) {
            return Some(i);
        }
        i = i + 1;
    }
    None
}

fn first_trimmed_prefix_exec(lines: &Vec<String>, p: &[char], from: usize) -> (r: Option<usize>)
    ensures
        r matches Some(k) ==> first_trimmed_prefix(string_views(lines@), p@, from as int) == Some(
            k as int,
        ) && k < lines@.len(),
        r is None ==> first_trimmed_prefix(string_views(lines@), p@, from as int) is None,
{
    let mut i = from;
    while i < lines.len()
        invariant
            from <= i,
            first_trimmed_prefix(string_views(lines@), p@, i as int) == first_trimmed_prefix(
                string_views(lines@),
                p@,
                from as int,
            ),
        decreases lines@.len() - i,
    {
        let l = chars_of(lines[i].as_str());
        assert(l@ == string_views(lines@)[i as int]);
        if starts_with_exec(&trim_chars(&l), p) {
            return Some(i);
        }
        i = i + 1;
    }
    None
}

/// The line a new keybind is written as.
pub open spec fn new_bind_line(
    mods: Seq<char>,
    key: Seq<char>,
    dispatcher: Seq<char>,
    args: Seq<char>,
    description: Option<Seq<char>>,
    flags: Seq<char>,
) -> Seq<char> {
    with_comment(bind_text(seq![], flags, mods, key, dispatcher, args, description), flags, description, seq![])
}

/// Where a new line goes and the lines after it: at the end, or in the
/// block of the named submap (just before the next `submap =` line after its
/// declaration), or in a new block of that submap at the end of the file.
pub open spec fn add_line_spec(lines: Seq<Seq<char>>, new_line: Seq<char>, submap: Option<Seq<char>>) -> (
    Seq<Seq<char>>,
    int,
) {
    match submap {
        Some(name) if name.len() > 0 => {
            let decl = "submap = "@ + name;
            match first_trimmed_eq(lines, decl, 0) {
                Some(i) => {
                    let idx = match first_trimmed_prefix(lines, "submap ="@, i + 1) {
                        Some(j) => j,
                        None => lines.len() as int,
                    };
                    (lines.insert(idx, new_line), idx)
                },
                None => (lines + seq![seq![], decl, new_line, "submap = reset"@], lines.len() + 2 as int),
            }
        },
        _ => (lines.push(new_line), lines.len() as int),
    }
}

/// Adds a keybind to `lines` (in `submap`'s block when one is named) and gives
/// the new lines with the index of the keybind's line.
pub fn add_keybind(
    lines: Vec<String>,
    mods: &str,
    key: &str,
    dispatcher: &str,
    args: &str,
    submap: Option<String>,
    description: Option<String>,
    flags: &str,
) -> (r: (Vec<String>, usize))
    ensures
        ({
            let (ls, idx) = add_line_spec(
                string_views(lines@),
                new_bind_line(mods@, key@, dispatcher@, args@, opt_string_view(description), flags@),
                opt_string_view(submap),
            );
            string_views(r.0@) == ls && r.1 == idx
        }),
{
    let desc = opt_chars_of(&description);
    let f = chars_of(flags);
    let text = bind_text_exec(&Vec::new(), &f, &chars_of(mods), &chars_of(key), &chars_of(dispatcher), &chars_of(args), &desc);
    let empty: Vec<char> = Vec::new();
    let nl = with_comment_exec(text, &f, &desc, &empty);
    assert(empty@ == Seq::<char>::empty());
    let new_line = string_of(&nl);
    let mut lines = lines;
    let ghost before = string_views(lines@);
    match submap {
        Some(name) => {
            let name_chars = chars_of(name.as_str());
            if name_chars.len() > 0 {
                let mut decl = chars_of("submap = ");
                append(&mut decl, &name_chars);
                match first_trimmed_eq_exec(&lines, &decl, 0) {
                    Some(i) => {
                        assert(i < lines.len());
                        let idx = match first_trimmed_prefix_exec(&lines, &chars_of("submap ="), i + 1) {
                            Some(j) => {
                                proof {
                                    lemma_first_trimmed_prefix(before, "submap ="@, i + 1);
                                }
                                j
                            },
                            None => lines.len(),
                        };
                        lines.insert(idx, new_line);
                        assert(string_views(lines@) =~= before.insert(idx as int, nl@));
                        return (lines, idx);
                    },
                    None => {
                        let n = lines.len();
                        lines.push(String::new());
                        lines.push(string_of(&decl));
                        lines.push(new_line);
                        lines.push(string_of(&chars_of("submap = reset")));
                        assert(string_views(lines@) =~= before + seq![
                            seq![],
                            decl@,
                            nl@,
                            "submap = reset"@,
                        ]);
                        let idx = lines.len() - 2;
                        return (lines, idx);
                    },
                }
            }
        },
        None => {},
    }
    let n = lines.len();
    lines.push(new_line);
    assert(string_views(lines@) =~= before.push(nl@));
    (lines, n)
}


/// The last line before index `j` that is neither blank nor a comment.
pub open spec fn last_significant(lines: Seq<Seq<char>>, j: int) -> Option<int>
    decreases j,
{
    if j <= 0 || j > lines.len() {
        None
    } else if trim(lines[j - 1]).len() > 0 && trim(lines[j - 1])[0] != '#' {
        Some(j - 1)
    } else {
        last_significant(lines, j - 1)
    }
}

/// The lines with a new, empty submap block at the end: the block before is
/// closed with `submap = reset` first when it was left open, and a reset key
/// that is not blank gets a keybind that leaves to `exit_target`.
pub open spec fn submap_block_spec(
    lines: Seq<Seq<char>>,
    name: Seq<char>,
    reset_key: Option<Seq<char>>,
    exit_target: Seq<char>,
) -> Seq<Seq<char>> {
    let needs_reset = match last_significant(lines, lines.len() as int) {
        Some(i) => trim(lines[i]) != "submap = reset"@,
        None => false,
    };
    let closed = if needs_reset {
        lines.push("submap = reset"@)
    } else {
        lines
    };
    let opened = closed + seq![seq![], "submap = "@ + name];
    let with_key = match reset_key {
        Some(rk) => if trim(rk).len() > 0 {
            opened.push("bind = , "@ + rk + ", submap, "@ + exit_target)
        } else {
            opened
        },
        None => opened,
    };
    with_key.push("submap = reset"@)
}

/// Adds an empty submap block named `name` at the end of `lines`.
pub fn create_submap_block(
    lines: Vec<String>,
    name: &str,
    reset_key: Option<&str>,
    exit_target: &str,
) -> (r: Vec<String>)
    ensures
        string_views(r@) == submap_block_spec(
            string_views(lines@),
            name@,
            match reset_key {
                Some(k) => Some(k@),
                None => None,
            },
            exit_target@,
        ),
{
    let ghost ls = string_views(lines@);
    let mut lines = lines;
    let mut j = lines.len();
    let mut needs_reset = false;
    let mut done = false;
    while j > 0 && !done
        invariant
            j <= lines@.len(),
            ls == string_views(lines@),
            !done ==> last_significant(ls, j as int) == last_significant(ls, ls.len() as int),
            !done ==> !needs_reset,
            done ==> j > 0 && last_significant(ls, ls.len() as int) == Some(j - 1) && needs_reset
                == (trim(ls[j - 1]) != "submap = reset"@),
        decreases j + if done {
            0int
        } else {
            1int
        },
    {
        let l = trim_chars(&chars_of(lines[j - 1].as_str()));
        assert(ls[j - 1] == lines@[j - 1]@);
        if l.len() > 0 && l[0] != '#' {
            needs_reset = !eq_chars(&l, &chars_of("submap = reset"));
            done = true;
        } else {
            j = j - 1;
        }
    }
    assert(needs_reset == match last_significant(ls, ls.len() as int) {
        Some(i) => trim(ls[i]) != "submap = reset"@,
        None => false,
    });
    if needs_reset {
        lines.push(string_of(&chars_of("submap = reset")));
    }
    lines.push(String::new());
    let mut decl = chars_of("submap = ");
    append(&mut decl, &chars_of(name));
    lines.push(string_of(&decl));
    match reset_key {
        Some(rk) => {
            let rkc = chars_of(rk);
            if trim_chars(&rkc).len() > 0 {
                let mut b = chars_of("bind = , ");
                append(&mut b, &rkc);
                append(&mut b, &chars_of(", submap, "));
                append(&mut b, &chars_of(exit_target));
                lines.push(string_of(&b));
            }
        },
        None => {},
    }
    lines.push(string_of(&chars_of("submap = reset")));
    assert(string_views(lines@) =~= submap_block_spec(
        ls,
        name@,
        match reset_key {
            Some(k) => Some(k@),
            None => None,
        },
        exit_target@,
    ));
    lines
}

/// The line that defines a variable: `$name = value`.
pub open spec fn variable_line(name: Seq<char>, value: Seq<char>) -> Seq<char> {
    "$"@ + trim_start_char(name, '$') + " = "@ + value
}

/// The first line at or after `i` that, trimmed, begins with `$`.
pub open spec fn first_var_line(lines: Seq<Seq<char>>, i: int) -> Option<int>
    decreases lines.len() - i,
{
    if i < 0 || i >= lines.len() {
        None
    } else if trim(lines[i]).len() > 0 && trim(lines[i])[0] == '$' {
        Some(i)
    } else {
        first_var_line(lines, i + 1)
    }
}

/// Where a block of definitions that goes on at line `i` ends: definitions and
/// blank lines belong to it, any other line ends it; `end` is just after the
/// last definition seen.
pub open spec fn var_block_end(lines: Seq<Seq<char>>, i: int, end: int) -> int
    decreases lines.len() - i,
{
    if i < 0 || i >= lines.len() {
        end
    } else if trim(lines[i]).len() > 0 && trim(lines[i])[0] == '$' {
        var_block_end(lines, i + 1, i + 1)
    } else if trim(lines[i]).len() > 0 {
        end
    } else {
        var_block_end(lines, i + 1, end)
    }
}

/// The first line that is not a comment (blank lines count), or 0.
pub open spec fn first_non_comment(lines: Seq<Seq<char>>, i: int) -> int
    decreases lines.len() - i,
{
    if i < 0 || i >= lines.len() {
        0
    } else if !(trim(lines[i]).len() > 0 && trim(lines[i])[0] == '#') {
        i
    } else {
        first_non_comment(lines, i + 1)
    }
}

/// The lines with a new definition: after the first block of definitions, or,
/// when there is none, before the first line that is not a comment.
pub open spec fn add_variable_spec(lines: Seq<Seq<char>>, name: Seq<char>, value: Seq<char>) -> Seq<
    Seq<char>,
> {
    match first_var_line(lines, 0) {
        Some(f) => lines.insert(var_block_end(lines, f + 1, f + 1), variable_line(name, value)),
        None => lines.insert(first_non_comment(lines, 0), variable_line(name, value)),
    }
}

proof fn lemma_var_block_end(lines: Seq<Seq<char>>, i: int, end: int)
    requires
        0 <= i,
        0 <= end <= lines.len(),
        end <= i,
    ensures
        0 <= var_block_end(lines, i, end) <= lines.len(),
    decreases lines.len() - i,
{
    if i < lines.len() {
        if trim(lines[i]).len() > 0 && trim(lines[i])[0] == '$' {
            lemma_var_block_end(lines, i + 1, i + 1);
        } else if trim(lines[i]).len() == 0 {
            lemma_var_block_end(lines, i + 1, end);
        }
    }
}

proof fn lemma_first_non_comment(lines: Seq<Seq<char>>, i: int)
    requires
        0 <= i,
    ensures
        0 <= first_non_comment(lines, i) <= lines.len(),
    decreases lines.len() - i,
{
    if i < lines.len() && trim(lines[i]).len() > 0 && trim(lines[i])[0] == '#' {
        lemma_first_non_comment(lines, i + 1);
    }
}

/// Adds the definition `$name = value` to `lines`.
pub fn add_variable(lines: Vec<String>, name: &str, value: &str) -> (r: Vec<String>)
    ensures
        string_views(r@) == add_variable_spec(string_views(lines@), name@, value@),
{
    let ghost ls = string_views(lines@);
    let mut nl = chars_of("$");
    append(&mut nl, &trim_start_char_exec(&chars_of(name), '$'));
    append(&mut nl, &chars_of(" = "));
    append(&mut nl, &chars_of(value));
    assert(nl@ =~= variable_line(name@, value@));
    let mut insert_idx: usize = 0;
    let mut found = false;
    let mut stop = false;
    let mut i: usize = 0;
    while i < lines.len() && !stop
        invariant
            i <= lines@.len(),
            ls == string_views(lines@),
            insert_idx <= i,
            stop ==> found,
            !found ==> first_var_line(ls, 0) == first_var_line(ls, i as int),
            found ==> (first_var_line(ls, 0) matches Some(f) && var_block_end(ls, f + 1, f + 1)
                == if stop {
                insert_idx as int
            } else {
                var_block_end(ls, i as int, insert_idx as int)
            }),
            found ==> insert_idx > 0,
        decreases lines@.len() - i + if stop {
            0int
        } else {
            1int
        },
    {
        let t = trim_chars(&chars_of(lines[i].as_str()));
        assert(t@ == trim(ls[i as int]));
        if t.len() > 0 && t[0] == '$' {
            found = true;
            insert_idx = i + 1;
            i = i + 1;
        } else if found && t.len() > 0 {
            stop = true;
        } else {
            i = i + 1;
        }
    }
    let mut lines = lines;
    if found {
        proof {
            if !stop {
                assert(var_block_end(ls, i as int, insert_idx as int) == insert_idx);
            }
        }
        lines.insert(insert_idx, string_of(&nl));
        assert(string_views(lines@) =~= ls.insert(insert_idx as int, nl@));
    } else {
        assert(first_var_line(ls, 0) is None);
        let mut top: usize = 0;
        let mut done = false;
        let mut k: usize = 0;
        while k < lines.len() && !done
            invariant
                k <= lines@.len(),
                ls == string_views(lines@),
                done ==> first_non_comment(ls, 0) == top,
                !done ==> first_non_comment(ls, 0) == first_non_comment(ls, k as int),
                !done ==> top == 0,
            decreases lines@.len() - k + if done {
                0int
            } else {
                1int
            },
        {
            let t = trim_chars(&chars_of(lines[k].as_str()));
            assert(t@ == trim(ls[k as int]));
            if !(t.len() > 0 && t[0] == '#') {
                top = k;
                done = true;
            } else {
                k = k + 1;
            }
        }
        proof {
            lemma_first_non_comment(ls, 0);
        }
        assert(top as int == first_non_comment(ls, 0));
        lines.insert(top, string_of(&nl));
        assert(string_views(lines@) =~= ls.insert(top as int, nl@));
    }
    lines
}

/// Rewrites the definition on line `n` as `$name = value`, keeping its comment.
pub open spec fn update_variable_spec(lines: Seq<Seq<char>>, n: int, name: Seq<char>, value: Seq<
    char,
>) -> Option<Seq<Seq<char>>> {
    if n < 0 || n >= lines.len() {
        None
    } else {
        let comment = split_comment_spec(lines[n]).1;
        Some(
            lines.update(
                n,
                variable_line(name, value) + (if comment.len() == 0 {
                    seq![]
                } else {
                    " "@
                }) + comment,
            ),
        )
    }
}

/// Rewrites the definition on line `line_number` of `lines`.
pub fn update_variable(lines: Vec<String>, line_number: usize, new_name: &str, new_value: &str) -> (r:
    Result<Vec<String>, EditError>)
    ensures
        match update_variable_spec(string_views(lines@), line_number as int, new_name@, new_value@) {
            Some(ls) => r matches Ok(l) && string_views(l@) == ls,
            None => r matches Err(EditError::LineOutOfBounds),
        },
{
    if line_number >= lines.len() {
        return Err(EditError::LineOutOfBounds);
    }
    let ghost ls = string_views(lines@);
    let (_, comment) = crate::parser::split_comment(lines[line_number].as_str());
    let c = chars_of(comment.as_str());
    let mut nl = chars_of("$");
    append(&mut nl, &trim_start_char_exec(&chars_of(new_name), '$'));
    append(&mut nl, &chars_of(" = "));
    append(&mut nl, &chars_of(new_value));
    if c.len() > 0 {
        append(&mut nl, &chars_of(" "));
    }
    append(&mut nl, &c);
    assert(nl@ =~= variable_line(new_name@, new_value@) + (if c@.len() == 0 {
        seq![]
    } else {
        " "@
    }) + c@);
    let mut lines = lines;
    lines.set(line_number, string_of(&nl));
    assert(string_views(lines@) =~= ls.update(line_number as int, nl@));
    Ok(lines)
}

/// The text of a file with these lines: each line ends with a newline, and a
/// file with no text stays empty.
pub open spec fn file_text(lines: Seq<Seq<char>>) -> Seq<char> {
    let j = crate::text::join(lines, seq!['\n']);
    if j.len() == 0 {
        j
    } else {
        j.push('\n')
    }
}

/// The text that writing `lines` to a file gives.
pub fn write_lines(lines: &Vec<String>) -> (r: String)
    ensures
        r@ == file_text(string_views(lines@)),
{
    let mut parts: Vec<Vec<char>> = Vec::new();
    let mut i: usize = 0;
    while i < lines.len()
        invariant
            i <= lines@.len(),
            views(parts@) == string_views(lines@).take(i as int),
        decreases lines@.len() - i,
    {
        let ghost old_parts = parts@;
        parts.push(chars_of(lines[i].as_str()));
        assert(views(parts@) == views(old_parts).push(lines@[i as int]@));
        assert(string_views(lines@).take(i + 1) == string_views(lines@).take(i as int).push(
            lines@[i as int]@,
        ));
        i = i + 1;
    }
    assert(string_views(lines@).take(lines@.len() as int) == string_views(lines@));
    let nl = vec!['\n'];
    assert(nl@ == seq!['\n']);
    let mut j = crate::text::join_exec(&parts, &nl);
    if j.len() > 0 {
        j.push('\n');
    }
    string_of(&j)
}

// ---------------------------------------------------------------------------
// Where an added keybind goes
// ---------------------------------------------------------------------------

/// The first line from `j` that, trimmed, is `target` is line `i` when it
/// is one and none before it is.
proof fn lemma_first_trimmed_eq_at(lines: Seq<Seq<char>>, target: Seq<char>, j: int, i: int)
    requires
        0 <= j <= i < lines.len(),
        trim(lines[i]) == target,
        forall|k: int| j <= k < i ==> trim(#[trigger] lines[k]) != target,
    ensures
        first_trimmed_eq(lines, target, j) == Some(i),
    decreases i - j,
{
    if j < i {
        lemma_first_trimmed_eq_at(lines, target, j + 1, i);
    }
}

/// What the search for the first line beginning with `p` from `j` finds:
/// such a line with none before it, or no such line at all.
proof fn lemma_first_trimmed_prefix_facts(lines: Seq<Seq<char>>, p: Seq<char>, j: int)
    requires
        0 <= j,
    ensures
        match first_trimmed_prefix(lines, p, j) {
            Some(k) => j <= k < lines.len() && starts_with(trim(lines[k]), p) && forall|m: int|
                j <= m < k ==> !starts_with(trim(#[trigger] lines[m]), p),
            None => forall|m: int| j <= m < lines.len() ==> !starts_with(trim(#[trigger] lines[m]), p),
        },
    decreases lines.len() - j,
{
    if j < lines.len() && !starts_with(trim(lines[j]), p) {
        lemma_first_trimmed_prefix_facts(lines, p, j + 1);
    }
}

/// A keybind added to a submap whose declaration `submap = name` stands in
/// the lines (first at line `i`) goes into that submap's block: its line is
/// inserted after the declaration, with no `submap =` line between them,
/// and just before the next `submap =` line (at the end when there is
/// none); the other lines are kept in order.
pub proof fn lemma_added_into_submap_block(lines: Seq<Seq<char>>, new_line: Seq<char>, name: Seq<char>, i: int)
    requires
        name.len() > 0,
        0 <= i < lines.len(),
        trim(lines[i]) == "submap = "@ + name,
        forall|j: int| 0 <= j < i ==> trim(#[trigger] lines[j]) != "submap = "@ + name,
    ensures
        ({
            let (ls, idx) = add_line_spec(lines, new_line, Some(name));
            &&& i < idx <= lines.len()
            &&& ls == lines.insert(idx, new_line)
            &&& ls[idx] == new_line
            &&& forall|j: int| i < j < idx ==> !starts_with(trim(#[trigger] lines[j]), "submap ="@)
            &&& idx < lines.len() ==> starts_with(trim(lines[idx]), "submap ="@)
        }),
{
    lemma_first_trimmed_eq_at(lines, "submap = "@ + name, 0, i);
    lemma_first_trimmed_prefix_facts(lines, "submap ="@, i + 1);
}

} // verus!
