//! The Hyprland configuration format: keybind lines (`bind[flags] = ...`),
//! submap blocks, `source = ...` inclusions and `$name = value` variables.
use crate::text::{
    before_char, before_char_exec, chars_of, eq_chars, find_char, find_char_exec, slice,
    starts_with, starts_with_exec, string_of, trim, trim_char, trim_char_exec, trim_chars,
    trim_start, trim_start_char, trim_start_char_exec, trim_start_chars, alphabetic,
    is_alphabetic,
};
use crate::vars::{
    lemma_resolve_sorted, resolve, resolve_chars, resolve_longest, string_views, VarMap,
};
use vstd::prelude::*;

verus! {

broadcast use vstd::string::group_string_axioms;

// ---------------------------------------------------------------------------
// What a line says
// ---------------------------------------------------------------------------

/// What one configuration line means to the keybind parser.
pub ghost enum LineMeaning {
    /// Blank, a comment, or anything else the parser passes over.
    Nothing,
    /// `submap = name` (`None` for `submap = reset`).
    Submap(Option<Seq<char>>),
    /// `bind<flags> = <content>`.
    Bind(Seq<char>, Seq<char>),
    /// `source = <path>`.
    Source(Seq<char>),
}

/// The text after `kw`, spaces and `=` in `t`, if `t` is `kw` followed by
/// optional whitespace and `=`.
pub open spec fn assigned(t: Seq<char>, kw: Seq<char>) -> Option<Seq<char>> {
    if starts_with(t, kw) {
        let r = trim_start(t.skip(kw.len() as int));
        if r.len() > 0 && r[0] == '=' {
            Some(r.skip(1))
        } else {
            None
        }
    } else {
        None
    }
}

/// Every character of `s` is alphabetic.
pub open spec fn all_alphabetic(s: Seq<char>) -> bool {
    forall|i: int| 0 <= i < s.len() ==> alphabetic(#[trigger] s[i])
}

/// The meaning of a `bind` line `t` (already trimmed).
pub open spec fn bind_meaning(t: Seq<char>) -> LineMeaning {
    let rest = trim_start(t.skip("bind"@.len() as int));
    match find_char(rest, '=') {
        Some(e) => {
            let flags = trim(rest.take(e));
            if all_alphabetic(flags) {
                LineMeaning::Bind(flags, trim(rest.skip(e + 1)))
            } else {
                LineMeaning::Nothing
            }
        },
        None => LineMeaning::Nothing,
    }
}

/// What `line` means to the keybind parser.
pub open spec fn line_meaning(line: Seq<char>) -> LineMeaning {
    let t = trim(line);
    if t.len() == 0 || t[0] == '#' {
        LineMeaning::Nothing
    } else if starts_with(t, "submap"@) {
        match assigned(t, "submap"@) {
            Some(v) => {
                let name = trim(before_char(v, '#'));
                if name == "reset"@ {
                    LineMeaning::Submap(None)
                } else {
                    LineMeaning::Submap(Some(name))
                }
            },
            None => LineMeaning::Nothing,
        }
    } else if starts_with(t, "bind"@) {
        bind_meaning(t)
    } else if starts_with(t, "source"@) {
        match assigned(t, "source"@) {
            Some(v) => LineMeaning::Source(trim_char(trim(before_char(v, '#')), '"')),
            None => LineMeaning::Nothing,
        }
    } else {
        LineMeaning::Nothing
    }
}

/// A configuration line as the keybind parser reads it.
pub enum ConfigLine {
    Nothing,
    Submap(Option<String>),
    Bind(String, String),
    Source(String),
}

impl View for ConfigLine {
    type V = LineMeaning;

    open spec fn view(&self) -> LineMeaning {
        match self {
            ConfigLine::Nothing => LineMeaning::Nothing,
            ConfigLine::Submap(s) => LineMeaning::Submap(
                match s {
                    Some(n) => Some(n@),
                    None => None,
                },
            ),
            ConfigLine::Bind(f, c) => LineMeaning::Bind(f@, c@),
            ConfigLine::Source(p) => LineMeaning::Source(p@),
        }
    }
}

fn assigned_exec(t: &[char], kw: &str) -> (r: Option<Vec<char>>)
    ensures
        r matches Some(v) ==> assigned(t@, kw@) == Some(v@),
        r is None ==> assigned(t@, kw@) is None,
{
    let k = chars_of(kw);
    if !starts_with_exec(t, &k) {
        return None;
    }
    let after = slice(t, k.len(), t.len());
    let r = trim_start_chars(&after);
    if r.len() > 0 && r[0] == '=' {
        Some(slice(&r, 1, r.len()))
    } else {
        None
    }
}

fn all_alphabetic_exec(s: &[char]) -> (r: bool)
    ensures
        r == all_alphabetic(s@),
{
    let mut i: usize = 0;
    while i < s.len()
        invariant
            i <= s@.len(),
            forall|k: int| 0 <= k < i ==> alphabetic(#[trigger] s@[k]),
        decreases s@.len() - i,
    {
        if !is_alphabetic(s[i]) {
            return false;
        }
        i = i + 1;
    }
    true
}

/// Reads what `line` means to the keybind parser.
pub fn classify_line(line: &[char]) -> (r: ConfigLine)
    ensures
        r@ == line_meaning(line@),
{
    let t = trim_chars(line);
    if t.len() == 0 || t[0] == '#' {
        return ConfigLine::Nothing;
    }
    if starts_with_exec(&t, &chars_of("submap")) {
        match assigned_exec(&t, "submap") {
            Some(v) => {
                let name = trim_chars(&before_char_exec(&v, '#'));
                if eq_chars(&name, &chars_of("reset")) {
                    ConfigLine::Submap(None)
                } else {
                    ConfigLine::Submap(Some(string_of(&name)))
                }
            },
            None => ConfigLine::Nothing,
        }
    } else if starts_with_exec(&t, &chars_of("bind")) {
        let kw = chars_of("bind");
        let rest = trim_start_chars(&slice(&t, kw.len(), t.len()));
        match find_char_exec(&rest, '=') {
            Some(e) => {
                proof {
                    crate::text::lemma_find_from(rest@, seq!['='], 0);
                    assert(crate::text::occurs_at(rest@, seq!['='], e as int));
                }
                assert(e < rest.len());
                let flags = trim_chars(&slice(&rest, 0, e));
                if all_alphabetic_exec(&flags) {
                    let content = trim_chars(&slice(&rest, e + 1, rest.len()));
                    assert(rest@.subrange(0, e as int) == rest@.take(e as int));
                    assert(rest@.subrange(e + 1, rest@.len() as int) == rest@.skip(e + 1));
                    ConfigLine::Bind(string_of(&flags), string_of(&content))
                } else {
                    assert(rest@.subrange(0, e as int) == rest@.take(e as int));
                    ConfigLine::Nothing
                }
            },
            None => ConfigLine::Nothing,
        }
    } else if starts_with_exec(&t, &chars_of("source")) {
        match assigned_exec(&t, "source") {
            Some(v) => {
                let p = trim_char_exec(&trim_chars(&before_char_exec(&v, '#')), '"');
                ConfigLine::Source(string_of(&p))
            },
            None => ConfigLine::Nothing,
        }
    } else {
        ConfigLine::Nothing
    }
}


// ---------------------------------------------------------------------------
// Splitting a keybind into its fields
// ---------------------------------------------------------------------------

/// The state of the field splitter after some characters.
pub ghost struct SplitState {
    /// The fields closed so far, trimmed.
    pub parts: Seq<Seq<char>>,
    /// The field being read.
    pub cur: Seq<char>,
    /// Inside a double-quoted span.
    pub in_quote: bool,
    /// How many fields have been closed.
    pub count: nat,
}

/// The splitter's state after reading `s`: while fewer than `limit` fields are
/// closed, a comma outside double quotes closes the field being read (a quote
/// is kept in the field and flips the quoted state); after that, every
/// character belongs to the last field.
pub open spec fn split_state(s: Seq<char>, limit: nat) -> SplitState
    decreases s.len(),
{
    if s.len() == 0 {
        SplitState { parts: seq![], cur: seq![], in_quote: false, count: 0 }
    } else {
        let st = split_state(s.drop_last(), limit);
        let c = s.last();
        if st.count < limit && c == '"' {
            SplitState { in_quote: !st.in_quote, cur: st.cur.push(c), ..st }
        } else if st.count < limit && c == ',' && !st.in_quote {
            SplitState { parts: st.parts.push(trim(st.cur)), cur: seq![], count: st.count + 1, ..st }
        } else {
            SplitState { cur: st.cur.push(c), ..st }
        }
    }
}

/// The trimmed fields of `s`: the last one counts when it is not blank, or
/// when `limit` fields were closed before it.
pub open spec fn split_fields(s: Seq<char>, limit: nat) -> Seq<Seq<char>> {
    let st = split_state(s, limit);
    if trim(st.cur).len() > 0 || st.count >= limit {
        st.parts.push(trim(st.cur))
    } else {
        st.parts
    }
}

/// Splits the content of a keybind into its fields.
pub fn split_fields_exec(s: &[char], limit: usize) -> (r: Vec<Vec<char>>)
    ensures
        crate::text::views(r@) == split_fields(s@, limit as nat),
{
    let mut parts: Vec<Vec<char>> = Vec::new();
    let mut cur: Vec<char> = Vec::new();
    let mut in_quote = false;
    let mut count: usize = 0;
    let mut i: usize = 0;
    assert(crate::text::views(parts@) =~= Seq::<Seq<char>>::empty());
    assert(s@.take(0) =~= Seq::<char>::empty());
    while i < s.len()
        invariant
            i <= s@.len(),
            count <= i,
            split_state(s@.take(i as int), limit as nat) == (SplitState {
                parts: crate::text::views(parts@),
                cur: cur@,
                in_quote,
                count: count as nat,
            }),
        decreases s@.len() - i,
    {
        let c = s[i];
        assert(s@.take(i + 1).drop_last() == s@.take(i as int));
        if count < limit && c == '"' {
            in_quote = !in_quote;
            cur.push(c);
        } else if count < limit && c == ',' && !in_quote {
            let ghost old_parts = parts@;
            parts.push(trim_chars(&cur));
            assert(crate::text::views(parts@) == crate::text::views(old_parts).push(trim(cur@)));
            cur = Vec::new();
            count = count + 1;
        } else {
            cur.push(c);
        }
        i = i + 1;
    }
    assert(s@.take(s@.len() as int) == s@);
    let last = trim_chars(&cur);
    if last.len() > 0 || count >= limit {
        let ghost old_parts = parts@;
        parts.push(last);
        assert(crate::text::views(parts@) == crate::text::views(old_parts).push(trim(cur@)));
    }
    parts
}

// ---------------------------------------------------------------------------
// Keybinds
// ---------------------------------------------------------------------------

/// A keybind read from a configuration file.
pub struct Keybind {
    pub mods: String,
    pub clean_mods: String,
    pub flags: String,
    pub key: String,
    pub dispatcher: String,
    pub args: String,
    pub description: Option<String>,
    pub submap: Option<String>,
    pub line_number: usize,
    pub file_path: String,
}

/// The characters of an optional string.
pub open spec fn opt_view(o: Option<String>) -> Option<Seq<char>> {
    match o {
        Some(s) => Some(s@),
        None => None,
    }
}

/// A keybind as plain values.
pub ghost struct KeybindView {
    pub mods: Seq<char>,
    pub clean_mods: Seq<char>,
    pub flags: Seq<char>,
    pub key: Seq<char>,
    pub dispatcher: Seq<char>,
    pub args: Seq<char>,
    pub description: Option<Seq<char>>,
    pub submap: Option<Seq<char>>,
    pub line_number: int,
    pub file_path: Seq<char>,
}

impl View for Keybind {
    type V = KeybindView;

    open spec fn view(&self) -> KeybindView {
        KeybindView {
            mods: self.mods@,
            clean_mods: self.clean_mods@,
            flags: self.flags@,
            key: self.key@,
            dispatcher: self.dispatcher@,
            args: self.args@,
            description: opt_view(self.description),
            submap: opt_view(self.submap),
            line_number: self.line_number as int,
            file_path: self.file_path@,
        }
    }
}

/// The fields of one `bind` line.
pub ghost struct BindFields {
    pub flags: Seq<char>,
    pub mods: Seq<char>,
    pub key: Seq<char>,
    pub dispatcher: Seq<char>,
    pub args: Seq<char>,
    pub description: Option<Seq<char>>,
}

/// A comment that describes a keybind: the text after the first `#` of its
/// own line, or else the text of a comment line just above it.
pub open spec fn description_of(line: Seq<char>, prev: Option<Seq<char>>) -> Option<Seq<char>> {
    let own = match find_char(line, '#') {
        Some(i) => {
            let c = trim(line.skip(i + 1));
            if c.len() > 0 {
                Some(c)
            } else {
                None
            }
        },
        None => None,
    };
    if own is Some {
        own
    } else {
        match prev {
            Some(p) => {
                let pt = trim(p);
                if pt.len() > 0 && pt[0] == '#' {
                    let c = trim(trim_start_char(pt, '#'));
                    if c.len() > 0 {
                        Some(c)
                    } else {
                        None
                    }
                } else {
                    None
                }
            },
            None => None,
        }
    }
}

/// The last field of `parts` at index `i`, or nothing.
pub open spec fn field_or_empty(parts: Seq<Seq<char>>, i: int) -> Seq<char> {
    if i < parts.len() {
        parts[i]
    } else {
        seq![]
    }
}

/// The fields of a `bind<flags> = <content>` line: variables substituted, the
/// comment dropped, then split at commas into modifiers, key, dispatcher and
/// arguments (`bindd` has a description field after the key). At least three
/// fields are needed.
pub open spec fn bind_fields(
    flags: Seq<char>,
    content: Seq<char>,
    line: Seq<char>,
    prev: Option<Seq<char>>,
    m: Map<Seq<char>, Seq<char>>,
) -> Option<BindFields> {
    let clean = trim(before_char(resolve_longest(content, m), '#'));
    let with_desc = flags == "d"@;
    let parts = split_fields(clean, if with_desc { 4 } else { 3 });
    if parts.len() < 3 {
        None
    } else if with_desc {
        let d = trim(parts[2]);
        Some(
            BindFields {
                flags,
                mods: parts[0],
                key: parts[1],
                dispatcher: field_or_empty(parts, 3),
                args: field_or_empty(parts, 4),
                description: if d.len() > 0 {
                    Some(d)
                } else {
                    description_of(line, prev)
                },
            },
        )
    } else {
        Some(
            BindFields {
                flags,
                mods: parts[0],
                key: parts[1],
                dispatcher: parts[2],
                args: field_or_empty(parts, 3),
                description: description_of(line, prev),
            },
        )
    }
}

/// The keybind that fields make in a submap, at a line of a file.
pub open spec fn keybind_of(
    b: BindFields,
    submap: Option<Seq<char>>,
    line_number: int,
    file: Seq<char>,
) -> KeybindView {
    KeybindView {
        mods: b.mods,
        clean_mods: b.mods,
        flags: b.flags,
        key: b.key,
        dispatcher: b.dispatcher,
        args: b.args,
        description: b.description,
        submap,
        line_number,
        file_path: file,
    }
}

fn description_exec(line: &[char], prev: Option<&Vec<char>>) -> (r: Option<Vec<char>>)
    ensures
        opt_chars(r) == description_of(
            line@,
            match prev {
                Some(p) => Some(p@),
                None => None,
            },
        ),
{
    match find_char_exec(line, '#') {
        Some(i) => {
            proof {
                crate::text::lemma_find_from(line@, seq!['#'], 0);
                assert(crate::text::occurs_at(line@, seq!['#'], i as int));
            }
            assert(i < line.len());
            let c = trim_chars(&slice(line, i + 1, line.len()));
            assert(line@.subrange(i + 1, line@.len() as int) == line@.skip(i + 1));
            if c.len() > 0 {
                return Some(c);
            }
        },
        None => {},
    }
    match prev {
        Some(p) => {
            let pt = trim_chars(p);
            if pt.len() > 0 && pt[0] == '#' {
                let c = trim_chars(&trim_start_char_exec(&pt, '#'));
                if c.len() > 0 {
                    Some(c)
                } else {
                    None
                }
            } else {
                None
            }
        },
        None => None,
    }
}

/// The characters of an optional character vector.
pub open spec fn opt_chars(o: Option<Vec<char>>) -> Option<Seq<char>> {
    match o {
        Some(v) => Some(v@),
        None => None,
    }
}

/// The key list sorted longest first, as characters.
fn key_chars(vars: &VarMap) -> (keys: Vec<Vec<char>>)
    ensures
        crate::vars::keys_cover(crate::text::views(keys@), vars@),
        crate::vars::sorted_by_len(crate::text::views(keys@)),
{
    let names = vars.sorted_keys();
    let mut keys: Vec<Vec<char>> = Vec::new();
    let mut i: usize = 0;
    while i < names.len()
        invariant
            i <= names@.len(),
            crate::text::views(keys@) == string_views(names@).take(i as int),
        decreases names@.len() - i,
    {
        let ghost old_keys = keys@;
        keys.push(chars_of(names[i].as_str()));
        assert(crate::text::views(keys@) == crate::text::views(old_keys).push(names@[i as int]@));
        assert(string_views(names@).take(i + 1) == string_views(names@).take(i as int).push(
            names@[i as int]@,
        ));
        i = i + 1;
    }
    assert(string_views(names@).take(names@.len() as int) == string_views(names@));
    keys
}

/// The fields of a bind line, the longest variable name winning at each `$`.
fn bind_fields_exec(
    flags: &[char],
    content: &[char],
    line: &[char],
    prev: Option<&Vec<char>>,
    vars: &VarMap,
    keys: &Vec<Vec<char>>,
) -> (r: Option<(Vec<char>, Vec<char>, Vec<char>, Vec<char>, Option<Vec<char>>)>)
    requires
        crate::vars::keys_cover(crate::text::views(keys@), vars@),
        crate::vars::sorted_by_len(crate::text::views(keys@)),
    ensures
        ({
            let spec_prev = match prev {
                Some(p) => Some(p@),
                None => None,
            };
            match r {
                Some((m, k, d, a, desc)) => bind_fields(flags@, content@, line@, spec_prev, vars@)
                    == Some(
                    BindFields {
                        flags: flags@,
                        mods: m@,
                        key: k@,
                        dispatcher: d@,
                        args: a@,
                        description: opt_chars(desc),
                    },
                ),
                None => bind_fields(flags@, content@, line@, spec_prev, vars@) is None,
            }
        }),
{
    let resolved = resolve_chars(content, vars, keys);
    proof {
        lemma_resolve_sorted(content@, vars@, crate::text::views(keys@));
    }
    let clean = trim_chars(&before_char_exec(&resolved, '#'));
    let with_desc = eq_chars(flags, &chars_of("d"));
    let parts = split_fields_exec(&clean, if with_desc { 4 } else { 3 });
    let ghost pv = crate::text::views(parts@);
    if parts.len() < 3 {
        return None;
    }
    assert(pv[0] == parts@[0]@ && pv[1] == parts@[1]@ && pv[2] == parts@[2]@);
    if with_desc {
        let d = trim_chars(&parts[2]);
        let desc = if d.len() > 0 {
            Some(d)
        } else {
            description_exec(line, prev)
        };
        let disp = if parts.len() > 3 {
            assert(pv[3] == parts@[3]@);
            crate::text::copy_chars(&parts[3])
        } else {
            Vec::new()
        };
        let args = if parts.len() > 4 {
            assert(pv[4] == parts@[4]@);
            crate::text::copy_chars(&parts[4])
        } else {
            Vec::new()
        };
        Some((crate::text::copy_chars(&parts[0]), crate::text::copy_chars(&parts[1]), disp, args, desc))
    } else {
        let args = if parts.len() > 3 {
            assert(pv[3] == parts@[3]@);
            crate::text::copy_chars(&parts[3])
        } else {
            Vec::new()
        };
        Some(
            (
                crate::text::copy_chars(&parts[0]),
                crate::text::copy_chars(&parts[1]),
                crate::text::copy_chars(&parts[2]),
                args,
                description_exec(line, prev),
            ),
        )
    }
}


// ---------------------------------------------------------------------------
// Reading a file's keybinds
// ---------------------------------------------------------------------------

/// The keybinds of a run of lines, the submap in force after it, and the
/// `source` line that stopped it (the line to go on from, and the path).
pub ghost struct ScanView {
    pub binds: Seq<KeybindView>,
    pub submap: Option<Seq<char>>,
    pub source: Option<(int, Seq<char>)>,
}

/// The line before line `i`, if there is one.
pub open spec fn prev_line(lines: Seq<Seq<char>>, i: int) -> Option<Seq<char>> {
    if i > 0 {
        Some(lines[i - 1])
    } else {
        None
    }
}

/// Reading `lines` from line `i` on, in `submap`: each `submap = ` line
/// changes the submap, each well-formed `bind` line gives a keybind, and a
/// `source = ` line stops the run.
pub open spec fn scan_from(
    lines: Seq<Seq<char>>,
    i: int,
    submap: Option<Seq<char>>,
    m: Map<Seq<char>, Seq<char>>,
    file: Seq<char>,
) -> ScanView
    decreases lines.len() - i,
{
    if i < 0 || i >= lines.len() {
        ScanView { binds: seq![], submap, source: None }
    } else {
        match line_meaning(lines[i]) {
            LineMeaning::Nothing => scan_from(lines, i + 1, submap, m, file),
            LineMeaning::Submap(s) => scan_from(lines, i + 1, s, m, file),
            LineMeaning::Bind(f, c) => match bind_fields(f, c, lines[i], prev_line(lines, i), m) {
                Some(b) => {
                    let rest = scan_from(lines, i + 1, submap, m, file);
                    ScanView { binds: seq![keybind_of(b, submap, i, file)] + rest.binds, ..rest }
                },
                None => scan_from(lines, i + 1, submap, m, file),
            },
            LineMeaning::Source(p) => ScanView {
                binds: seq![],
                submap,
                source: Some((i + 1, p)),
            },
        }
    }
}

/// What reading a run of lines gave.
pub struct KeybindScan {
    pub binds: Vec<Keybind>,
    pub submap: Option<String>,
    pub source: Option<(usize, String)>,
}

/// The keybinds of `v`, as plain values.
pub open spec fn keybind_views(v: Seq<Keybind>) -> Seq<KeybindView> {
    v.map_values(|k: Keybind| k@)
}

impl View for KeybindScan {
    type V = ScanView;

    open spec fn view(&self) -> ScanView {
        ScanView {
            binds: keybind_views(self.binds@),
            submap: opt_view(self.submap),
            source: match self.source {
                Some((n, p)) => Some((n as int, p@)),
                None => None,
            },
        }
    }
}

/// The lines of a configuration file's text (`str::lines`).
pub fn config_lines(content: &str) -> (r: Vec<String>)
    ensures
        string_views(r@) == crate::text::lines(content@),
{
    let s = chars_of(content);
    let ls = crate::text::lines_exec(&s);
    let mut r: Vec<String> = Vec::new();
    let mut i: usize = 0;
    while i < ls.len()
        invariant
            i <= ls@.len(),
            string_views(r@) == crate::text::views(ls@).take(i as int),
        decreases ls@.len() - i,
    {
        let ghost old_r = r@;
        r.push(string_of(&ls[i]));
        assert(string_views(r@) == string_views(old_r).push(ls@[i as int]@));
        assert(crate::text::views(ls@).take(i + 1) == crate::text::views(ls@).take(i as int).push(
            ls@[i as int]@,
        ));
        i = i + 1;
    }
    assert(crate::text::views(ls@).take(ls@.len() as int) == crate::text::views(ls@));
    r
}

/// A run of lines with `binds` in front.
pub open spec fn with_binds(binds: Seq<KeybindView>, rest: ScanView) -> ScanView {
    ScanView { binds: binds + rest.binds, ..rest }
}

fn opt_string(o: Option<Vec<char>>) -> (r: Option<String>)
    ensures
        opt_view(r) == opt_chars(o),
{
    match o {
        Some(v) => Some(string_of(&v)),
        None => None,
    }
}

/// Reads the keybinds of `lines` from line `start` on, in `submap`, with the
/// variables `vars`, up to the first `source = ` line. The keybinds name
/// `file_path` as their file.
pub fn scan_keybinds(
    lines: &Vec<String>,
    start: usize,
    submap: Option<String>,
    vars: &VarMap,
    file_path: &str,
) -> (r: KeybindScan)
    ensures
        r@ == scan_from(string_views(lines@), start as int, opt_view(submap), vars@, file_path@),
{
    let ghost ls = string_views(lines@);
    let keys = key_chars(vars);
    let mut binds: Vec<Keybind> = Vec::new();
    let mut cur = submap;
    let mut i = start;
    assert(keybind_views(binds@) =~= Seq::<KeybindView>::empty());
    while i < lines.len()
        invariant
            ls == string_views(lines@),
            crate::vars::keys_cover(crate::text::views(keys@), vars@),
            crate::vars::sorted_by_len(crate::text::views(keys@)),
            scan_from(ls, start as int, opt_view(submap), vars@, file_path@) == with_binds(
                keybind_views(binds@),
                scan_from(ls, i as int, opt_view(cur), vars@, file_path@),
            ),
        decreases lines@.len() - i,
    {
        let line = chars_of(lines[i].as_str());
        match classify_line(&line) {
            ConfigLine::Nothing => {
                i = i + 1;
            },
            ConfigLine::Submap(s) => {
                cur = s;
                i = i + 1;
            },
            ConfigLine::Bind(f, c) => {
                let prev = if i > 0 {
                    Some(chars_of(lines[i - 1].as_str()))
                } else {
                    None
                };
                let fc = chars_of(f.as_str());
                let cc = chars_of(c.as_str());
                let pr = match &prev {
                    Some(p) => Some(p),
                    None => None,
                };
                assert(prev_line(ls, i as int) == match pr {
                    Some(p) => Some(p@),
                    None => None,
                });
                match bind_fields_exec(&fc, &cc, &line, pr, vars, &keys) {
                    Some((m, k, d, a, desc)) => {
                        let mods = string_of(&m);
                        let kb = Keybind {
                            mods: string_of(&m),
                            clean_mods: mods,
                            flags: string_of(&fc),
                            key: string_of(&k),
                            dispatcher: string_of(&d),
                            args: string_of(&a),
                            description: opt_string(desc),
                            submap: match &cur {
                                Some(s) => Some(s.clone()),
                                None => None,
                            },
                            line_number: i,
                            file_path: string_of(&chars_of(file_path)),
                        };
                        let ghost old_binds = binds@;
                        binds.push(kb);
                        assert(keybind_views(binds@) =~= keybind_views(old_binds).push(kb@));
                        assert(keybind_views(old_binds).push(kb@) + scan_from(
                            ls,
                            i + 1,
                            opt_view(cur),
                            vars@,
                            file_path@,
                        ).binds =~= keybind_views(old_binds) + (seq![kb@] + scan_from(
                            ls,
                            i + 1,
                            opt_view(cur),
                            vars@,
                            file_path@,
                        ).binds));
                    },
                    None => {},
                }
                i = i + 1;
            },
            ConfigLine::Source(p) => {
                assert(keybind_views(binds@) + seq![] =~= keybind_views(binds@));
                return KeybindScan { binds, submap: cur, source: Some((i + 1, p)) };
            },
        }
    }
    assert(keybind_views(binds@) + seq![] =~= keybind_views(binds@));
    KeybindScan { binds, submap: cur, source: None }
}


// ---------------------------------------------------------------------------
// Comments, substitution, patterns
// ---------------------------------------------------------------------------

/// A line split into its text and its comment: at the first ` #`; a line
/// whose first non-blank character is `#` is all comment; otherwise at the
/// first `#`.
pub open spec fn split_comment_spec(line: Seq<char>) -> (Seq<char>, Seq<char>) {
    match crate::text::find(line, seq![' ', '#']) {
        Some(i) => (line.take(i), line.skip(i)),
        None => if trim_start(line).len() > 0 && trim_start(line)[0] == '#' {
            (seq![], line)
        } else {
            match find_char(line, '#') {
                Some(i) => (line.take(i), line.skip(i)),
                None => (line, seq![]),
            }
        },
    }
}

/// Splits a line into its text and its comment (the comment keeps its `#`).
pub fn split_comment(line: &str) -> (r: (String, String))
    ensures
        (r.0@, r.1@) == split_comment_spec(line@),
{
    let s = chars_of(line);
    let pat = vec![' ', '#'];
    assert(pat@ == seq![' ', '#']);
    match crate::text::find_exec(&s, &pat) {
        Some(i) => {
            proof {
                crate::text::lemma_find_from(s@, pat@, 0);
            }
            assert(s@.subrange(0, i as int) == s@.take(i as int));
            assert(s@.subrange(i as int, s@.len() as int) == s@.skip(i as int));
            return (string_of(&slice(&s, 0, i)), string_of(&slice(&s, i, s.len())));
        },
        None => {},
    }
    let ts = trim_start_chars(&s);
    if ts.len() > 0 && ts[0] == '#' {
        return (String::new(), string_of(&s));
    }
    match find_char_exec(&s, '#') {
        Some(i) => {
            proof {
                crate::text::lemma_find_from(s@, seq!['#'], 0);
            }
            assert(s@.subrange(0, i as int) == s@.take(i as int));
            assert(s@.subrange(i as int, s@.len() as int) == s@.skip(i as int));
            (string_of(&slice(&s, 0, i)), string_of(&slice(&s, i, s.len())))
        },
        None => (string_of(&s), String::new()),
    }
}

/// Whether a path holds a glob pattern character (`*`, `?` or `[`).
pub fn is_glob_pattern(s: &str) -> (r: bool)
    ensures
        r == (s@.contains('*') || s@.contains('?') || s@.contains('[')),
{
    let c = chars_of(s);
    let mut i: usize = 0;
    while i < c.len()
        invariant
            i <= c@.len(),
            c@ == s@,
            forall|k: int| 0 <= k < i ==> c@[k] != '*' && c@[k] != '?' && c@[k] != '[',
        decreases c@.len() - i,
    {
        if c[i] == '*' || c[i] == '?' || c[i] == '[' {
            assert(s@[i as int] == c@[i as int]);
            return true;
        }
        i = i + 1;
    }
    false
}

/// Substitutes variables in `input`: at each `$`, the first name of
/// `sorted_keys` that starts there and that `vars` defines is replaced by its
/// value; a `$` that starts no such name is kept.
pub fn resolve_variables(input: &str, vars: &VarMap, sorted_keys: &[String]) -> (r: String)
    requires
        crate::vars::no_empty_name(string_views(sorted_keys@), vars@),
    ensures
        r@ == resolve(input@, vars@, string_views(sorted_keys@)),
{
    let mut keys: Vec<Vec<char>> = Vec::new();
    let mut i: usize = 0;
    while i < sorted_keys.len()
        invariant
            i <= sorted_keys@.len(),
            crate::text::views(keys@) == string_views(sorted_keys@).take(i as int),
        decreases sorted_keys@.len() - i,
    {
        let ghost old_keys = keys@;
        keys.push(chars_of(sorted_keys[i].as_str()));
        assert(crate::text::views(keys@) == crate::text::views(old_keys).push(
            sorted_keys@[i as int]@,
        ));
        assert(string_views(sorted_keys@).take(i + 1) == string_views(sorted_keys@).take(
            i as int,
        ).push(sorted_keys@[i as int]@));
        i = i + 1;
    }
    assert(string_views(sorted_keys@).take(sorted_keys@.len() as int) == string_views(
        sorted_keys@,
    ));
    let s = chars_of(input);
    string_of(&resolve_chars(&s, vars, &keys))
}

// ---------------------------------------------------------------------------
// Reading a file's variables
// ---------------------------------------------------------------------------

/// A variable definition read from a configuration file.
pub struct Variable {
    pub name: String,
    pub value: String,
    pub line_number: usize,
    pub file_path: String,
}

/// A variable definition as plain values.
pub ghost struct VariableView {
    pub name: Seq<char>,
    pub value: Seq<char>,
    pub line_number: int,
    pub file_path: Seq<char>,
}

impl View for Variable {
    type V = VariableView;

    open spec fn view(&self) -> VariableView {
        VariableView {
            name: self.name@,
            value: self.value@,
            line_number: self.line_number as int,
            file_path: self.file_path@,
        }
    }
}

/// What one configuration line means to the variable reader.
pub ghost enum VarLineMeaning {
    Nothing,
    /// `$name = value # comment`: the name and the value as written.
    Define(Seq<char>, Seq<char>),
    Source(Seq<char>),
}

/// What `line` means to the variable reader.
pub open spec fn var_line_meaning(line: Seq<char>) -> VarLineMeaning {
    let t = trim(line);
    if t.len() == 0 || t[0] == '#' {
        VarLineMeaning::Nothing
    } else if t[0] == '$' {
        match find_char(t, '=') {
            Some(e) => {
                let name = trim(t.take(e));
                if name.len() > 0 {
                    VarLineMeaning::Define(name, trim(split_comment_spec(t.skip(e + 1)).0))
                } else {
                    VarLineMeaning::Nothing
                }
            },
            None => VarLineMeaning::Nothing,
        }
    } else if starts_with(t, "source"@) {
        match assigned(t, "source"@) {
            Some(v) => VarLineMeaning::Source(trim_char(trim(before_char(v, '#')), '"')),
            None => VarLineMeaning::Nothing,
        }
    } else {
        VarLineMeaning::Nothing
    }
}

/// What reading variables from a run of lines gave.
pub ghost struct VarScanView {
    pub vars: Map<Seq<char>, Seq<char>>,
    pub defined: Seq<VariableView>,
    pub source: Option<(int, Seq<char>)>,
}

/// Reading the variables of `lines` from line `i` on into `m`: each
/// definition records the value as written and defines the name as that
/// value with the variables known so far substituted; a `source = ` line
/// stops the run.
pub open spec fn var_scan_from(
    lines: Seq<Seq<char>>,
    i: int,
    m: Map<Seq<char>, Seq<char>>,
    file: Seq<char>,
) -> VarScanView
    decreases lines.len() - i,
{
    if i < 0 || i >= lines.len() {
        VarScanView { vars: m, defined: seq![], source: None }
    } else {
        match var_line_meaning(lines[i]) {
            VarLineMeaning::Nothing => var_scan_from(lines, i + 1, m, file),
            VarLineMeaning::Define(n, raw) => {
                let rest = var_scan_from(lines, i + 1, m.insert(n, resolve_longest(raw, m)), file);
                VarScanView {
                    defined: seq![
                        VariableView { name: n, value: raw, line_number: i, file_path: file },
                    ] + rest.defined,
                    ..rest
                }
            },
            VarLineMeaning::Source(p) => VarScanView {
                vars: m,
                defined: seq![],
                source: Some((i + 1, p)),
            },
        }
    }
}

/// The variables of `v`, as plain values.
pub open spec fn variable_views(v: Seq<Variable>) -> Seq<VariableView> {
    v.map_values(|x: Variable| x@)
}

/// What `line` means to the variable reader, as values.
fn classify_var_line(line: &[char]) -> (r: (u8, Vec<char>, Vec<char>))
    ensures
        match var_line_meaning(line@) {
            VarLineMeaning::Nothing => r.0 == 0,
            VarLineMeaning::Define(n, v) => r.0 == 1 && r.1@ == n && r.2@ == v,
            VarLineMeaning::Source(p) => r.0 == 2 && r.1@ == p,
        },
{
    let t = trim_chars(line);
    if t.len() == 0 || t[0] == '#' {
        return (0, Vec::new(), Vec::new());
    }
    if t[0] == '$' {
        match find_char_exec(&t, '=') {
            Some(e) => {
                proof {
                    crate::text::lemma_find_from(t@, seq!['='], 0);
                    assert(crate::text::occurs_at(t@, seq!['='], e as int));
                }
                assert(e < t.len());
                let name = trim_chars(&slice(&t, 0, e));
                assert(t@.subrange(0, e as int) == t@.take(e as int));
                if name.len() > 0 {
                    let after = slice(&t, e + 1, t.len());
                    assert(t@.subrange(e + 1, t@.len() as int) == t@.skip(e + 1));
                    let (text_part, _) = split_comment(string_of(&after).as_str());
                    let raw = trim_chars(&chars_of(text_part.as_str()));
                    return (1, name, raw);
                }
                return (0, Vec::new(), Vec::new());
            },
            None => {
                return (0, Vec::new(), Vec::new());
            },
        }
    }
    if starts_with_exec(&t, &chars_of("source")) {
        match assigned_exec(&t, "source") {
            Some(v) => {
                let p = trim_char_exec(&trim_chars(&before_char_exec(&v, '#')), '"');
                (2, p, Vec::new())
            },
            None => (0, Vec::new(), Vec::new()),
        }
    } else {
        (0, Vec::new(), Vec::new())
    }
}

/// Reads the variable definitions of `lines` from line `start` on into
/// `vars`, up to the first `source = ` line; the definitions name
/// `file_path` as their file.
pub fn scan_variables(lines: &Vec<String>, start: usize, vars: &mut VarMap, file_path: &str) -> (r: (
    Vec<Variable>,
    Option<(usize, String)>,
))
    ensures
        ({
            let v = var_scan_from(string_views(lines@), start as int, old(vars)@, file_path@);
            &&& final(vars)@ == v.vars
            &&& variable_views(r.0@) == v.defined
            &&& v.source == match r.1 {
                Some((n, p)) => Some((n as int, p@)),
                None => None,
            }
        }),
{
    let ghost ls = string_views(lines@);
    let mut defined: Vec<Variable> = Vec::new();
    let mut i = start;
    assert(variable_views(defined@) =~= Seq::<VariableView>::empty());
    while i < lines.len()
        invariant
            ls == string_views(lines@),
            ({
                let whole = var_scan_from(ls, start as int, old(vars)@, file_path@);
                let rest = var_scan_from(ls, i as int, vars@, file_path@);
                &&& whole.vars == rest.vars
                &&& whole.source == rest.source
                &&& whole.defined == variable_views(defined@) + rest.defined
            }),
        decreases lines@.len() - i,
    {
        let line = chars_of(lines[i].as_str());
        let (kind, a, b) = classify_var_line(&line);
        if kind == 1 {
            let keys = key_chars(vars);
            let value = resolve_chars(&b, vars, &keys);
            proof {
                lemma_resolve_sorted(b@, vars@, crate::text::views(keys@));
            }
            let var = Variable {
                name: string_of(&a),
                value: string_of(&b),
                line_number: i,
                file_path: string_of(&chars_of(file_path)),
            };
            let ghost old_defined = defined@;
            defined.push(var);
            assert(variable_views(defined@) =~= variable_views(old_defined).push(var@));
            vars.insert(string_of(&a), string_of(&value));
            assert(variable_views(old_defined).push(var@) + var_scan_from(
                ls,
                i + 1,
                vars@,
                file_path@,
            ).defined =~= variable_views(old_defined) + (seq![var@] + var_scan_from(
                ls,
                i + 1,
                vars@,
                file_path@,
            ).defined));
        } else if kind == 2 {
            assert(variable_views(defined@) + seq![] =~= variable_views(defined@));
            return (defined, Some((i + 1, string_of(&a))));
        }
        i = i + 1;
    }
    assert(variable_views(defined@) + seq![] =~= variable_views(defined@));
    (defined, None)
}


// ---------------------------------------------------------------------------
// Paths
// ---------------------------------------------------------------------------

/// The path `Path::join` makes of `base` and `rel` (`rel` itself when it is
/// absolute).
pub uninterp spec fn joined_path(base: Seq<char>, rel: Seq<char>) -> Seq<char>;

/// The parent directory `Path::parent` gives of `p`, if `p` has one.
pub uninterp spec fn parent_path(p: Seq<char>) -> Option<Seq<char>>;

/// `Path::join`: the path of `rel` under `base`; its result is named. Its
/// documentation states that an absolute `rel` (on Unix, one that begins
/// with `/`) replaces `base`, so the result is then `rel` itself.
#[verifier::external_body]
pub(crate) fn path_join(base: &str, rel: &str) -> (r: String)
    ensures
        r@ == joined_path(base@, rel@),
        rel@.len() > 0 && rel@[0] == '/' ==> r@ == rel@,
{
    std::path::Path::new(base).join(rel).to_string_lossy().into_owned()
}

/// `Path::parent`: the directory that holds `p`; its result is named.
#[verifier::external_body]
pub(crate) fn path_parent(p: &str) -> (r: Option<String>)
    ensures
        opt_view(r) == parent_path(p@),
{
    std::path::Path::new(p).parent().map(|q| q.to_string_lossy().into_owned())
}

/// Whether a path is absolute (`Path::is_absolute`): on Unix, when it
/// begins with `/`.
fn path_is_absolute(p: &str) -> (r: bool)
    ensures
        r == (p@.len() > 0 && p@[0] == '/'),
{
    let c = chars_of(p);
    c.len() > 0 && c[0] == '/'
}

/// `dirs::home_dir`: the user's home directory, as the environment gives it.
/// Nothing is stated of it: it depends on the environment.
#[verifier::external_body]
fn home_dir() -> (r: Option<String>) {
    dirs::home_dir().map(|h| h.to_string_lossy().into_owned())
}

/// A path with a leading `~` expanded, given the home directory: `~/rest`
/// becomes `rest` under the home directory and `~` the home directory;
/// anything else, or no home directory, leaves the path as it is.
pub open spec fn expand_tilde_spec(path: Seq<char>, home: Option<Seq<char>>) -> Seq<char> {
    if starts_with(path, "~/"@) {
        match home {
            Some(h) => joined_path(h, path.skip(2)),
            None => path,
        }
    } else if path == "~"@ {
        match home {
            Some(h) => h,
            None => path,
        }
    } else {
        path
    }
}

/// Expands a leading `~` of `path` with the home directory `home`.
pub fn expand_tilde_with_home(path: &str, home: Option<String>) -> (r: String)
    ensures
        r@ == expand_tilde_spec(path@, opt_view(home)),
{
    let p = chars_of(path);
    let tilde_slash = chars_of("~/");
    if starts_with_exec(&p, &tilde_slash) {
        proof {
            reveal_strlit("~/");
        }
        match home {
            Some(h) => {
                let rest = slice(&p, 2, p.len());
                assert(p@.subrange(2, p@.len() as int) == p@.skip(2));
                path_join(h.as_str(), string_of(&rest).as_str())
            },
            None => string_of(&p),
        }
    } else if eq_chars(&p, &chars_of("~")) {
        match home {
            Some(h) => h,
            None => string_of(&p),
        }
    } else {
        string_of(&p)
    }
}

/// Expands a leading `~` of `path` with the user's home directory.
pub fn expand_tilde(path: &str) -> (r: String)
    ensures
        exists|home: Option<Seq<char>>| r@ == expand_tilde_spec(path@, home),
{
    let home = home_dir();
    expand_tilde_with_home(path, home)
}

/// Where a `source = ` path leads from `current_file`, given the home
/// directory: variables substituted (the longest name first) and the result
/// trimmed; then `~` is expanded, an absolute path is kept, and a relative one
/// is taken from the directory of `current_file` (or `.`).
pub open spec fn expand_path_spec(
    path: Seq<char>,
    current_file: Seq<char>,
    m: Map<Seq<char>, Seq<char>>,
    home: Option<Seq<char>>,
) -> Seq<char> {
    let p = trim(resolve_longest(path, m));
    if p.len() > 0 && p[0] == '~' {
        expand_tilde_spec(p, home)
    } else if p.len() > 0 && p[0] == '/' {
        p
    } else {
        joined_path(
            match parent_path(current_file) {
                Some(d) => d,
                None => "."@,
            },
            p,
        )
    }
}

/// Where a `source = ` path leads from `current_file`, with the home
/// directory `home`.
pub fn expand_path_with_home(
    path: &str,
    current_file: &str,
    vars: &VarMap,
    home: Option<String>,
) -> (r: String)
    ensures
        r@ == expand_path_spec(path@, current_file@, vars@, opt_view(home)),
{
    let keys = key_chars(vars);
    let resolved = resolve_chars(&chars_of(path), vars, &keys);
    proof {
        lemma_resolve_sorted(path@, vars@, crate::text::views(keys@));
    }
    let p = trim_chars(&resolved);
    let ps = string_of(&p);
    if p.len() > 0 && p[0] == '~' {
        return expand_tilde_with_home(ps.as_str(), home);
    }
    if path_is_absolute(ps.as_str()) {
        return ps;
    }
    let dir = match path_parent(current_file) {
        Some(d) => d,
        None => string_of(&chars_of(".")),
    };
    path_join(dir.as_str(), ps.as_str())
}

/// Where a `source = ` path leads from `current_file`, with the user's home
/// directory.
pub fn expand_path(path: &str, current_file: &str, vars: &VarMap) -> (r: String)
    ensures
        exists|home: Option<Seq<char>>| r@ == expand_path_spec(path@, current_file@, vars@, home),
{
    let home = home_dir();
    expand_path_with_home(path, current_file, vars, home)
}

// ---------------------------------------------------------------------------
// The state of a pass over the files
// ---------------------------------------------------------------------------

/// The variables read so far, their names longest first, and the files
/// already read.
pub struct ParserContext {
    variables: VarMap,
    sorted_keys: Vec<String>,
    visited: Vec<String>,
    keys_dirty: bool,
}

impl ParserContext {
    /// Unless marked dirty, the key list lists the variables longest first.
    #[verifier::type_invariant]
    closed spec fn keys_fresh(self) -> bool {
        !self.keys_dirty ==> (crate::vars::keys_cover(string_views(self.sorted_keys@), self.variables@)
            && crate::vars::sorted_by_len(string_views(self.sorted_keys@)))
    }

    /// The variables read so far.
    pub closed spec fn vars(self) -> Map<Seq<char>, Seq<char>> {
        self.variables@
    }

    /// The files already read.
    pub closed spec fn visited_set(self) -> Set<Seq<char>> {
        string_views(self.visited@).to_set()
    }

    /// The key list is up to date.
    pub closed spec fn keys_sorted(self) -> bool {
        !self.keys_dirty
    }

    /// The key list, longest first.
    pub closed spec fn key_list(self) -> Seq<Seq<char>> {
        string_views(self.sorted_keys@)
    }

    /// A context with no variables and no files read.
    pub fn new() -> (c: ParserContext)
        ensures
            c.vars() == Map::<Seq<char>, Seq<char>>::empty(),
            c.visited_set() == Set::<Seq<char>>::empty(),
            c.keys_sorted(),
            c.key_list() == Seq::<Seq<char>>::empty(),
    {
        let c = ParserContext {
            variables: VarMap::new(),
            sorted_keys: Vec::new(),
            visited: Vec::new(),
            keys_dirty: false,
        };
        assert(string_views(c.sorted_keys@) =~= Seq::<Seq<char>>::empty());
        assert(string_views(c.visited@).to_set() =~= Set::<Seq<char>>::empty());
        c
    }

    /// Marks the key list as out of date.
    pub fn mark_dirty(&mut self)
        ensures
            final(self).vars() == old(self).vars(),
            final(self).visited_set() == old(self).visited_set(),
            !final(self).keys_sorted(),
    {
        self.keys_dirty = true;
    }

    /// Brings the key list up to date.
    pub fn ensure_sorted(&mut self)
        ensures
            final(self).vars() == old(self).vars(),
            final(self).visited_set() == old(self).visited_set(),
            final(self).keys_sorted(),
            crate::vars::keys_cover(final(self).key_list(), final(self).vars()),
            crate::vars::sorted_by_len(final(self).key_list()),
            old(self).keys_sorted() ==> final(self).key_list() == old(self).key_list(),
    {
        proof {
            use_type_invariant(&*self);
        }
        if self.keys_dirty {
            let keys = self.variables.sorted_keys();
            self.sorted_keys = keys;
            self.keys_dirty = false;
        }
    }

    /// Defines a variable and marks the key list as out of date.
    pub fn define(&mut self, name: String, value: String)
        ensures
            final(self).vars() == old(self).vars().insert(name@, value@),
            final(self).visited_set() == old(self).visited_set(),
            !final(self).keys_sorted(),
    {
        self.keys_dirty = true;
        let mut vars = VarMap::new();
        std::mem::swap(&mut vars, &mut self.variables);
        vars.insert(name, value);
        self.variables = vars;
    }

    /// Records that `path` is being read; tells whether it was new.
    pub fn visit(&mut self, path: &str) -> (fresh: bool)
        ensures
            fresh == !old(self).visited_set().contains(path@),
            final(self).visited_set() == old(self).visited_set().insert(path@),
            final(self).vars() == old(self).vars(),
            final(self).keys_sorted() == old(self).keys_sorted(),
    {
        proof {
            use_type_invariant(&*self);
        }
        let p = chars_of(path);
        let mut i: usize = 0;
        while i < self.visited.len()
            invariant
                i <= self.visited@.len(),
                p@ == path@,
                forall|j: int| 0 <= j < i ==> self.visited@[j]@ != path@,
            decreases self.visited@.len() - i,
        {
            if eq_chars(&chars_of(self.visited[i].as_str()), &p) {
                proof {
                    assert(string_views(self.visited@)[i as int] == path@);
                    assert(string_views(self.visited@).to_set() =~= string_views(self.visited@).to_set().insert(path@));
                }
                return false;
            }
            i = i + 1;
        }
        let ghost before = string_views(self.visited@);
        assert(!before.contains(path@)) by {
            if before.contains(path@) {
                let j = choose|j: int| 0 <= j < before.len() && before[j] == path@;
                assert(self.visited@[j]@ == path@);
            }
        }
        let mut visited: Vec<String> = Vec::new();
        std::mem::swap(&mut visited, &mut self.visited);
        visited.push(string_of(&p));
        self.visited = visited;
        proof {
            assert(string_views(self.visited@) =~= before.push(path@));
            assert(string_views(self.visited@).to_set() =~= before.to_set().insert(path@)) by {
                assert forall|x: Seq<char>| before.push(path@).contains(x) <==> (before.contains(x) || x == path@) by {
                    if before.push(path@).contains(x) && x != path@ {
                        let j = choose|j: int| 0 <= j < before.push(path@).len() && before.push(path@)[j] == x;
                        assert(before[j] == x);
                    }
                    if before.contains(x) {
                        let j = choose|j: int| 0 <= j < before.len() && before[j] == x;
                        assert(before.push(path@)[j] == x);
                    }
                    if x == path@ {
                        assert(before.push(path@)[before.len() as int] == x);
                    }
                }
            }
        }
        true
    }

    /// The variables read so far.
    pub fn variables(&self) -> (v: &VarMap)
        ensures
            v@ == self.vars(),
    {
        &self.variables
    }
}

// ---------------------------------------------------------------------------
// Where a description comes from
// ---------------------------------------------------------------------------

/// All whitespace.
pub open spec fn blank(s: Seq<char>) -> bool {
    forall|k: int| 0 <= k < s.len() ==> crate::text::is_ws(#[trigger] s[k])
}

/// A run of `c` from `i` ends at `j`.
proof fn lemma_char_run(s: Seq<char>, c: char, i: int, j: int)
    requires
        0 <= i <= j <= s.len(),
        forall|k: int| i <= k < j ==> #[trigger] s[k] == c,
        j < s.len() ==> s[j] != c,
    ensures
        crate::text::lead_char_from(s, c, i) == j,
    decreases j - i,
{
    if i < j {
        lemma_char_run(s, c, i + 1, j);
    }
}

/// A keybind line with no `#` of its own takes its description from a
/// comment line just above it: a line made of indentation, one or more
/// `#`, spacing, the text (beginning with neither whitespace nor `#`, and
/// not ending in whitespace) and trailing whitespace is described by that
/// text. Above a line that is blank or no comment, there is no
/// description.
pub proof fn lemma_comment_above_describes(
    line: Seq<char>,
    indent: Seq<char>,
    hashes: Seq<char>,
    gap: Seq<char>,
    text: Seq<char>,
    trail: Seq<char>,
)
    requires
        !line.contains('#'),
        blank(indent),
        blank(gap),
        blank(trail),
        hashes.len() > 0,
        forall|k: int| 0 <= k < hashes.len() ==> #[trigger] hashes[k] == '#',
        text.len() > 0,
        !crate::text::is_ws(text[0]),
        text[0] != '#',
        !crate::text::is_ws(text.last()),
    ensures
        description_of(line, Some(indent + hashes + gap + text + trail)) == Some(text),
        forall|p: Seq<char>|
            (trim(p).len() == 0 || trim(p)[0] != '#') ==> #[trigger] description_of(line, Some(p)) is None,
        description_of(line, None) is None,
{
    crate::text::lemma_find_char_absent(line, '#');
    let u = hashes + gap + text;
    assert(u[0] == '#');
    assert(u.last() == text.last());
    crate::text::lemma_trim_pad(indent, u, trail);
    assert(indent + hashes + gap + text + trail == indent + u + trail);
    let h = hashes.len() as int;
    assert forall|k: int| 0 <= k < h implies #[trigger] u[k] == '#' by {
        assert(u[k] == hashes[k]);
    }
    if gap.len() > 0 {
        assert(u[h] == gap[0]);
        assert(crate::text::is_ws(gap[0]));
    } else {
        assert(u[h] == text[0]);
    }
    lemma_char_run(u, '#', 0, h);
    assert(crate::text::trim_start_char(u, '#') =~= gap + text);
    crate::text::lemma_trim_pad(gap, text, Seq::<char>::empty());
    assert(gap + text + Seq::<char>::empty() =~= gap + text);
}

/// A keybind line's own comment describes it: for a line whose first `#`
/// is followed by text that is not blank, the description is that text
/// trimmed, whatever the line above.
pub proof fn lemma_own_comment_describes(before: Seq<char>, after: Seq<char>, prev: Option<Seq<char>>)
    requires
        !before.contains('#'),
        trim(after).len() > 0,
    ensures
        description_of(before + seq!['#'] + after, prev) == Some(trim(after)),
{
    let line = before + seq!['#'] + after;
    let n = before.len() as int;
    assert(line[n] == '#');
    assert forall|k: int| 0 <= k < n implies line[k] != '#' by {
        assert(line[k] == before[k]);
    }
    crate::readback::lemma_first_hash(line, n);
    assert(line.skip(n + 1) =~= after);
}

} // verus!
