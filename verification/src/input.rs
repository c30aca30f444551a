//! The `input { … }` block and the `gesture = …` line of the Hyprland
//! configuration: reading the keyboard and pointer settings out of the
//! file's text, and writing changed settings back into it.
use crate::numbers::{int_text, int_to_text, parse_i32, parse_i32_exec};
use crate::text::{append, before_char, before_char_exec, chars_of, ends_with, ends_with_exec, eq_chars, join, join_exec, lead_from, lines, lines_exec, skip_ws, slice, starts_with, starts_with_exec, string_of, trim, trim_chars, trim_end_char, trim_end_char_exec, views};
use vstd::prelude::*;

verus! {

broadcast use vstd::string::group_string_axioms;

// ---------------------------------------------------------------------------
// The shapes of the lines read
// ---------------------------------------------------------------------------

/// Whether `c` is a decimal digit in the sense of the regular-expression
/// class `\d` (the Unicode category `Nd`).
pub uninterp spec fn unicode_nd(c: char) -> bool;

/// The regular-expression class `\d`: `0`..`9` among the ASCII
/// characters, the Unicode category `Nd` beyond them.
pub open spec fn decimal_digit(c: char) -> bool {
    if (c as u32) < 128 {
        '0' <= c && c <= '9'
    } else {
        unicode_nd(c)
    }
}

/// The `regex` crate's `\d` class on one character: its result is named
/// (the crate's Unicode tables decide it); of the ASCII characters the
/// class holds exactly `0`..`9` (regex-syntax's `DECIMAL_NUMBER` table
/// begins with that range, and its next range lies beyond ASCII).
#[verifier::external_body]
fn is_decimal_digit(c: char) -> (r: bool)
    ensures
        r == decimal_digit(c),
        (c as u32) >= 128 ==> r == unicode_nd(c),
{
    let mut buf = [0u8; 4];
    regex::Regex::new(r"\A\d\z").unwrap().is_match(c.encode_utf8(&mut buf))
}

/// A character of a setting's name: an ASCII letter, digit or `_`.
pub open spec fn is_name_char(c: char) -> bool {
    ('a' <= c && c <= 'z') || ('A' <= c && c <= 'Z') || ('0' <= c && c <= '9') || c == '_'
}

/// The end of the run of characters from `i` on that satisfy the class.
pub open spec fn name_end(s: Seq<char>, i: int) -> int
    decreases s.len() - i,
{
    if 0 <= i < s.len() && is_name_char(s[i]) {
        name_end(s, i + 1)
    } else {
        i
    }
}

/// The end of the run of `\d` digits from `i` on.
pub open spec fn nd_end(s: Seq<char>, i: int) -> int
    decreases s.len() - i,
{
    if 0 <= i < s.len() && decimal_digit(s[i]) {
        nd_end(s, i + 1)
    } else {
        i
    }
}

proof fn lemma_name_end(s: Seq<char>, i: int)
    requires
        0 <= i <= s.len(),
    ensures
        i <= name_end(s, i) <= s.len(),
    decreases s.len() - i,
{
    if i < s.len() && is_name_char(s[i]) {
        lemma_name_end(s, i + 1);
    }
}

proof fn lemma_nd_end(s: Seq<char>, i: int)
    requires
        0 <= i <= s.len(),
    ensures
        i <= nd_end(s, i) <= s.len(),
    decreases s.len() - i,
{
    if i < s.len() && decimal_digit(s[i]) {
        lemma_nd_end(s, i + 1);
    }
}

/// A `name = value` line (`^(\s*)([a-zA-Z0-9_]+)(\s*=\s*)(.*)`): the
/// indices where the name starts and ends and where the value starts.
pub open spec fn setting_parts(t: Seq<char>) -> Option<(int, int, int)> {
    let a = lead_from(t, 0);
    let b = name_end(t, a);
    let c = lead_from(t, b);
    if b > a && c < t.len() && t[c] == '=' {
        Some((a, b, lead_from(t, c + 1)))
    } else {
        None
    }
}

/// The name and the value of a `name = value` line.
pub open spec fn setting_of(t: Seq<char>) -> Option<(Seq<char>, Seq<char>)> {
    match setting_parts(t) {
        Some((a, b, d)) => Some((t.subrange(a, b), t.skip(d))),
        None => None,
    }
}

/// The digits of a `gesture = N, horizontal, workspace` line (the pattern
/// `^\s*gesture\s*=\s*(\d+)\s*,\s*horizontal\s*,\s*workspace`).
pub open spec fn gesture_digits(t: Seq<char>) -> Option<Seq<char>> {
    let a = lead_from(t, 0);
    let p = lead_from(t, a + 7);
    let q = lead_from(t, p + 1);
    let e = nd_end(t, q);
    let r1 = lead_from(t, e);
    let r2 = lead_from(t, r1 + 1);
    let r3 = lead_from(t, r2 + 10);
    let r4 = lead_from(t, r3 + 1);
    if crate::text::occurs_at(t, "gesture"@, a) && p < t.len() && t[p] == '=' && e > q && r1 < t.len()
        && t[r1] == ',' && crate::text::occurs_at(t, "horizontal"@, r2) && r3 < t.len() && t[r3]
        == ',' && crate::text::occurs_at(t, "workspace"@, r4) {
        Some(t.subrange(q, e))
    } else {
        None
    }
}

fn name_end_exec(s: &[char], i: usize) -> (r: usize)
    requires
        i <= s@.len(),
    ensures
        r == name_end(s@, i as int),
        i <= r <= s@.len(),
{
    proof {
        lemma_name_end(s@, i as int);
    }
    let mut k = i;
    while k < s.len() && (('a' <= s[k] && s[k] <= 'z') || ('A' <= s[k] && s[k] <= 'Z') || ('0' <= s[k]
        && s[k] <= '9') || s[k] == '_')
        invariant
            i <= k <= s@.len(),
            name_end(s@, k as int) == name_end(s@, i as int),
        decreases s@.len() - k,
    {
        k = k + 1;
    }
    k
}

fn nd_end_exec(s: &[char], i: usize) -> (r: usize)
    requires
        i <= s@.len(),
    ensures
        r == nd_end(s@, i as int),
        i <= r <= s@.len(),
{
    proof {
        lemma_nd_end(s@, i as int);
    }
    let mut k = i;
    while k < s.len() && is_decimal_digit(s[k])
        invariant
            i <= k <= s@.len(),
            nd_end(s@, k as int) == nd_end(s@, i as int),
        decreases s@.len() - k,
    {
        k = k + 1;
    }
    k
}

fn setting_parts_exec(t: &[char]) -> (r: Option<(usize, usize, usize)>)
    ensures
        match r {
            Some((a, b, d)) => setting_parts(t@) == Some((a as int, b as int, d as int)) && a <= b <= d
                <= t@.len(),
            None => setting_parts(t@) is None,
        },
{
    let a = skip_ws(t, 0);
    let b = name_end_exec(t, a);
    let c = skip_ws(t, b);
    if b > a && c < t.len() && t[c] == '=' {
        let d = skip_ws(t, c + 1);
        Some((a, b, d))
    } else {
        None
    }
}

fn setting_of_exec(t: &[char]) -> (r: Option<(Vec<char>, Vec<char>)>)
    ensures
        match r {
            Some((k, v)) => setting_of(t@) == Some((k@, v@)),
            None => setting_of(t@) is None,
        },
{
    match setting_parts_exec(t) {
        Some((a, b, d)) => {
            let v = slice(t, d, t.len());
            assert(v@ =~= t@.skip(d as int));
            Some((slice(t, a, b), v))
        },
        None => None,
    }
}

fn occurs_lit(t: &[char], lit: &str, i: usize) -> (r: bool)
    ensures
        r == crate::text::occurs_at(t@, lit@, i as int),
{
    crate::text::occurs_at_exec(t, &chars_of(lit), i)
}

fn gesture_digits_exec(t: &[char]) -> (r: Option<Vec<char>>)
    ensures
        match r {
            Some(d) => gesture_digits(t@) == Some(d@),
            None => gesture_digits(t@) is None,
        },
{
    proof {
        reveal_strlit("gesture");
        reveal_strlit("horizontal");
        reveal_strlit("workspace");
    }
    let a = skip_ws(t, 0);
    if !occurs_lit(t, "gesture", a) {
        return None;
    }
    assert("gesture"@.len() == 7);
    assert(a + 7 <= t.len());
    let p = skip_ws(t, a + 7);
    if !(p < t.len() && t[p] == '=') {
        return None;
    }
    let q = skip_ws(t, p + 1);
    let e = nd_end_exec(t, q);
    if e <= q {
        return None;
    }
    let r1 = skip_ws(t, e);
    if !(r1 < t.len() && t[r1] == ',') {
        return None;
    }
    let r2 = skip_ws(t, r1 + 1);
    if !occurs_lit(t, "horizontal", r2) {
        return None;
    }
    assert("horizontal"@.len() == 10);
    assert(r2 + 10 <= t.len());
    let r3 = skip_ws(t, r2 + 10);
    if !(r3 < t.len() && t[r3] == ',') {
        return None;
    }
    let r4 = skip_ws(t, r3 + 1);
    if !occurs_lit(t, "workspace", r4) {
        return None;
    }
    Some(slice(t, q, e))
}

// ---------------------------------------------------------------------------
// Reading the settings
// ---------------------------------------------------------------------------

/// The keyboard and pointer settings that are whole numbers or text.
pub struct InputValues {
    pub kb_layout: String,
    pub kb_variant: String,
    pub kb_options: String,
    pub follow_mouse: i32,
    pub repeat_rate: i32,
    pub repeat_delay: i32,
}

/// The settings as plain values.
pub ghost struct InputValuesView {
    pub kb_layout: Seq<char>,
    pub kb_variant: Seq<char>,
    pub kb_options: Seq<char>,
    pub follow_mouse: i32,
    pub repeat_rate: i32,
    pub repeat_delay: i32,
}

impl View for InputValues {
    type V = InputValuesView;

    open spec fn view(&self) -> InputValuesView {
        InputValuesView {
            kb_layout: self.kb_layout@,
            kb_variant: self.kb_variant@,
            kb_options: self.kb_options@,
            follow_mouse: self.follow_mouse,
            repeat_rate: self.repeat_rate,
            repeat_delay: self.repeat_delay,
        }
    }
}

/// The workspace-swipe gesture: whether it is on, and with how many fingers.
pub struct GesturesConfig {
    pub workspace_swipe: bool,
    pub workspace_swipe_fingers: i32,
}

impl Default for GesturesConfig {
    fn default() -> (r: GesturesConfig)
        ensures
            !r.workspace_swipe && r.workspace_swipe_fingers == 3,
    {
        GesturesConfig { workspace_swipe: false, workspace_swipe_fingers: 3 }
    }
}

/// What has been read of the file so far.
pub ghost struct InputScan {
    pub depth: nat,
    pub in_input: bool,
    pub values: InputValuesView,
    pub sensitivity: Seq<Seq<char>>,
    pub swipe: bool,
    pub fingers: i32,
}

/// The line opens the `input` block.
pub open spec fn is_input_header(t: Seq<char>) -> bool {
    starts_with(t, "input {"@) || (starts_with(t, "input"@) && ends_with(t, "{"@))
}

/// A setting of the `input` block read into the values (whole numbers only
/// when they read as such; each `sensitivity` value is kept, in order).
pub open spec fn apply_input_setting(st: InputScan, key: Seq<char>, v: Seq<char>) -> InputScan {
    if key == "kb_layout"@ {
        InputScan { values: InputValuesView { kb_layout: v, ..st.values }, ..st }
    } else if key == "kb_variant"@ {
        InputScan { values: InputValuesView { kb_variant: v, ..st.values }, ..st }
    } else if key == "kb_options"@ {
        InputScan { values: InputValuesView { kb_options: v, ..st.values }, ..st }
    } else if key == "follow_mouse"@ {
        match parse_i32(v) {
            Some(n) => InputScan { values: InputValuesView { follow_mouse: n, ..st.values }, ..st },
            None => st,
        }
    } else if key == "sensitivity"@ {
        InputScan { sensitivity: st.sensitivity.push(v), ..st }
    } else if key == "repeat_rate"@ {
        match parse_i32(v) {
            Some(n) => InputScan { values: InputValuesView { repeat_rate: n, ..st.values }, ..st },
            None => st,
        }
    } else if key == "repeat_delay"@ {
        match parse_i32(v) {
            Some(n) => InputScan { values: InputValuesView { repeat_delay: n, ..st.values }, ..st },
            None => st,
        }
    } else {
        st
    }
}

/// Reading one line: an `input … {` line opens the block; outside blocks a
/// `gesture` line turns the swipe on (and sets the fingers when they read
/// as a number); inside, `}` closes a block, a line ending in `{` opens a
/// nested one, and `name = value` lines of the `input` block are read, the
/// value cut at `#` and trimmed.
pub open spec fn input_step(st: InputScan, line: Seq<char>) -> InputScan {
    let t = trim(line);
    if is_input_header(t) {
        InputScan { in_input: true, depth: 1, ..st }
    } else {
        let st1 = if st.depth == 0 {
            match gesture_digits(t) {
                Some(ds) => InputScan {
                    swipe: true,
                    fingers: match parse_i32(ds) {
                        Some(n) => n,
                        None => st.fingers,
                    },
                    ..st
                },
                None => st,
            }
        } else {
            st
        };
        if st1.depth > 0 {
            if t == "}"@ {
                let d = (st1.depth - 1) as nat;
                InputScan { depth: d, in_input: if d == 0 {
                    false
                } else {
                    st1.in_input
                }, ..st1 }
            } else {
                let st2 = if ends_with(t, "{"@) {
                    InputScan { depth: st1.depth + 1, ..st1 }
                } else {
                    st1
                };
                match setting_of(t) {
                    Some((k, rest)) => if st2.in_input {
                        apply_input_setting(st2, k, trim(before_char(rest, '#')))
                    } else {
                        st2
                    },
                    None => st2,
                }
            }
        } else {
            st1
        }
    }
}

/// The state after the lines `ls`.
pub open spec fn input_scan(ls: Seq<Seq<char>>) -> InputScan
    decreases ls.len(),
{
    if ls.len() == 0 {
        InputScan {
            depth: 0,
            in_input: false,
            values: InputValuesView {
                kb_layout: seq![],
                kb_variant: seq![],
                kb_options: seq![],
                follow_mouse: 1,
                repeat_rate: 25,
                repeat_delay: 600,
            },
            sensitivity: seq![],
            swipe: false,
            fingers: 3,
        }
    } else {
        input_step(input_scan(ls.drop_last()), ls.last())
    }
}

/// The settings read from the text of the configuration file: the values,
/// every `sensitivity` value written (the caller reads them as numbers; the
/// last that reads wins), and the gesture.
pub fn load_input_config(content: &str) -> (r: (InputValues, Vec<String>, GesturesConfig))
    ensures
        ({
            let st = input_scan(lines(content@));
            &&& r.0@ == st.values
            &&& r.1@.map_values(|s: String| s@) == st.sensitivity
            &&& r.2.workspace_swipe == st.swipe
            &&& r.2.workspace_swipe_fingers == st.fingers
        }),
{
    let ls = lines_exec(&chars_of(content));
    let ghost lv = views(ls@);
    let mut depth: u64 = 0;
    let mut in_input = false;
    let mut layout: Vec<char> = Vec::new();
    let mut variant: Vec<char> = Vec::new();
    let mut options: Vec<char> = Vec::new();
    let mut follow_mouse: i32 = 1;
    let mut repeat_rate: i32 = 25;
    let mut repeat_delay: i32 = 600;
    let mut sensitivity: Vec<String> = Vec::new();
    let mut swipe = false;
    let mut fingers: i32 = 3;
    let mut i: usize = 0;
    assert(lv.take(0) =~= Seq::<Seq<char>>::empty());
    while i < ls.len()
        invariant
            i <= ls@.len(),
            lv == views(ls@),
            lv == lines(content@),
            depth <= i,
            ({
                let st = input_scan(lv.take(i as int));
                &&& st.depth == depth as nat
                &&& st.in_input == in_input
                &&& st.values == (InputValuesView {
                    kb_layout: layout@,
                    kb_variant: variant@,
                    kb_options: options@,
                    follow_mouse,
                    repeat_rate,
                    repeat_delay,
                })
                &&& st.sensitivity == sensitivity@.map_values(|s: String| s@)
                &&& st.swipe == swipe
                &&& st.fingers == fingers
            }),
        decreases ls@.len() - i,
    {
        assert(lv.take(i + 1).drop_last() =~= lv.take(i as int));
        assert(lv.take(i + 1).last() == ls@[i as int]@);
        let t = trim_chars(&ls[i]);
        let header = starts_with_exec(&t, &chars_of("input {")) || (starts_with_exec(&t, &chars_of("input"))
            && ends_with_exec(&t, &chars_of("{")));
        if header {
            in_input = true;
            depth = 1;
        } else {
            if depth == 0 {
                match gesture_digits_exec(&t) {
                    Some(ds) => {
                        swipe = true;
                        match parse_i32_exec(&ds) {
                            Some(n) => {
                                fingers = n;
                            },
                            None => {},
                        }
                    },
                    None => {},
                }
            }
            if depth > 0 {
                if eq_chars(&t, &chars_of("}")) {
                    depth = depth - 1;
                    if depth == 0 {
                        in_input = false;
                    }
                } else {
                    if ends_with_exec(&t, &chars_of("{")) {
                        depth = depth + 1;
                    }
                    match setting_of_exec(&t) {
                        Some((k, rest)) => {
                            if in_input {
                                let v = trim_chars(&before_char_exec(&rest, '#'));
                                if eq_chars(&k, &chars_of("kb_layout")) {
                                    layout = v;
                                } else if eq_chars(&k, &chars_of("kb_variant")) {
                                    variant = v;
                                } else if eq_chars(&k, &chars_of("kb_options")) {
                                    options = v;
                                } else if eq_chars(&k, &chars_of("follow_mouse")) {
                                    match parse_i32_exec(&v) {
                                        Some(n) => {
                                            follow_mouse = n;
                                        },
                                        None => {},
                                    }
                                } else if eq_chars(&k, &chars_of("sensitivity")) {
                                    let ghost before = sensitivity@.map_values(|s: String| s@);
                                    sensitivity.push(string_of(&v));
                                    assert(sensitivity@.map_values(|s: String| s@) =~= before.push(v@));
                                } else if eq_chars(&k, &chars_of("repeat_rate")) {
                                    match parse_i32_exec(&v) {
                                        Some(n) => {
                                            repeat_rate = n;
                                        },
                                        None => {},
                                    }
                                } else if eq_chars(&k, &chars_of("repeat_delay")) {
                                    match parse_i32_exec(&v) {
                                        Some(n) => {
                                            repeat_delay = n;
                                        },
                                        None => {},
                                    }
                                }
                            }
                        },
                        None => {},
                    }
                }
            }
        }
        i = i + 1;
    }
    assert(lv.take(i as int) =~= lv);
    (
        InputValues {
            kb_layout: string_of(&layout),
            kb_variant: string_of(&variant),
            kb_options: string_of(&options),
            follow_mouse,
            repeat_rate,
            repeat_delay,
        },
        sensitivity,
        GesturesConfig { workspace_swipe: swipe, workspace_swipe_fingers: fingers },
    )
}

// ---------------------------------------------------------------------------
// Writing the settings back
// ---------------------------------------------------------------------------

/// The old gesture settings of the `input` block, which the `gesture` line
/// replaces.
pub open spec fn legacy_gesture_keys() -> Seq<Seq<char>> {
    seq![
        "workspace_swipe"@,
        "workspace_swipe_fingers"@,
        "workspace_swipe_distance"@,
        "workspace_swipe_invert"@,
        "workspace_swipe_min_speed_to_force"@,
        "workspace_swipe_cancel_ratio"@,
        "workspace_swipe_create_new"@,
        "workspace_swipe_direction_lock"@,
        "workspace_swipe_direction_lock_threshold"@,
        "workspace_swipe_forever"@,
    ]
}

/// The nesting of blocks while looking for lines to remove, and the name
/// of the outermost open block.
pub ghost struct BlockState {
    pub depth: nat,
    pub top: Option<Seq<char>>,
}

/// Reading one line while looking for lines to remove: whether it belongs
/// to a `gestures` block (its header, body or closing brace) or is an old
/// gesture setting of the `input` block.
pub open spec fn removal_step(st: BlockState, line: Seq<char>) -> (BlockState, bool) {
    let t = trim(line);
    if t.len() == 0 {
        (st, false)
    } else if ends_with(t, "{"@) {
        let top = if st.depth == 0 {
            Some(trim(trim_end_char(t, '{')))
        } else {
            st.top
        };
        (BlockState { depth: st.depth + 1, top }, top == Some("gestures"@))
    } else if starts_with(t, "}"@) {
        if st.depth > 0 {
            let d = (st.depth - 1) as nat;
            (BlockState { depth: d, top: if d == 0 {
                None
            } else {
                st.top
            } }, st.top == Some("gestures"@))
        } else {
            (st, false)
        }
    } else if st.depth > 0 {
        match st.top {
            Some(n) => if n == "gestures"@ {
                (st, true)
            } else if n == "input"@ {
                (st, match setting_of(t) {
                    Some((k, _)) => legacy_gesture_keys().contains(k),
                    None => false,
                })
            } else {
                (st, false)
            },
            None => (st, false),
        }
    } else {
        (st, false)
    }
}

/// The state after the first `n` lines.
pub open spec fn removal_state(ls: Seq<Seq<char>>, n: int) -> BlockState
    decreases n,
{
    if n <= 0 {
        BlockState { depth: 0, top: None }
    } else {
        removal_step(removal_state(ls, n - 1), ls[n - 1]).0
    }
}

/// The first `n` lines without those removed.
pub open spec fn kept_lines(ls: Seq<Seq<char>>, n: int) -> Seq<Seq<char>>
    decreases n,
{
    if n <= 0 {
        seq![]
    } else {
        kept_lines(ls, n - 1) + (if removal_step(removal_state(ls, n - 1), ls[n - 1]).1 {
            seq![]
        } else {
            seq![ls[n - 1]]
        })
    }
}

fn is_legacy_key(k: &[char]) -> (r: bool)
    ensures
        r == legacy_gesture_keys().contains(k@),
{
    let keys: [&str; 10] = [
        "workspace_swipe",
        "workspace_swipe_fingers",
        "workspace_swipe_distance",
        "workspace_swipe_invert",
        "workspace_swipe_min_speed_to_force",
        "workspace_swipe_cancel_ratio",
        "workspace_swipe_create_new",
        "workspace_swipe_direction_lock",
        "workspace_swipe_direction_lock_threshold",
        "workspace_swipe_forever",
    ];
    let mut i: usize = 0;
    while i < 10
        invariant
            i <= 10,
            forall|j: int| 0 <= j < 10 ==> keys@[j]@ == legacy_gesture_keys()[j],
            forall|j: int| 0 <= j < i ==> legacy_gesture_keys()[j] != k@,
        decreases 10 - i,
    {
        if eq_chars(k, &chars_of(keys[i])) {
            assert(legacy_gesture_keys()[i as int] == k@);
            return true;
        }
        i = i + 1;
    }
    false
}

fn removal_lines(ls: &Vec<Vec<char>>) -> (r: Vec<Vec<char>>)
    ensures
        views(r@) == kept_lines(views(ls@), ls@.len() as int),
{
    let ghost lv = views(ls@);
    let mut depth: u64 = 0;
    let mut top: Option<Vec<char>> = None;
    let mut out: Vec<Vec<char>> = Vec::new();
    let mut i: usize = 0;
    while i < ls.len()
        invariant
            i <= ls@.len(),
            lv == views(ls@),
            depth <= i,
            removal_state(lv, i as int) == (BlockState {
                depth: depth as nat,
                top: match top {
                    Some(v) => Some(v@),
                    None => None,
                },
            }),
            views(out@) == kept_lines(lv, i as int),
        decreases ls@.len() - i,
    {
        let line = &ls[i];
        assert(lv[i as int] == line@);
        let t = trim_chars(line);
        let gestures = chars_of("gestures");
        let mut remove = false;
        if t.len() == 0 {
        } else if ends_with_exec(&t, &chars_of("{")) {
            if depth == 0 {
                top = Some(trim_chars(&trim_end_char_exec(&t, '{')));
            }
            depth = depth + 1;
            remove = match &top {
                Some(n) => eq_chars(n, &gestures),
                None => false,
            };
        } else if starts_with_exec(&t, &chars_of("}")) {
            if depth > 0 {
                remove = match &top {
                    Some(n) => eq_chars(n, &gestures),
                    None => false,
                };
                depth = depth - 1;
                if depth == 0 {
                    top = None;
                }
            }
        } else if depth > 0 {
            match &top {
                Some(n) => {
                    if eq_chars(n, &gestures) {
                        remove = true;
                    } else if eq_chars(n, &chars_of("input")) {
                        remove = match setting_of_exec(&t) {
                            Some((k, _)) => is_legacy_key(&k),
                            None => false,
                        };
                    }
                },
                None => {},
            }
        }
        assert(removal_step(removal_state(lv, i as int), lv[i as int]).1 == remove);
        if !remove {
            let ghost before = views(out@);
            out.push(crate::text::copy_chars(line));
            assert(views(out@) =~= before + seq![line@]);
        } else {
            assert(views(out@) =~= views(out@) + Seq::<Seq<char>>::empty());
        }
        i = i + 1;
    }
    out
}

/// The first line from index `i` on that opens the `input` block.
pub open spec fn input_start(ls: Seq<Seq<char>>, i: int) -> Option<int>
    decreases ls.len() - i,
{
    if i < 0 || i >= ls.len() {
        None
    } else if is_input_header(trim(ls[i])) {
        Some(i)
    } else {
        input_start(ls, i + 1)
    }
}

/// The first line from index `i` on that is a lone `}`.
pub open spec fn block_close(ls: Seq<Seq<char>>, i: int) -> Option<int>
    decreases ls.len() - i,
{
    if i < 0 || i >= ls.len() {
        None
    } else if trim(ls[i]) == "}"@ {
        Some(i)
    } else {
        block_close(ls, i + 1)
    }
}

/// The value that `ups` gives for `key`, if any.
pub open spec fn value_for(ups: Seq<(Seq<char>, Seq<char>)>, key: Seq<char>) -> Option<Seq<char>>
    decreases ups.len(),
{
    if ups.len() == 0 {
        None
    } else if ups[0].0 == key {
        Some(ups[0].1)
    } else {
        value_for(ups.drop_first(), key)
    }
}

/// The comment of a line: from its first `#` on.
pub open spec fn comment_of(line: Seq<char>) -> Seq<char> {
    match crate::text::find_char(line, '#') {
        Some(k) => line.skip(k),
        None => seq![],
    }
}

/// A setting line of the block rewritten with its new value: indentation,
/// name and `=` kept, then the value, then the line's comment after a space.
pub open spec fn changed_line(line: Seq<char>, ups: Seq<(Seq<char>, Seq<char>)>) -> Option<Seq<char>> {
    match setting_parts(line) {
        Some((a, b, d)) => match value_for(ups, line.subrange(a, b)) {
            Some(v) => Some(
                line.take(d) + v + (if comment_of(line).len() > 0 {
                    seq![' ']
                } else {
                    seq![]
                }) + comment_of(line),
            ),
            None => None,
        },
        None => None,
    }
}

/// Some line strictly between `s` and `e` sets `key`.
pub open spec fn sets_key(ls: Seq<Seq<char>>, s: int, e: int, key: Seq<char>) -> bool {
    exists|i: int|
        s < i < e && (#[trigger] setting_of(ls[i])) is Some && setting_of(ls[i]).unwrap().0 == key
}

/// The lines added for the settings that the block does not set (those
/// with an empty value are not added).
pub open spec fn added_settings(ls: Seq<Seq<char>>, s: int, e: int, ups: Seq<(Seq<char>, Seq<char>)>) -> Seq<
    Seq<char>,
>
    decreases ups.len(),
{
    if ups.len() == 0 {
        seq![]
    } else {
        (if !sets_key(ls, s, e, ups[0].0) && ups[0].1.len() > 0 {
            seq!["    "@ + ups[0].0 + " = "@ + ups[0].1]
        } else {
            seq![]
        }) + added_settings(ls, s, e, ups.drop_first())
    }
}

/// The lines of a new `input` block's settings (an empty `kb_variant` or
/// `kb_options` is left out).
pub open spec fn fresh_settings(ups: Seq<(Seq<char>, Seq<char>)>) -> Seq<Seq<char>>
    decreases ups.len(),
{
    if ups.len() == 0 {
        seq![]
    } else {
        (if (ups[0].0 == "kb_variant"@ || ups[0].0 == "kb_options"@) && ups[0].1.len() == 0 {
            seq![]
        } else {
            seq!["    "@ + ups[0].0 + " = "@ + ups[0].1]
        }) + fresh_settings(ups.drop_first())
    }
}

/// The lines with the `input` block's settings updated: in the first block
/// (up to its first lone `}`) the lines that set an updated name get the
/// new value, the names it does not set are added before its `}`; without
/// such a block, a new one is added at the end after an empty line.
pub open spec fn with_input_block(ls: Seq<Seq<char>>, ups: Seq<(Seq<char>, Seq<char>)>) -> Seq<Seq<char>> {
    match input_start(ls, 0) {
        Some(s) => match block_close(ls, s) {
            Some(e) => ls.take(s + 1) + Seq::new(
                (e - s - 1) as nat,
                |k: int|
                    match changed_line(ls[s + 1 + k], ups) {
                        Some(c) => c,
                        None => ls[s + 1 + k],
                    },
            ) + added_settings(ls, s, e, ups) + ls.skip(e),
            None => ls + seq![seq![], "input {"@] + fresh_settings(ups) + seq!["}"@],
        },
        None => ls + seq![seq![], "input {"@] + fresh_settings(ups) + seq!["}"@],
    }
}

/// The first line from index `i` on that is a `gesture` line.
pub open spec fn gesture_line(ls: Seq<Seq<char>>, i: int) -> Option<int>
    decreases ls.len() - i,
{
    if i < 0 || i >= ls.len() {
        None
    } else if gesture_digits(ls[i]) is Some {
        Some(i)
    } else {
        gesture_line(ls, i + 1)
    }
}

/// The lines with the gesture line written: replaced (or added at the end)
/// when the swipe is on, removed when it is off.
pub open spec fn with_gesture(ls: Seq<Seq<char>>, swipe: bool, fingers: i32) -> Seq<Seq<char>> {
    let new_line = "gesture = "@ + int_text(fingers as int) + ", horizontal, workspace"@;
    match gesture_line(ls, 0) {
        Some(g) => if swipe {
            ls.update(g, new_line)
        } else {
            ls.remove(g)
        },
        None => if swipe {
            ls.push(new_line)
        } else {
            ls
        },
    }
}

/// The settings written, in order, with the sensitivity as `sensitivity`.
pub open spec fn input_updates(v: InputValuesView, sensitivity: Seq<char>) -> Seq<(Seq<char>, Seq<char>)> {
    seq![
        ("kb_layout"@, v.kb_layout),
        ("kb_variant"@, v.kb_variant),
        ("kb_options"@, v.kb_options),
        ("follow_mouse"@, int_text(v.follow_mouse as int)),
        ("sensitivity"@, sensitivity),
        ("repeat_rate"@, int_text(v.repeat_rate as int)),
        ("repeat_delay"@, int_text(v.repeat_delay as int)),
    ]
}

/// The text of the configuration file after saving the settings: the
/// `gestures` block and old gesture settings removed, the `input` block
/// updated, the `gesture` line written, lines joined by `\n`.
pub open spec fn saved_input_text(
    content: Seq<char>,
    v: InputValuesView,
    sensitivity: Seq<char>,
    swipe: bool,
    fingers: i32,
) -> Seq<char> {
    let ls = lines(content);
    let kept = kept_lines(ls, ls.len() as int);
    let updated = with_input_block(kept, input_updates(v, sensitivity));
    join(with_gesture(updated, swipe, fingers), seq!['\n'])
}

/// The pairs as plain values.
pub open spec fn pair_views(v: Seq<(Vec<char>, Vec<char>)>) -> Seq<(Seq<char>, Seq<char>)> {
    v.map_values(|p: (Vec<char>, Vec<char>)| (p.0@, p.1@))
}

fn value_for_exec(ups: &Vec<(Vec<char>, Vec<char>)>, key: &[char]) -> (r: Option<Vec<char>>)
    ensures
        match r {
            Some(v) => value_for(pair_views(ups@), key@) == Some(v@),
            None => value_for(pair_views(ups@), key@) is None,
        },
{
    let ghost pv = pair_views(ups@);
    let mut i: usize = 0;
    assert(pv.skip(0) =~= pv);
    while i < ups.len()
        invariant
            i <= ups@.len(),
            pv == pair_views(ups@),
            value_for(pv, key@) == value_for(pv.skip(i as int), key@),
        decreases ups@.len() - i,
    {
        assert(pv.skip(i as int)[0] == (ups@[i as int].0@, ups@[i as int].1@));
        assert(pv.skip(i as int).drop_first() =~= pv.skip(i + 1));
        if eq_chars(&ups[i].0, key) {
            return Some(crate::text::copy_chars(&ups[i].1));
        }
        i = i + 1;
    }
    assert(pv.skip(i as int) =~= Seq::<(Seq<char>, Seq<char>)>::empty());
    None
}

fn changed_line_exec(line: &[char], ups: &Vec<(Vec<char>, Vec<char>)>) -> (r: Option<Vec<char>>)
    ensures
        match r {
            Some(c) => changed_line(line@, pair_views(ups@)) == Some(c@),
            None => changed_line(line@, pair_views(ups@)) is None,
        },
{
    match setting_parts_exec(line) {
        Some((a, b, d)) => {
            let key = slice(line, a, b);
            match value_for_exec(ups, &key) {
                Some(v) => {
                    let mut out = slice(line, 0, d);
                    assert(out@ =~= line@.take(d as int));
                    append(&mut out, &v);
                    proof {
                        crate::text::lemma_find_from(line@, seq!['#'], 0);
                    }
                    match crate::text::find_char_exec(line, '#') {
                        Some(k) => {
                            assert(crate::text::occurs_at(line@, seq!['#'], k as int));
                            let c = slice(line, k, line.len());
                            assert(c@ =~= line@.skip(k as int));
                            assert(c@.len() > 0);
                            out.push(' ');
                            append(&mut out, &c);
                            assert(out@ =~= line@.take(d as int) + v@ + seq![' '] + comment_of(line@));
                        },
                        None => {
                            assert(out@ =~= line@.take(d as int) + v@ + Seq::<char>::empty() + comment_of(line@));
                        },
                    }
                    Some(out)
                },
                None => None,
            }
        },
        None => None,
    }
}

fn setting_line(key: &[char], value: &[char]) -> (r: Vec<char>)
    ensures
        r@ == "    "@ + key@ + " = "@ + value@,
{
    let mut out = chars_of("    ");
    append(&mut out, key);
    append(&mut out, &chars_of(" = "));
    append(&mut out, value);
    out
}

fn fresh_block(ls: &Vec<Vec<char>>, ups: &Vec<(Vec<char>, Vec<char>)>) -> (r: Vec<Vec<char>>)
    ensures
        views(r@) == views(ls@) + seq![seq![], "input {"@] + fresh_settings(pair_views(ups@)) + seq!["}"@],
{
    let ghost pv = pair_views(ups@);
    let mut out: Vec<Vec<char>> = Vec::new();
    let mut i: usize = 0;
    while i < ls.len()
        invariant
            i <= ls@.len(),
            views(out@) == views(ls@).take(i as int),
        decreases ls@.len() - i,
    {
        let ghost before = views(out@);
        out.push(crate::text::copy_chars(&ls[i]));
        assert(views(out@) =~= before.push(ls@[i as int]@));
        assert(views(ls@).take(i + 1) =~= views(ls@).take(i as int).push(ls@[i as int]@));
        i = i + 1;
    }
    assert(views(ls@).take(i as int) =~= views(ls@));
    let ghost head = views(out@);
    out.push(Vec::new());
    out.push(chars_of("input {"));
    assert(views(out@) =~= head + seq![seq![], "input {"@]);
    let ghost head2 = views(out@);
    let mut u: usize = 0;
    assert(pv.skip(0) =~= pv);
    while u < ups.len()
        invariant
            u <= ups@.len(),
            pv == pair_views(ups@),
            views(out@) + fresh_settings(pv.skip(u as int)) == head2 + fresh_settings(pv),
        decreases ups@.len() - u,
    {
        let (k, v) = &ups[u];
        assert(pv.skip(u as int)[0] == (k@, v@));
        assert(pv.skip(u as int).drop_first() =~= pv.skip(u + 1));
        let skip = (eq_chars(k, &chars_of("kb_variant")) || eq_chars(k, &chars_of("kb_options"))) && v.len()
            == 0;
        let ghost before = views(out@);
        if !skip {
            out.push(setting_line(k, v));
            assert(views(out@) =~= before + seq!["    "@ + k@ + " = "@ + v@]);
        } else {
            assert(views(out@) =~= before + Seq::<Seq<char>>::empty());
        }
        u = u + 1;
    }
    assert(pv.skip(u as int) =~= Seq::<(Seq<char>, Seq<char>)>::empty());
    let ghost head3 = views(out@);
    out.push(chars_of("}"));
    assert(views(out@) =~= head3 + seq!["}"@]);
    out
}

fn is_header_line(line: &[char]) -> (r: bool)
    ensures
        r == is_input_header(trim(line@)),
{
    let t = trim_chars(line);
    starts_with_exec(&t, &chars_of("input {")) || (starts_with_exec(&t, &chars_of("input")) && ends_with_exec(
        &t,
        &chars_of("{"),
    ))
}

fn is_close_line(line: &[char]) -> (r: bool)
    ensures
        r == (trim(line@) == "}"@),
{
    eq_chars(&trim_chars(line), &chars_of("}"))
}

fn update_input_block(ls: &Vec<Vec<char>>, ups: &Vec<(Vec<char>, Vec<char>)>) -> (r: Vec<Vec<char>>)
    ensures
        views(r@) == with_input_block(views(ls@), pair_views(ups@)),
{
    let ghost lv = views(ls@);
    let ghost pv = pair_views(ups@);
    let mut s: usize = 0;
    while s < ls.len() && !is_header_line(&ls[s])
        invariant
            s <= ls@.len(),
            lv == views(ls@),
            input_start(lv, 0) == input_start(lv, s as int),
        decreases ls@.len() - s,
    {
        assert(lv[s as int] == ls@[s as int]@);
        s = s + 1;
    }
    if s >= ls.len() {
        return fresh_block(ls, ups);
    }
    assert(lv[s as int] == ls@[s as int]@);
    assert(input_start(lv, 0) == Some(s as int));
    let mut e: usize = s;
    while e < ls.len() && !is_close_line(&ls[e])
        invariant
            s <= e <= ls@.len(),
            lv == views(ls@),
            block_close(lv, s as int) == block_close(lv, e as int),
        decreases ls@.len() - e,
    {
        assert(lv[e as int] == ls@[e as int]@);
        e = e + 1;
    }
    if e >= ls.len() {
        return fresh_block(ls, ups);
    }
    assert(lv[e as int] == ls@[e as int]@);
    assert(block_close(lv, s as int) == Some(e as int));
    proof {
        reveal_strlit("}");
        reveal_strlit("input");
        reveal_strlit("input {");
        if e == s {
            assert(is_input_header(trim(lv[s as int])));
            assert(trim(lv[s as int]).len() == 1);
        }
    }
    let mut out: Vec<Vec<char>> = Vec::new();
    let mut i: usize = 0;
    while i <= s
        invariant
            i <= s + 1,
            s < e < ls@.len(),
            lv == views(ls@),
            views(out@) == lv.take(i as int),
        decreases s + 1 - i,
    {
        let ghost before = views(out@);
        out.push(crate::text::copy_chars(&ls[i]));
        assert(views(out@) =~= before.push(lv[i as int]));
        assert(lv.take(i + 1) =~= lv.take(i as int).push(lv[i as int]));
        i = i + 1;
    }
    let ghost head = views(out@);
    let ghost f = |k: int|
        match changed_line(lv[s + 1 + k], pv) {
            Some(c) => c,
            None => lv[s + 1 + k],
        };
    let mut j: usize = s + 1;
    while j < e
        invariant
            s < j <= e,
            e < ls@.len(),
            lv == views(ls@),
            pv == pair_views(ups@),
            head == lv.take(s + 1),
            f == (|k: int|
                match changed_line(lv[s + 1 + k], pv) {
                    Some(c) => c,
                    None => lv[s + 1 + k],
                }),
            views(out@) == head + Seq::new((j - s - 1) as nat, f),
        decreases e - j,
    {
        let line = &ls[j];
        assert(lv[j as int] == line@);
        let ghost before = views(out@);
        let c = match changed_line_exec(line, ups) {
            Some(c) => c,
            None => crate::text::copy_chars(line),
        };
        assert(c@ == f((j - s - 1) as int));
        out.push(c);
        assert(views(out@) =~= before.push(c@));
        assert(Seq::new((j + 1 - s - 1) as nat, f) =~= Seq::new((j - s - 1) as nat, f).push(f((j - s - 1) as int)));
        assert(views(out@) =~= head + Seq::new((j + 1 - s - 1) as nat, f));
        j = j + 1;
    }
    let ghost head2 = views(out@);
    let mut u: usize = 0;
    assert(pv.skip(0) =~= pv);
    while u < ups.len()
        invariant
            u <= ups@.len(),
            s < e < ls@.len(),
            lv == views(ls@),
            pv == pair_views(ups@),
            views(out@) + added_settings(lv, s as int, e as int, pv.skip(u as int)) == head2
                + added_settings(lv, s as int, e as int, pv),
        decreases ups@.len() - u,
    {
        let (k, v) = &ups[u];
        assert(pv.skip(u as int)[0] == (k@, v@));
        assert(pv.skip(u as int).drop_first() =~= pv.skip(u + 1));
        let mut set = false;
        let mut m: usize = s + 1;
        while m < e
            invariant
                s < m <= e,
                e < ls@.len(),
                lv == views(ls@),
                set ==> sets_key(lv, s as int, e as int, k@),
                !set ==> forall|q: int|
                    s < q < m ==> !((#[trigger] setting_of(lv[q])) is Some && setting_of(lv[q]).unwrap().0
                        == k@),
            decreases e - m,
        {
            assert(lv[m as int] == ls@[m as int]@);
            match setting_of_exec(&ls[m]) {
                Some((key, _)) => {
                    if eq_chars(&key, k) {
                        assert(setting_of(lv[m as int]) is Some);
                        set = true;
                    }
                },
                None => {},
            }
            m = m + 1;
        }
        let ghost before = views(out@);
        if !set && v.len() > 0 {
            out.push(setting_line(k, v));
            assert(views(out@) =~= before + seq!["    "@ + k@ + " = "@ + v@]);
        } else {
            assert(views(out@) =~= before + Seq::<Seq<char>>::empty());
        }
        u = u + 1;
    }
    assert(pv.skip(u as int) =~= Seq::<(Seq<char>, Seq<char>)>::empty());
    let ghost head3 = views(out@);
    let mut t: usize = e;
    while t < ls.len()
        invariant
            e <= t <= ls@.len(),
            lv == views(ls@),
            views(out@) == head3 + lv.subrange(e as int, t as int),
        decreases ls@.len() - t,
    {
        let ghost before = views(out@);
        out.push(crate::text::copy_chars(&ls[t]));
        assert(views(out@) =~= before.push(lv[t as int]));
        assert(lv.subrange(e as int, t + 1) =~= lv.subrange(e as int, t as int).push(lv[t as int]));
        assert(views(out@) =~= head3 + lv.subrange(e as int, t + 1));
        t = t + 1;
    }
    assert(lv.subrange(e as int, t as int) =~= lv.skip(e as int));
    out
}

fn update_gesture_line(ls: Vec<Vec<char>>, swipe: bool, fingers: i32) -> (r: Vec<Vec<char>>)
    ensures
        views(r@) == with_gesture(views(ls@), swipe, fingers),
{
    let ghost lv = views(ls@);
    let mut g: usize = 0;
    while g < ls.len() && gesture_digits_exec(&ls[g]).is_none()
        invariant
            g <= ls@.len(),
            lv == views(ls@),
            gesture_line(lv, 0) == gesture_line(lv, g as int),
        decreases ls@.len() - g,
    {
        assert(lv[g as int] == ls@[g as int]@);
        g = g + 1;
    }
    let mut new_line = chars_of("gesture = ");
    append(&mut new_line, &int_to_text(fingers));
    append(&mut new_line, &chars_of(", horizontal, workspace"));
    let ghost nl = new_line@;
    let mut ls = ls;
    if g < ls.len() {
        assert(lv[g as int] == ls@[g as int]@);
        assert(gesture_line(lv, 0) == Some(g as int));
        if swipe {
            ls.set(g, new_line);
            assert(views(ls@) =~= lv.update(g as int, nl));
        } else {
            ls.remove(g);
            assert(views(ls@) =~= lv.remove(g as int));
        }
    } else {
        if swipe {
            ls.push(new_line);
            assert(views(ls@) =~= lv.push(nl));
        }
    }
    ls
}

/// The text of the configuration file `content` after saving the settings
/// `values`, the sensitivity written as `sensitivity`, and the gesture.
pub fn save_input_config(
    content: &str,
    values: &InputValues,
    sensitivity: &str,
    gestures: &GesturesConfig,
) -> (r: String)
    ensures
        r@ == saved_input_text(
            content@,
            values@,
            sensitivity@,
            gestures.workspace_swipe,
            gestures.workspace_swipe_fingers,
        ),
{
    let ls = lines_exec(&chars_of(content));
    let kept = removal_lines(&ls);
    let ups: Vec<(Vec<char>, Vec<char>)> = vec![
        (chars_of("kb_layout"), chars_of(values.kb_layout.as_str())),
        (chars_of("kb_variant"), chars_of(values.kb_variant.as_str())),
        (chars_of("kb_options"), chars_of(values.kb_options.as_str())),
        (chars_of("follow_mouse"), int_to_text(values.follow_mouse)),
        (chars_of("sensitivity"), chars_of(sensitivity)),
        (chars_of("repeat_rate"), int_to_text(values.repeat_rate)),
        (chars_of("repeat_delay"), int_to_text(values.repeat_delay)),
    ];
    assert(pair_views(ups@) =~= input_updates(values@, sensitivity@));
    let updated = update_input_block(&kept, &ups);
    let fin = update_gesture_line(updated, gestures.workspace_swipe, gestures.workspace_swipe_fingers);
    let nl = vec!['\n'];
    assert(nl@ == seq!['\n']);
    string_of(&join_exec(&fin, &nl))
}

} // verus!
