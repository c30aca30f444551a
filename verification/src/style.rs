//! The application's own settings file (`key = value` lines): reading it
//! into settings with their validation messages, and writing it back.
use crate::numbers::{int_text, int_to_text, parse_i32, parse_i32_exec};
use crate::parser::opt_view;
use crate::text::{
    append, chars_of, ends_with, ends_with_exec, eq_chars, find_char, find_char_exec, join, join_exec, lines, lines_exec,
    lower_chars, slice, starts_with, string_of, trim, trim_chars, lowercase, views,
};
use crate::vars::VarMap;
use vstd::prelude::*;

verus! {

broadcast use vstd::string::group_string_axioms;

// ---------------------------------------------------------------------------
// The file's entries
// ---------------------------------------------------------------------------

/// The settings after one more line: a line that is not blank, not a `#`
/// comment and holds a `=` sets the trimmed key before the first `=` to the
/// trimmed rest (a later line wins).
pub open spec fn ini_line(m: Map<Seq<char>, Seq<char>>, line: Seq<char>) -> Map<Seq<char>, Seq<char>> {
    let t = trim(line);
    if t.len() == 0 || starts_with(t, seq!['#']) {
        m
    } else {
        match find_char(t, '=') {
            Some(k) => m.insert(trim(t.take(k)), trim(t.skip(k + 1))),
            None => m,
        }
    }
}

/// The settings the lines give, in order.
pub open spec fn ini_from(ls: Seq<Seq<char>>) -> Map<Seq<char>, Seq<char>>
    decreases ls.len(),
{
    if ls.len() == 0 {
        Map::empty()
    } else {
        ini_line(ini_from(ls.drop_last()), ls.last())
    }
}

/// Reads the `key = value` entries of a settings file.
pub fn parse_ini_like(content: &str) -> (r: VarMap)
    ensures
        r@ == ini_from(lines(content@)),
{
    let ls = lines_exec(&chars_of(content));
    let ghost lv = views(ls@);
    let mut m = VarMap::new();
    let mut i: usize = 0;
    assert(lv.take(0) =~= Seq::<Seq<char>>::empty());
    while i < ls.len()
        invariant
            i <= ls@.len(),
            lv == views(ls@),
            lv == lines(content@),
            m@ == ini_from(lv.take(i as int)),
        decreases ls@.len() - i,
    {
        assert(lv.take(i + 1).drop_last() =~= lv.take(i as int));
        assert(lv.take(i + 1).last() == ls@[i as int]@);
        let t = trim_chars(&ls[i]);
        if t.len() > 0 && t[0] != '#' {
            proof {
                crate::text::lemma_find_from(t@, seq!['='], 0);
            }
            match find_char_exec(&t, '=') {
                Some(k) => {
                    assert(crate::text::occurs_at(t@, seq!['='], k as int));
                    assert(k < t.len());
                    let key = trim_chars(&slice(&t, 0, k));
                    let value = trim_chars(&slice(&t, k + 1, t.len()));
                    assert(t@.subrange(0, k as int) =~= t@.take(k as int));
                    assert(t@.subrange(k + 1, t@.len() as int) =~= t@.skip(k + 1));
                    m.insert(string_of(&key), string_of(&value));
                },
                None => {},
            }
        } else {
            assert(t@.len() == 0 || starts_with(t@, seq!['#'])) by {
                if t@.len() > 0 {
                    assert(t@.take(1) =~= seq!['#']);
                }
            }
        }
        proof {
            if t@.len() > 0 && t@[0] != '#' {
                assert(!starts_with(t@, seq!['#'])) by {
                    if starts_with(t@, seq!['#']) {
                        assert(t@.take(1)[0] == t@[0]);
                    }
                }
            }
        }
        i = i + 1;
    }
    assert(lv.take(i as int) =~= lv);
    m
}

/// `s` with every trailing copy of `p` removed (`str::trim_end_matches`).
pub open spec fn strip_suffixes(s: Seq<char>, p: Seq<char>) -> Seq<char>
    decreases s.len(),
{
    if p.len() > 0 && ends_with(s, p) {
        strip_suffixes(s.take(s.len() - p.len()), p)
    } else {
        s
    }
}

/// A size in pixels: lowercased, trailing `px` dropped, trimmed, read as a
/// whole number.
pub open spec fn pixels(val: Seq<char>) -> Option<i32> {
    parse_i32(trim(strip_suffixes(lowercase(val), "px"@)))
}

/// Reads a size in pixels such as `700px` or `12`.
pub fn parse_pixels(val: &str) -> (r: Option<i32>)
    ensures
        r == pixels(val@),
{
    let lower = lower_chars(&chars_of(val));
    let px = chars_of("px");
    proof {
        reveal_strlit("px");
    }
    let mut cur = lower;
    while ends_with_exec(&cur, &px)
        invariant
            px@ == "px"@,
            px@.len() == 2,
            strip_suffixes(cur@, "px"@) == strip_suffixes(lowercase(val@), "px"@),
        decreases cur@.len(),
    {
        let next = slice(&cur, 0, cur.len() - 2);
        assert(next@ =~= cur@.take(cur@.len() - 2));
        cur = next;
    }
    parse_i32_exec(&trim_chars(&cur))
}

// ---------------------------------------------------------------------------
// The settings
// ---------------------------------------------------------------------------

/// The settings other than the window opacity, with the messages about
/// values that were not used.
pub struct StyleSettings {
    pub font_size: Option<String>,
    pub border_size: Option<String>,
    pub border_radius: Option<String>,
    pub width: i32,
    pub height: i32,
    pub show_submaps: bool,
    pub show_args: bool,
    pub show_favorites: bool,
    pub alternating_row_colors: bool,
    pub default_sort: String,
    pub shadow_size: String,
    pub monitor_margin: i32,
    pub row_padding: i32,
    pub keyboard_layout: String,
    pub show_description: bool,
    pub auto_backup: bool,
    pub max_backups_enabled: bool,
    pub max_backups_count: i32,
    pub errors: Vec<String>,
}

/// The settings as plain values.
pub ghost struct StyleView {
    pub font_size: Option<Seq<char>>,
    pub border_size: Option<Seq<char>>,
    pub border_radius: Option<Seq<char>>,
    pub width: i32,
    pub height: i32,
    pub show_submaps: bool,
    pub show_args: bool,
    pub show_favorites: bool,
    pub alternating_row_colors: bool,
    pub default_sort: Seq<char>,
    pub shadow_size: Seq<char>,
    pub monitor_margin: i32,
    pub row_padding: i32,
    pub keyboard_layout: Seq<char>,
    pub show_description: bool,
    pub auto_backup: bool,
    pub max_backups_enabled: bool,
    pub max_backups_count: i32,
    pub errors: Seq<Seq<char>>,
}

impl View for StyleSettings {
    type V = StyleView;

    open spec fn view(&self) -> StyleView {
        StyleView {
            font_size: opt_view(self.font_size),
            border_size: opt_view(self.border_size),
            border_radius: opt_view(self.border_radius),
            width: self.width,
            height: self.height,
            show_submaps: self.show_submaps,
            show_args: self.show_args,
            show_favorites: self.show_favorites,
            alternating_row_colors: self.alternating_row_colors,
            default_sort: self.default_sort@,
            shadow_size: self.shadow_size@,
            monitor_margin: self.monitor_margin,
            row_padding: self.row_padding,
            keyboard_layout: self.keyboard_layout@,
            show_description: self.show_description,
            auto_backup: self.auto_backup,
            max_backups_enabled: self.max_backups_enabled,
            max_backups_count: self.max_backups_count,
            errors: self.errors@.map_values(|e: String| e@),
        }
    }
}

/// What reading the opacity value as a number gave.
#[derive(Clone, Copy, Debug, PartialEq, Eq, Structural)]
pub enum OpacityCheck {
    /// A number from 0 to 1.
    Valid,
    /// A number outside 0 to 1.
    OutOfRange,
    /// Not a number.
    Invalid,
}

/// The value of `key` in `m`, if it is set.
pub open spec fn setting(m: Map<Seq<char>, Seq<char>>, key: Seq<char>) -> Option<Seq<char>> {
    if m.contains_key(key) {
        Some(m[key])
    } else {
        None
    }
}

/// A size setting: its value when it reads as at least `min` pixels, else
/// the default; and the message when it was set and not used, `too_small`
/// or `invalid` around the value.
pub open spec fn size_setting(
    v: Option<Seq<char>>,
    default: i32,
    min: int,
    too_small: (Seq<char>, Seq<char>),
    invalid: (Seq<char>, Seq<char>),
) -> (i32, Seq<Seq<char>>) {
    match v {
        None => (default, seq![]),
        Some(t) => match pixels(t) {
            Some(n) => if n < min {
                (default, seq![too_small.0 + t + too_small.1])
            } else {
                (n, seq![])
            },
            None => (default, seq![invalid.0 + t + invalid.1]),
        },
    }
}

/// A flag setting: on when its lowercased value is `true`.
pub open spec fn flag_setting(v: Option<Seq<char>>, default: bool) -> bool {
    match v {
        Some(t) => lowercase(t) == "true"@,
        None => default,
    }
}

/// The message about the opacity value, when it is set and not used.
pub open spec fn opacity_errors(v: Option<Seq<char>>, check: OpacityCheck) -> Seq<Seq<char>> {
    match v {
        None => seq![],
        Some(t) => match check {
            OpacityCheck::Valid => seq![],
            OpacityCheck::OutOfRange => seq![
                "Opacity '"@ + t + "' out of range (0.0 - 1.0). Using default."@,
            ],
            OpacityCheck::Invalid => seq!["Invalid opacity value '"@ + t + "'. Using default."@],
        },
    }
}

/// The backup limit a setting gives: a whole number that is not negative,
/// else the default of 10.
pub open spec fn count_setting(v: Option<Seq<char>>) -> i32 {
    match v {
        Some(t) => match parse_i32(t) {
            Some(n) => if n >= 0 {
                n
            } else {
                10
            },
            None => 10,
        },
        None => 10,
    }
}

/// The settings a file's entries give, over the defaults (a 700×500
/// window, arguments, favorites and alternating rows shown, sorted by key,
/// the ANSI keyboard, no description column, backups made on every change
/// and not limited, with a limit of 10 when limited),
/// `check` telling how the opacity value read as a number. The messages
/// come in the order opacity, width, height, monitor margin, row padding.
pub open spec fn style_of(m: Map<Seq<char>, Seq<char>>, check: OpacityCheck) -> StyleView {
    let w = size_setting(
        setting(m, "width"@),
        700,
        100,
        ("Width '"@, "' is too small (min 100px). Using default."@),
        ("Invalid width value '"@, "'."@),
    );
    let h = size_setting(
        setting(m, "height"@),
        500,
        100,
        ("Height '"@, "' is too small (min 100px). Using default."@),
        ("Invalid height value '"@, "'."@),
    );
    let mm = size_setting(
        setting(m, "monitorMargin"@),
        12,
        0,
        ("Monitor margin '"@, "' cannot be negative. Using default."@),
        ("Invalid monitorMargin '"@, "'."@),
    );
    let rp = size_setting(
        setting(m, "rowPadding"@),
        2,
        0,
        ("Row padding '"@, "' cannot be negative. Using default."@),
        ("Invalid rowPadding '"@, "'."@),
    );
    StyleView {
        font_size: setting(m, "fontSize"@),
        border_size: setting(m, "borderSize"@),
        border_radius: setting(m, "borderRadius"@),
        width: w.0,
        height: h.0,
        show_submaps: flag_setting(setting(m, "showSubmaps"@), false),
        show_args: flag_setting(setting(m, "showArgs"@), true),
        show_favorites: flag_setting(setting(m, "showFavorites"@), true),
        alternating_row_colors: flag_setting(setting(m, "alternatingRowColors"@), true),
        default_sort: match setting(m, "defaultSort"@) {
            Some(t) => lowercase(t),
            None => "key"@,
        },
        shadow_size: match setting(m, "shadowSize"@) {
            Some(t) => t,
            None => "0 4px 24px rgba(0,0,0,0.4)"@,
        },
        monitor_margin: mm.0,
        row_padding: rp.0,
        keyboard_layout: match setting(m, "keyboardLayout"@) {
            Some(t) => t,
            None => "ANSI"@,
        },
        show_description: flag_setting(setting(m, "showDescription"@), false),
        auto_backup: flag_setting(setting(m, "autoBackup"@), true),
        max_backups_enabled: flag_setting(setting(m, "maxBackupsEnabled"@), false),
        max_backups_count: count_setting(setting(m, "maxBackupsCount"@)),
        errors: opacity_errors(setting(m, "opacity"@), check) + w.1 + h.1 + mm.1 + rp.1,
    }
}

fn get_setting(m: &VarMap, key: &str) -> (r: Option<Vec<char>>)
    ensures
        match r {
            Some(v) => setting(m@, key@) == Some(v@),
            None => setting(m@, key@) is None,
        },
{
    m.get_chars(&chars_of(key))
}

fn wrap(pre: &str, t: &[char], post: &str) -> (r: String)
    ensures
        r@ == pre@ + t@ + post@,
{
    let mut s = chars_of(pre);
    append(&mut s, t);
    append(&mut s, &chars_of(post));
    string_of(&s)
}

fn size_setting_exec(
    v: &Option<Vec<char>>,
    default: i32,
    min: i32,
    too_small: (&str, &str),
    invalid: (&str, &str),
    errors: &mut Vec<String>,
) -> (r: i32)
    ensures
        ({
            let g = size_setting(
                match v {
                    Some(t) => Some(t@),
                    None => None,
                },
                default,
                min as int,
                (too_small.0@, too_small.1@),
                (invalid.0@, invalid.1@),
            );
            &&& r == g.0
            &&& final(errors)@.map_values(|e: String| e@) == old(errors)@.map_values(|e: String| e@) + g.1
        }),
{
    let ghost before = errors@.map_values(|e: String| e@);
    match v {
        None => {
            assert(errors@.map_values(|e: String| e@) =~= before + Seq::<Seq<char>>::empty());
            default
        },
        Some(t) => match parse_pixels(string_of(t).as_str()) {
            Some(n) => if n < min {
                let msg = wrap(too_small.0, t, too_small.1);
                let ghost mv = msg@;
                errors.push(msg);
                assert(errors@.map_values(|e: String| e@) =~= before + seq![mv]);
                default
            } else {
                assert(errors@.map_values(|e: String| e@) =~= before + Seq::<Seq<char>>::empty());
                n
            },
            None => {
                let msg = wrap(invalid.0, t, invalid.1);
                let ghost mv = msg@;
                errors.push(msg);
                assert(errors@.map_values(|e: String| e@) =~= before + seq![mv]);
                default
            },
        },
    }
}

fn opt_string(o: Option<Vec<char>>) -> (r: Option<String>)
    ensures
        opt_view(r) == match o {
            Some(v) => Some(v@),
            None => None::<Seq<char>>,
        },
{
    match o {
        Some(v) => Some(string_of(&v)),
        None => None,
    }
}

fn flag_setting_exec(v: &Option<Vec<char>>, default: bool) -> (r: bool)
    ensures
        r == flag_setting(
            match v {
                Some(t) => Some(t@),
                None => None,
            },
            default,
        ),
{
    match v {
        Some(t) => eq_chars(&lower_chars(t), &chars_of("true")),
        None => default,
    }
}

/// The settings that a settings file's entries give; `opacity` tells how
/// the `opacity` value (if set) read as a number, which the caller checks.
pub fn style_settings(entries: &VarMap, opacity: OpacityCheck) -> (r: StyleSettings)
    ensures
        r@ == style_of(entries@, opacity),
{
    let mut errors: Vec<String> = Vec::new();
    let op = get_setting(entries, "opacity");
    match &op {
        Some(t) => match opacity {
            OpacityCheck::Valid => {},
            OpacityCheck::OutOfRange => {
                errors.push(wrap("Opacity '", t, "' out of range (0.0 - 1.0). Using default."));
            },
            OpacityCheck::Invalid => {
                errors.push(wrap("Invalid opacity value '", t, "'. Using default."));
            },
        },
        None => {},
    }
    assert(errors@.map_values(|e: String| e@) =~= opacity_errors(setting(entries@, "opacity"@), opacity));
    let width = size_setting_exec(
        &get_setting(entries, "width"),
        700,
        100,
        ("Width '", "' is too small (min 100px). Using default."),
        ("Invalid width value '", "'."),
        &mut errors,
    );
    let height = size_setting_exec(
        &get_setting(entries, "height"),
        500,
        100,
        ("Height '", "' is too small (min 100px). Using default."),
        ("Invalid height value '", "'."),
        &mut errors,
    );
    let monitor_margin = size_setting_exec(
        &get_setting(entries, "monitorMargin"),
        12,
        0,
        ("Monitor margin '", "' cannot be negative. Using default."),
        ("Invalid monitorMargin '", "'."),
        &mut errors,
    );
    let row_padding = size_setting_exec(
        &get_setting(entries, "rowPadding"),
        2,
        0,
        ("Row padding '", "' cannot be negative. Using default."),
        ("Invalid rowPadding '", "'."),
        &mut errors,
    );
    let default_sort = match get_setting(entries, "defaultSort") {
        Some(t) => string_of(&lower_chars(&t)),
        None => string_of(&chars_of("key")),
    };
    let shadow_size = match get_setting(entries, "shadowSize") {
        Some(t) => string_of(&t),
        None => string_of(&chars_of("0 4px 24px rgba(0,0,0,0.4)")),
    };
    let keyboard_layout = match get_setting(entries, "keyboardLayout") {
        Some(t) => string_of(&t),
        None => string_of(&chars_of("ANSI")),
    };
    let max_backups_count = match get_setting(entries, "maxBackupsCount") {
        Some(t) => match parse_i32_exec(&t) {
            Some(n) => if n >= 0 {
                n
            } else {
                10
            },
            None => 10,
        },
        None => 10,
    };
    StyleSettings {
        font_size: opt_string(get_setting(entries, "fontSize")),
        border_size: opt_string(get_setting(entries, "borderSize")),
        border_radius: opt_string(get_setting(entries, "borderRadius")),
        width,
        height,
        show_submaps: flag_setting_exec(&get_setting(entries, "showSubmaps"), false),
        show_args: flag_setting_exec(&get_setting(entries, "showArgs"), true),
        show_favorites: flag_setting_exec(&get_setting(entries, "showFavorites"), true),
        alternating_row_colors: flag_setting_exec(&get_setting(entries, "alternatingRowColors"), true),
        default_sort,
        shadow_size,
        monitor_margin,
        row_padding,
        keyboard_layout,
        show_description: flag_setting_exec(&get_setting(entries, "showDescription"), false),
        auto_backup: flag_setting_exec(&get_setting(entries, "autoBackup"), true),
        max_backups_enabled: flag_setting_exec(&get_setting(entries, "maxBackupsEnabled"), false),
        max_backups_count,
        errors,
    }
}

// ---------------------------------------------------------------------------
// Writing the file
// ---------------------------------------------------------------------------

/// How a flag is written.
pub open spec fn bool_text(b: bool) -> Seq<char> {
    if b {
        "true"@
    } else {
        "false"@
    }
}

/// The value written for an optional setting, or its default.
pub open spec fn or_default(o: Option<Seq<char>>, d: Seq<char>) -> Seq<char> {
    match o {
        Some(s) => s,
        None => d,
    }
}

/// A setting as a line of the file: `key = value`.
pub open spec fn setting_line(key: Seq<char>, value: Seq<char>) -> Seq<char> {
    key + " = "@ + value
}

/// The settings saved, as pairs of a name and the text written for it, in
/// the order of the file; the opacity is written as `opacity`.
pub open spec fn style_pairs(s: StyleView, opacity: Seq<char>) -> Seq<(Seq<char>, Seq<char>)> {
    seq![
        ("width"@, int_text(s.width as int) + "px"@),
        ("height"@, int_text(s.height as int) + "px"@),
        ("fontSize"@, or_default(s.font_size, "0.9rem"@)),
        ("borderSize"@, or_default(s.border_size, "1px"@)),
        ("borderRadius"@, or_default(s.border_radius, "12px"@)),
        ("opacity"@, opacity),
        ("showSubmaps"@, bool_text(s.show_submaps)),
        ("showArgs"@, bool_text(s.show_args)),
        ("showFavorites"@, bool_text(s.show_favorites)),
        ("alternatingRowColors"@, bool_text(s.alternating_row_colors)),
        ("defaultSort"@, s.default_sort),
        ("shadowSize"@, s.shadow_size),
        ("keyboardLayout"@, s.keyboard_layout),
        ("showDescription"@, bool_text(s.show_description)),
        ("autoBackup"@, bool_text(s.auto_backup)),
        ("maxBackupsEnabled"@, bool_text(s.max_backups_enabled)),
        ("maxBackupsCount"@, int_text(s.max_backups_count as int)),
        ("monitorMargin"@, int_text(s.monitor_margin as int) + "px"@),
        ("rowPadding"@, int_text(s.row_padding as int) + "px"@),
    ]
}

/// The line of setting `i` of the pairs.
pub open spec fn pair_line(ps: Seq<(Seq<char>, Seq<char>)>, i: int) -> Seq<char> {
    setting_line(ps[i].0, ps[i].1)
}

/// The lines of the saved file: the settings in five commented groups.
pub open spec fn style_lines(s: StyleView, opacity: Seq<char>) -> Seq<Seq<char>> {
    let ps = style_pairs(s, opacity);
    seq![
        "# Window dimensions"@,
        pair_line(ps, 0),
        pair_line(ps, 1),
        seq![],
        "# Appearance"@,
        pair_line(ps, 2),
        pair_line(ps, 3),
        pair_line(ps, 4),
        pair_line(ps, 5),
        seq![],
        "# UI Elements"@,
        pair_line(ps, 6),
        pair_line(ps, 7),
        pair_line(ps, 8),
        pair_line(ps, 9),
        pair_line(ps, 10),
        pair_line(ps, 11),
        pair_line(ps, 12),
        pair_line(ps, 13),
        seq![],
        "# Behavior"@,
        pair_line(ps, 14),
        pair_line(ps, 15),
        pair_line(ps, 16),
        seq![],
        "# Spacing"@,
        pair_line(ps, 17),
        pair_line(ps, 18),
    ]
}

/// The text the settings are saved as: the lines, each ended by a line
/// break.
pub open spec fn style_text(s: StyleView, opacity: Seq<char>) -> Seq<char> {
    join(style_lines(s, opacity), seq!['\n']) + seq!['\n']
}

fn bool_text_exec(b: bool) -> (r: &'static str)
    ensures
        r@ == bool_text(b),
{
    if b {
        "true"
    } else {
        "false"
    }
}

fn opt_or(o: &Option<String>, d: &str) -> (r: Vec<char>)
    ensures
        r@ == or_default(opt_view(*o), d@),
{
    match o {
        Some(s) => chars_of(s.as_str()),
        None => chars_of(d),
    }
}

/// The line `key = value`.
fn setting_line_exec(key: &str, value: &[char]) -> (r: Vec<char>)
    ensures
        r@ == setting_line(key@, value@),
{
    let mut out = chars_of(key);
    append(&mut out, &chars_of(" = "));
    append(&mut out, value);
    out
}

/// A number of pixels as written: the number and `px`.
fn pixels_text(n: i32) -> (r: Vec<char>)
    ensures
        r@ == int_text(n as int) + "px"@,
{
    let mut out = int_to_text(n);
    append(&mut out, &chars_of("px"));
    out
}

/// The text that saving the settings writes; `opacity` is how the opacity
/// (or its default) is written.
pub fn style_file_text(s: &StyleSettings, opacity: &str) -> (r: String)
    ensures
        r@ == style_text(s@, opacity@),
{
    let mut ls: Vec<Vec<char>> = Vec::new();
    ls.push(chars_of("# Window dimensions"));
    ls.push(setting_line_exec("width", &pixels_text(s.width)));
    ls.push(setting_line_exec("height", &pixels_text(s.height)));
    ls.push(Vec::new());
    ls.push(chars_of("# Appearance"));
    ls.push(setting_line_exec("fontSize", &opt_or(&s.font_size, "0.9rem")));
    ls.push(setting_line_exec("borderSize", &opt_or(&s.border_size, "1px")));
    ls.push(setting_line_exec("borderRadius", &opt_or(&s.border_radius, "12px")));
    ls.push(setting_line_exec("opacity", &chars_of(opacity)));
    ls.push(Vec::new());
    ls.push(chars_of("# UI Elements"));
    ls.push(setting_line_exec("showSubmaps", &chars_of(bool_text_exec(s.show_submaps))));
    ls.push(setting_line_exec("showArgs", &chars_of(bool_text_exec(s.show_args))));
    ls.push(setting_line_exec("showFavorites", &chars_of(bool_text_exec(s.show_favorites))));
    ls.push(setting_line_exec("alternatingRowColors", &chars_of(bool_text_exec(s.alternating_row_colors))));
    ls.push(setting_line_exec("defaultSort", &chars_of(s.default_sort.as_str())));
    ls.push(setting_line_exec("shadowSize", &chars_of(s.shadow_size.as_str())));
    ls.push(setting_line_exec("keyboardLayout", &chars_of(s.keyboard_layout.as_str())));
    ls.push(setting_line_exec("showDescription", &chars_of(bool_text_exec(s.show_description))));
    ls.push(Vec::new());
    ls.push(chars_of("# Behavior"));
    ls.push(setting_line_exec("autoBackup", &chars_of(bool_text_exec(s.auto_backup))));
    ls.push(setting_line_exec("maxBackupsEnabled", &chars_of(bool_text_exec(s.max_backups_enabled))));
    ls.push(setting_line_exec("maxBackupsCount", &int_to_text(s.max_backups_count)));
    ls.push(Vec::new());
    ls.push(chars_of("# Spacing"));
    ls.push(setting_line_exec("monitorMargin", &pixels_text(s.monitor_margin)));
    ls.push(setting_line_exec("rowPadding", &pixels_text(s.row_padding)));
    assert(views(ls@) =~= style_lines(s@, opacity@));
    let nl = vec!['\n'];
    assert(nl@ == seq!['\n']);
    let mut out = join_exec(&ls, &nl);
    out.push('\n');
    string_of(&out)
}

} // verus!
