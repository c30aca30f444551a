//! The settings of the keybind overlay (HUD): whether it is shown, where,
//! and which keybinds it lists, kept as `key=value` and `a|b|c|d` lines.
use crate::text::{append, chars_of, eq_chars, find_char, find_char_exec, lines, lines_exec, slice, starts_with, starts_with_exec, string_of, trim, trim_chars, views};
use vstd::prelude::*;

verus! {

broadcast use vstd::string::group_string_axioms;

/// A keybind that the overlay lists.
pub struct HudKeybind {
    pub mods: String,
    pub key: String,
    pub dispatcher: String,
    pub args: String,
}

/// A listed keybind as plain values.
pub ghost struct HudKeybindView {
    pub mods: Seq<char>,
    pub key: Seq<char>,
    pub dispatcher: Seq<char>,
    pub args: Seq<char>,
}

impl View for HudKeybind {
    type V = HudKeybindView;

    open spec fn view(&self) -> HudKeybindView {
        HudKeybindView { mods: self.mods@, key: self.key@, dispatcher: self.dispatcher@, args: self.args@ }
    }
}

impl HudKeybind {
    /// A listed keybind with these fields.
    pub fn new(mods: &str, key: &str, dispatcher: &str, args: &str) -> (r: HudKeybind)
        ensures
            r@ == (HudKeybindView { mods: mods@, key: key@, dispatcher: dispatcher@, args: args@ }),
    {
        HudKeybind {
            mods: string_of(&chars_of(mods)),
            key: string_of(&chars_of(key)),
            dispatcher: string_of(&chars_of(dispatcher)),
            args: string_of(&chars_of(args)),
        }
    }
}

/// The corner of the screen the overlay sits in.
#[derive(Clone, Copy, Debug, PartialEq, Eq, Structural)]
pub enum HudPosition {
    TopRight,
    TopLeft,
    BottomRight,
    BottomLeft,
}

/// The position a setting names: `top-left`, `bottom-right` or
/// `bottom-left`; anything else is the top right.
pub open spec fn position_of(s: Seq<char>) -> HudPosition {
    if s == "top-left"@ {
        HudPosition::TopLeft
    } else if s == "bottom-right"@ {
        HudPosition::BottomRight
    } else if s == "bottom-left"@ {
        HudPosition::BottomLeft
    } else {
        HudPosition::TopRight
    }
}

/// The name of a position.
pub open spec fn position_name(p: HudPosition) -> Seq<char> {
    match p {
        HudPosition::TopRight => "top-right"@,
        HudPosition::TopLeft => "top-left"@,
        HudPosition::BottomRight => "bottom-right"@,
        HudPosition::BottomLeft => "bottom-left"@,
    }
}

impl Default for HudPosition {
    fn default() -> (r: HudPosition)
        ensures
            r == HudPosition::TopRight,
    {
        HudPosition::TopRight
    }
}

impl HudPosition {
    /// The position a setting names.
    pub fn from_str(s: &str) -> (r: HudPosition)
        ensures
            r == position_of(s@),
    {
        let c = chars_of(s);
        if eq_chars(&c, &chars_of("top-left")) {
            HudPosition::TopLeft
        } else if eq_chars(&c, &chars_of("bottom-right")) {
            HudPosition::BottomRight
        } else if eq_chars(&c, &chars_of("bottom-left")) {
            HudPosition::BottomLeft
        } else {
            HudPosition::TopRight
        }
    }

    /// The name of the position.
    pub fn to_str(self) -> (r: &'static str)
        ensures
            r@ == position_name(self),
    {
        match self {
            HudPosition::TopRight => "top-right",
            HudPosition::TopLeft => "top-left",
            HudPosition::BottomRight => "bottom-right",
            HudPosition::BottomLeft => "bottom-left",
        }
    }
}

/// Reading a position's name gives the position back.
pub proof fn lemma_position_round_trip(p: HudPosition)
    ensures
        position_of(position_name(p)) == p,
{
    reveal_strlit("top-right");
    reveal_strlit("top-left");
    reveal_strlit("bottom-right");
    reveal_strlit("bottom-left");
    assert("top-right"@ != "top-left"@) by {
        assert("top-right"@[4] != "top-left"@[4]);
    }
    assert("top-right"@.len() != "bottom-right"@.len());
    assert("top-right"@.len() != "bottom-left"@.len());
    assert("top-left"@.len() != "bottom-right"@.len());
    assert("top-left"@ != "bottom-left"@) by {
        assert("top-left"@[0] != "bottom-left"@[0]);
    }
    assert("bottom-right"@.len() != "bottom-left"@.len());
}

/// The screen edges the overlay is anchored to.
#[derive(Clone, Copy, Debug, PartialEq, Eq, Structural)]
pub struct Anchors {
    pub top: bool,
    pub bottom: bool,
    pub left: bool,
    pub right: bool,
}

impl HudPosition {
    /// The two edges of the position's corner: one of top and bottom, one
    /// of left and right.
    pub fn anchors(self) -> (r: Anchors)
        ensures
            r.top == (self == HudPosition::TopRight || self == HudPosition::TopLeft),
            r.bottom == !r.top,
            r.left == (self == HudPosition::TopLeft || self == HudPosition::BottomLeft),
            r.right == !r.left,
    {
        match self {
            HudPosition::TopRight => Anchors { top: true, bottom: false, left: false, right: true },
            HudPosition::TopLeft => Anchors { top: true, bottom: false, left: true, right: false },
            HudPosition::BottomRight => Anchors { top: false, bottom: true, left: false, right: true },
            HudPosition::BottomLeft => Anchors { top: false, bottom: true, left: true, right: false },
        }
    }
}

/// How a listed keybind's keys are shown: the key alone without
/// modifiers, else `mods + key`.
pub open spec fn hud_keys_text(kb: HudKeybindView) -> Seq<char> {
    if kb.mods.len() == 0 {
        kb.key
    } else {
        kb.mods + " + "@ + kb.key
    }
}

/// The keys of a listed keybind as the overlay shows them.
pub fn hud_key_text(kb: &HudKeybind) -> (r: String)
    ensures
        r@ == hud_keys_text(kb@),
{
    let m = chars_of(kb.mods.as_str());
    if m.len() == 0 {
        kb.key.clone()
    } else {
        let mut out = m;
        append(&mut out, &chars_of(" + "));
        append(&mut out, &chars_of(kb.key.as_str()));
        string_of(&out)
    }
}

/// The process number recorded by a running overlay: the file's trimmed
/// text read as a number.
pub fn recorded_pid(content: &str) -> (r: Option<i32>)
    ensures
        r == crate::numbers::parse_i32(trim(content@)),
{
    crate::numbers::parse_i32_exec(&trim_chars(&chars_of(content)))
}

/// The overlay's settings.
pub struct HudConfig {
    pub enabled: bool,
    pub position: HudPosition,
    pub keybinds: Vec<HudKeybind>,
}

/// The overlay's settings as plain values.
pub ghost struct HudConfigView {
    pub enabled: bool,
    pub position: HudPosition,
    pub keybinds: Seq<HudKeybindView>,
}

/// The listed keybinds of `v`, as plain values.
pub open spec fn hud_keybind_views(v: Seq<HudKeybind>) -> Seq<HudKeybindView> {
    v.map_values(|k: HudKeybind| k@)
}

impl View for HudConfig {
    type V = HudConfigView;

    open spec fn view(&self) -> HudConfigView {
        HudConfigView {
            enabled: self.enabled,
            position: self.position,
            keybinds: hud_keybind_views(self.keybinds@),
        }
    }
}

impl Default for HudConfig {
    fn default() -> (r: HudConfig)
        ensures
            r@ == (HudConfigView { enabled: false, position: HudPosition::TopRight, keybinds: seq![] }),
    {
        let r = HudConfig { enabled: false, position: HudPosition::TopRight, keybinds: Vec::new() };
        assert(hud_keybind_views(r.keybinds@) =~= Seq::<HudKeybindView>::empty());
        r
    }
}

/// The four `|`-separated fields of a keybind line (the last one keeps any
/// further `|`), if the line has three `|`.
pub open spec fn hud_fields(t: Seq<char>) -> Option<HudKeybindView> {
    match find_char(t, '|') {
        Some(a) => {
            let r1 = t.skip(a + 1);
            match find_char(r1, '|') {
                Some(b) => {
                    let r2 = r1.skip(b + 1);
                    match find_char(r2, '|') {
                        Some(c) => Some(
                            HudKeybindView {
                                mods: t.take(a),
                                key: r1.take(b),
                                dispatcher: r2.take(c),
                                args: r2.skip(c + 1),
                            },
                        ),
                        None => None,
                    }
                },
                None => None,
            }
        },
        None => None,
    }
}

/// The settings after reading one line: `enabled=…` (on only for `true`),
/// `position=…`, or a keybind `mods|key|dispatcher|args`; other lines are
/// passed over. Lines are trimmed first.
pub open spec fn hud_apply_line(c: HudConfigView, line: Seq<char>) -> HudConfigView {
    let t = trim(line);
    if t.len() == 0 {
        c
    } else if starts_with(t, "enabled="@) {
        HudConfigView { enabled: t.skip("enabled="@.len() as int) == "true"@, ..c }
    } else if starts_with(t, "position="@) {
        HudConfigView { position: position_of(t.skip("position="@.len() as int)), ..c }
    } else {
        match hud_fields(t) {
            Some(k) => HudConfigView { keybinds: c.keybinds.push(k), ..c },
            None => c,
        }
    }
}

/// The settings that lines give, starting from the defaults.
pub open spec fn hud_read(ls: Seq<Seq<char>>) -> HudConfigView
    decreases ls.len(),
{
    if ls.len() == 0 {
        HudConfigView { enabled: false, position: HudPosition::TopRight, keybinds: seq![] }
    } else {
        hud_apply_line(hud_read(ls.drop_last()), ls.last())
    }
}

fn hud_fields_exec(t: &[char]) -> (r: Option<HudKeybind>)
    ensures
        match r {
            Some(k) => hud_fields(t@) == Some(k@),
            None => hud_fields(t@) is None,
        },
{
    let a = match find_char_exec(t, '|') {
        Some(a) => a,
        None => return None,
    };
    proof {
        crate::text::lemma_find_from(t@, seq!['|'], 0);
        assert(crate::text::occurs_at(t@, seq!['|'], a as int));
    }
    assert(a < t.len());
    let r1 = slice(t, a + 1, t.len());
    assert(r1@ == t@.skip(a + 1));
    let b = match find_char_exec(&r1, '|') {
        Some(b) => b,
        None => return None,
    };
    proof {
        crate::text::lemma_find_from(r1@, seq!['|'], 0);
        assert(crate::text::occurs_at(r1@, seq!['|'], b as int));
    }
    assert(b < r1.len());
    let r2 = slice(&r1, b + 1, r1.len());
    assert(r2@ == r1@.skip(b + 1));
    let c = match find_char_exec(&r2, '|') {
        Some(c) => c,
        None => return None,
    };
    proof {
        crate::text::lemma_find_from(r2@, seq!['|'], 0);
        assert(crate::text::occurs_at(r2@, seq!['|'], c as int));
    }
    assert(c < r2.len());
    let mods = slice(t, 0, a);
    let key = slice(&r1, 0, b);
    let disp = slice(&r2, 0, c);
    let args = slice(&r2, c + 1, r2.len());
    assert(mods@ == t@.take(a as int));
    assert(key@ == r1@.take(b as int));
    assert(disp@ == r2@.take(c as int));
    assert(args@ == r2@.skip(c + 1));
    Some(
        HudKeybind {
            mods: string_of(&mods),
            key: string_of(&key),
            dispatcher: string_of(&disp),
            args: string_of(&args),
        },
    )
}

/// Reads the overlay's settings from the text of their file.
pub fn parse_hud_config(content: &str) -> (r: HudConfig)
    ensures
        r@ == hud_read(lines(content@)),
{
    let ls = lines_exec(&chars_of(content));
    let mut c = HudConfig { enabled: false, position: HudPosition::TopRight, keybinds: Vec::new() };
    let mut i: usize = 0;
    assert(hud_keybind_views(c.keybinds@) =~= Seq::<HudKeybindView>::empty());
    assert(views(ls@).take(0) =~= Seq::<Seq<char>>::empty());
    while i < ls.len()
        invariant
            i <= ls@.len(),
            views(ls@) == lines(content@),
            c@ == hud_read(views(ls@).take(i as int)),
        decreases ls@.len() - i,
    {
        assert(views(ls@).take(i + 1).drop_last() == views(ls@).take(i as int));
        assert(views(ls@).take(i + 1).last() == ls@[i as int]@);
        let t = trim_chars(&ls[i]);
        let en = chars_of("enabled=");
        let po = chars_of("position=");
        if t.len() == 0 {
        } else if starts_with_exec(&t, &en) {
            let v = slice(&t, en.len(), t.len());
            assert(v@ == t@.skip(en@.len() as int));
            c.enabled = eq_chars(&v, &chars_of("true"));
        } else if starts_with_exec(&t, &po) {
            let v = slice(&t, po.len(), t.len());
            assert(v@ == t@.skip(po@.len() as int));
            c.position = HudPosition::from_str(string_of(&v).as_str());
        } else {
            match hud_fields_exec(&t) {
                Some(k) => {
                    let ghost before = c.keybinds@;
                    c.keybinds.push(k);
                    assert(hud_keybind_views(c.keybinds@) =~= hud_keybind_views(before).push(k@));
                },
                None => {},
            }
        }
        i = i + 1;
    }
    assert(views(ls@).take(ls@.len() as int) == views(ls@));
    c
}

/// The line a listed keybind is written as.
pub open spec fn hud_line(k: HudKeybindView) -> Seq<char> {
    k.mods + seq!['|'] + k.key + seq!['|'] + k.dispatcher + seq!['|'] + k.args
}

/// The lines of the keybinds, each ended by a newline.
pub open spec fn hud_lines_text(ks: Seq<HudKeybindView>) -> Seq<char>
    decreases ks.len(),
{
    if ks.len() == 0 {
        seq![]
    } else {
        hud_lines_text(ks.drop_last()) + hud_line(ks.last()) + seq!['\n']
    }
}

/// The text the overlay's settings are saved as.
pub open spec fn hud_text(c: HudConfigView) -> Seq<char> {
    "enabled="@ + (if c.enabled {
        "true"@
    } else {
        "false"@
    }) + seq!['\n'] + "position="@ + position_name(c.position) + seq!['\n'] + hud_lines_text(c.keybinds)
}

/// The text that saving the overlay's settings writes.
pub fn serialize_hud_config(config: &HudConfig) -> (r: String)
    ensures
        r@ == hud_text(config@),
{
    proof {
        reveal_strlit("|");
        reveal_strlit("\n");
    }
    let mut out = chars_of("enabled=");
    append(&mut out, &chars_of(if config.enabled { "true" } else { "false" }));
    append(&mut out, &chars_of("\n"));
    append(&mut out, &chars_of("position="));
    append(&mut out, &chars_of(config.position.to_str()));
    append(&mut out, &chars_of("\n"));
    let ghost head = out@;
    let mut i: usize = 0;
    assert(hud_keybind_views(config.keybinds@).take(0) =~= Seq::<HudKeybindView>::empty());
    while i < config.keybinds.len()
        invariant
            i <= config.keybinds@.len(),
            out@ == head + hud_lines_text(hud_keybind_views(config.keybinds@).take(i as int)),
        decreases config.keybinds@.len() - i,
    {
        proof {
            reveal_strlit("|");
            reveal_strlit("\n");
        }
        let k = &config.keybinds[i];
        let ghost ks = hud_keybind_views(config.keybinds@);
        assert(ks.take(i + 1).drop_last() == ks.take(i as int));
        assert(ks.take(i + 1).last() == k@);
        append(&mut out, &chars_of(k.mods.as_str()));
        append(&mut out, &chars_of("|"));
        append(&mut out, &chars_of(k.key.as_str()));
        append(&mut out, &chars_of("|"));
        append(&mut out, &chars_of(k.dispatcher.as_str()));
        append(&mut out, &chars_of("|"));
        append(&mut out, &chars_of(k.args.as_str()));
        append(&mut out, &chars_of("\n"));
        assert(out@ =~= head + hud_lines_text(ks.take(i + 1)));
        i = i + 1;
    }
    assert(hud_keybind_views(config.keybinds@).take(config.keybinds@.len() as int)
        == hud_keybind_views(config.keybinds@));
    string_of(&out)
}


// ---------------------------------------------------------------------------
// Reading back what was written
// ---------------------------------------------------------------------------

/// A listed keybind that its line gives back: no `|` in the first three
/// fields, no line break anywhere, no whitespace at either end of the line,
/// and a line that does not read as a setting.
pub open spec fn hud_keybind_writable(k: HudKeybindView) -> bool {
    &&& !k.mods.contains('|')
    &&& !k.key.contains('|')
    &&& !k.dispatcher.contains('|')
    &&& !hud_line(k).contains('\n')
    &&& trim(hud_line(k)) == hud_line(k)
    &&& !starts_with(hud_line(k), "enabled="@)
    &&& !starts_with(hud_line(k), "position="@)
}

proof fn lemma_hud_text_cons(ks: Seq<HudKeybindView>)
    requires
        ks.len() > 0,
    ensures
        hud_lines_text(ks) == hud_line(ks[0]) + seq!['\n'] + hud_lines_text(ks.drop_first()),
    decreases ks.len(),
{
    if ks.len() == 1 {
        assert(ks.drop_last() =~= Seq::<HudKeybindView>::empty());
        assert(ks.drop_first() =~= Seq::<HudKeybindView>::empty());
        assert(hud_lines_text(ks.drop_first()) =~= Seq::<char>::empty());
        assert(hud_lines_text(ks) =~= hud_line(ks[0]) + seq!['\n']);
    } else {
        let dl = ks.drop_last();
        lemma_hud_text_cons(dl);
        assert(dl.drop_first() =~= ks.drop_first().drop_last());
        assert(ks.drop_first().last() == ks.last());
        assert(dl[0] == ks[0]);
        assert(hud_lines_text(ks) =~= hud_line(ks[0]) + seq!['\n'] + hud_lines_text(ks.drop_first()));
    }
}

/// The lines of the written keybinds are the keybinds' lines.
proof fn lemma_hud_lines(ks: Seq<HudKeybindView>)
    requires
        forall|i: int| 0 <= i < ks.len() ==> hud_keybind_writable(#[trigger] ks[i]),
    ensures
        lines(hud_lines_text(ks)) == ks.map_values(|k: HudKeybindView| hud_line(k)),
    decreases ks.len(),
{
    if ks.len() == 0 {
        assert(lines(seq![]) =~= Seq::<Seq<char>>::empty());
        assert(ks.map_values(|k: HudKeybindView| hud_line(k)) =~= Seq::<Seq<char>>::empty());
    } else {
        lemma_hud_text_cons(ks);
        let l = hud_line(ks[0]);
        assert(hud_keybind_writable(ks[0]));
        lemma_hud_lines(ks.drop_first());
        crate::text::lemma_lines_cons(l, hud_lines_text(ks.drop_first()));
        assert(l.len() > 0) by {
            assert(l[ks[0].mods.len() as int] == '|');
        }
        crate::text::lemma_trimmed_ends(l);
        assert(crate::text::strip_cr(l) == l);
        assert(ks.map_values(|k: HudKeybindView| hud_line(k)) =~= seq![l] + ks.drop_first().map_values(
            |k: HudKeybindView| hud_line(k),
        ));
    }
}

/// The fields of a written keybind line are the keybind.
proof fn lemma_hud_fields(k: HudKeybindView)
    requires
        hud_keybind_writable(k),
    ensures
        hud_fields(hud_line(k)) == Some(k),
{
    let t = hud_line(k);
    let a = k.mods.len() as int;
    assert forall|m: int| 0 <= m < a implies !crate::text::occurs_at(t, seq!['|'], m) by {
        if crate::text::occurs_at(t, seq!['|'], m) {
            assert(t.subrange(m, m + 1)[0] == t[m]);
            assert(k.mods[m] == '|');
        }
    }
    assert(crate::text::occurs_at(t, seq!['|'], a)) by {
        assert(t.subrange(a, a + 1) =~= seq!['|']);
    }
    crate::text::lemma_find_first(t, seq!['|'], 0, a);
    let r1 = t.skip(a + 1);
    assert(r1 =~= k.key + seq!['|'] + k.dispatcher + seq!['|'] + k.args);
    let b = k.key.len() as int;
    assert forall|m: int| 0 <= m < b implies !crate::text::occurs_at(r1, seq!['|'], m) by {
        if crate::text::occurs_at(r1, seq!['|'], m) {
            assert(r1.subrange(m, m + 1)[0] == r1[m]);
            assert(k.key[m] == '|');
        }
    }
    assert(crate::text::occurs_at(r1, seq!['|'], b)) by {
        assert(r1.subrange(b, b + 1) =~= seq!['|']);
    }
    crate::text::lemma_find_first(r1, seq!['|'], 0, b);
    let r2 = r1.skip(b + 1);
    assert(r2 =~= k.dispatcher + seq!['|'] + k.args);
    let c = k.dispatcher.len() as int;
    assert forall|m: int| 0 <= m < c implies !crate::text::occurs_at(r2, seq!['|'], m) by {
        if crate::text::occurs_at(r2, seq!['|'], m) {
            assert(r2.subrange(m, m + 1)[0] == r2[m]);
            assert(k.dispatcher[m] == '|');
        }
    }
    assert(crate::text::occurs_at(r2, seq!['|'], c)) by {
        assert(r2.subrange(c, c + 1) =~= seq!['|']);
    }
    crate::text::lemma_find_first(r2, seq!['|'], 0, c);
    assert(t.take(a) =~= k.mods);
    assert(r1.take(b) =~= k.key);
    assert(r2.take(c) =~= k.dispatcher);
    assert(r2.skip(c + 1) =~= k.args);
}

/// A setting line written for the flag reads back as the flag.
proof fn lemma_hud_header(c: HudConfigView)
    ensures
        ({
            let h1 = "enabled="@ + (if c.enabled {
                "true"@
            } else {
                "false"@
            });
            let h2 = "position="@ + position_name(c.position);
            &&& !h1.contains('\n')
            &&& !h2.contains('\n')
            &&& crate::text::strip_cr(h1) == h1
            &&& crate::text::strip_cr(h2) == h2
            &&& hud_apply_line(hud_apply_line(hud_read(seq![]), h1), h2) == (HudConfigView {
                enabled: c.enabled,
                position: c.position,
                keybinds: seq![],
            })
        }),
{
    reveal_strlit("enabled=");
    reveal_strlit("true");
    reveal_strlit("false");
    reveal_strlit("position=");
    reveal_strlit("top-right");
    reveal_strlit("top-left");
    reveal_strlit("bottom-right");
    reveal_strlit("bottom-left");
    lemma_position_round_trip(c.position);
    let h1 = "enabled="@ + (if c.enabled {
        "true"@
    } else {
        "false"@
    });
    let h2 = "position="@ + position_name(c.position);
    lemma_trim_literal(h1);
    lemma_trim_literal(h2);
    assert(starts_with(h1, "enabled="@)) by {
        assert(h1.take(8) =~= "enabled="@);
    }
    assert(h1.skip(8) =~= (if c.enabled {
        "true"@
    } else {
        "false"@
    }));
    if !c.enabled {
        assert("false"@ != "true"@) by {
            assert("false"@.len() != "true"@.len());
        }
    }
    assert(!starts_with(h2, "enabled="@)) by {
        assert(h2[0] != "enabled="@[0]);
    }
    assert(starts_with(h2, "position="@)) by {
        assert(h2.take(9) =~= "position="@);
    }
    assert(h2.skip(9) =~= position_name(c.position));
    assert(!h1.contains('\n')) by {
        if h1.contains('\n') {
            let i = choose|i: int| 0 <= i < h1.len() && h1[i] == '\n';
        }
    }
    assert(!h2.contains('\n')) by {
        if h2.contains('\n') {
            let i = choose|i: int| 0 <= i < h2.len() && h2[i] == '\n';
        }
    }
}

/// A text made of non-space letters and punctuation is its own trim.
proof fn lemma_trim_literal(s: Seq<char>)
    requires
        s.len() > 0,
        forall|i: int| 0 <= i < s.len() ==> (#[trigger] s[i] as u32) > 0x20 && (s[i] as u32) < 0x7f,
    ensures
        trim(s) == s,
        crate::text::strip_cr(s) == s,
{
    assert(crate::text::lead_from(s, 0) == 0);
    assert(crate::text::trail_down(s, s.len() as int, 0) == s.len());
    assert(s.subrange(0, s.len() as int) =~= s);
}

/// Reading the saved text of the overlay's settings gives the settings back,
/// when every listed keybind can be written as a line.
pub proof fn lemma_hud_round_trip(c: HudConfigView)
    requires
        forall|i: int| 0 <= i < c.keybinds.len() ==> hud_keybind_writable(#[trigger] c.keybinds[i]),
    ensures
        hud_read(lines(hud_text(c))) == c,
{
    lemma_hud_header(c);
    let h1 = "enabled="@ + (if c.enabled {
        "true"@
    } else {
        "false"@
    });
    let h2 = "position="@ + position_name(c.position);
    let rest = hud_lines_text(c.keybinds);
    assert(hud_text(c) =~= h1 + seq!['\n'] + (h2 + seq!['\n'] + rest));
    crate::text::lemma_lines_cons(h1, h2 + seq!['\n'] + rest);
    crate::text::lemma_lines_cons(h2, rest);
    lemma_hud_lines(c.keybinds);
    let ls = seq![h1, h2] + c.keybinds.map_values(|k: HudKeybindView| hud_line(k));
    assert(lines(hud_text(c)) =~= ls);
    lemma_hud_read_lines(c, c.keybinds.len() as int);
    assert(c.keybinds.take(c.keybinds.len() as int) =~= c.keybinds);
    assert(ls.take(ls.len() as int) =~= ls);
}

proof fn lemma_hud_read_lines(c: HudConfigView, n: int)
    requires
        0 <= n <= c.keybinds.len(),
        forall|i: int| 0 <= i < c.keybinds.len() ==> hud_keybind_writable(#[trigger] c.keybinds[i]),
    ensures
        ({
            let h1 = "enabled="@ + (if c.enabled {
                "true"@
            } else {
                "false"@
            });
            let h2 = "position="@ + position_name(c.position);
            hud_read(seq![h1, h2] + c.keybinds.take(n).map_values(|k: HudKeybindView| hud_line(k)))
                == (HudConfigView { enabled: c.enabled, position: c.position, keybinds: c.keybinds.take(n) })
        }),
    decreases n,
{
    lemma_hud_header(c);
    let h1 = "enabled="@ + (if c.enabled {
        "true"@
    } else {
        "false"@
    });
    let h2 = "position="@ + position_name(c.position);
    let xs = seq![h1, h2] + c.keybinds.take(n).map_values(|k: HudKeybindView| hud_line(k));
    if n == 0 {
        assert(c.keybinds.take(0) =~= Seq::<HudKeybindView>::empty());
        assert(c.keybinds.take(0).map_values(|k: HudKeybindView| hud_line(k)) =~= Seq::<Seq<char>>::empty());
        assert(xs =~= seq![h1, h2]);
        assert(xs.drop_last() =~= seq![h1]);
        assert(seq![h1].drop_last() =~= Seq::<Seq<char>>::empty());
        assert(hud_read(seq![h1]) == hud_apply_line(hud_read(seq![]), h1));
        assert(hud_read(xs) == hud_apply_line(hud_read(seq![h1]), h2));
    } else {
        lemma_hud_read_lines(c, n - 1);
        let k = c.keybinds[n - 1];
        assert(hud_keybind_writable(k));
        assert(xs.drop_last() =~= seq![h1, h2] + c.keybinds.take(n - 1).map_values(
            |k: HudKeybindView| hud_line(k),
        ));
        assert(xs.last() == hud_line(k));
        lemma_hud_fields(k);
        let l = hud_line(k);
        assert(l.len() > 0) by {
            assert(l[k.mods.len() as int] == '|');
        }
        assert(c.keybinds.take(n) =~= c.keybinds.take(n - 1).push(k));
        assert(hud_read(xs) == hud_apply_line(hud_read(xs.drop_last()), l));
        assert(trim(l) == l);
        assert(!starts_with(l, "enabled="@));
        assert(!starts_with(l, "position="@));
        assert(hud_fields(l) == Some(k));
    }
}

} // verus!
