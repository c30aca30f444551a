//! What reading a saved settings file gives back.
use crate::text::{
    ends_with, find_char, is_ws, join, lemma_find_first, lemma_join_cons, lemma_lines_cons, lemma_trim_after_space,
    lemma_trim_fixed, lemma_trim_pad, lemma_trimmed_ends, lines, occurs_at, starts_with, strip_cr, trim, lowercase,
};
use crate::numbers::{int_text, is_digit, lemma_int_text_chars, lemma_int_text_round_trip};
use crate::style::{
    bool_text, ini_from, ini_line, or_default, pixels, setting, setting_line, size_setting, strip_suffixes,
    style_lines, style_of, style_pairs, style_text, OpacityCheck, StyleView,
};
use vstd::prelude::*;

verus! {

/// A value that is written and read as it is: no whitespace around it and
/// no line break in it.
pub open spec fn clean_value(v: Seq<char>) -> bool {
    &&& trim(v) == v
    &&& !v.contains('\n')
}

/// A setting name made of ASCII letters.
pub open spec fn letter_name(k: Seq<char>) -> bool {
    &&& k.len() > 0
    &&& forall|i: int| 0 <= i < k.len() ==> is_letter(#[trigger] k[i])
}

/// An ASCII letter.
pub open spec fn is_letter(c: char) -> bool {
    ('a' <= c && c <= 'z') || ('A' <= c && c <= 'Z')
}

/// A line that `str::lines` gives back as it is.
pub open spec fn clean_line(l: Seq<char>) -> bool {
    &&& !l.contains('\n')
    &&& strip_cr(l) == l
}

/// Each line ended by a line break reads back as the same lines.
pub proof fn lemma_lines_of_ended_join(ls: Seq<Seq<char>>)
    requires
        ls.len() > 0,
        forall|i: int| 0 <= i < ls.len() ==> clean_line(#[trigger] ls[i]),
    ensures
        lines(join(ls, seq!['\n']) + seq!['\n']) == ls,
    decreases ls.len(),
{
    let nl = seq!['\n'];
    let x = ls[0];
    assert(clean_line(ls[0]));
    if ls.len() == 1 {
        assert(join(ls, nl) == x);
        lemma_lines_cons(x, Seq::<char>::empty());
        assert(x + nl + Seq::<char>::empty() =~= x + nl);
        assert(lines(Seq::<char>::empty()) =~= Seq::<Seq<char>>::empty());
        assert(ls =~= seq![x]);
    } else {
        let rest = ls.drop_first();
        assert(ls =~= seq![x] + rest);
        lemma_join_cons(x, rest, nl);
        assert forall|i: int| 0 <= i < rest.len() implies clean_line(#[trigger] rest[i]) by {
            assert(rest[i] == ls[i + 1]);
        }
        lemma_lines_of_ended_join(rest);
        assert(join(ls, nl) + nl =~= x + nl + (join(rest, nl) + nl));
        lemma_lines_cons(x, join(rest, nl) + nl);
    }
}

/// A `key = value` line sets the key to the value, and is a clean line.
pub proof fn lemma_setting_line_read(m: Map<Seq<char>, Seq<char>>, k: Seq<char>, v: Seq<char>)
    requires
        letter_name(k),
        clean_value(v),
    ensures
        ini_line(m, setting_line(k, v)) == m.insert(k, v),
        clean_line(setting_line(k, v)),
{
    reveal_strlit(" = ");
    let l = setting_line(k, v);
    let n = k.len() as int;
    let e = Seq::<char>::empty();
    assert(is_letter(k[0]));
    assert(is_letter(k[n - 1]));
    assert(l[0] == k[0]);
    assert(l[n] == ' ' && l[n + 1] == '=' && l[n + 2] == ' ');
    if v.len() > 0 {
        lemma_trimmed_ends(v);
        assert(l.last() == v.last());
        assert(l =~= e + l + e);
        lemma_trim_pad(e, l, e);
    } else {
        let u = k + seq![' ', '='];
        assert(u[0] == k[0]);
        assert(u.last() == '=');
        assert(l =~= e + u + seq![' ']);
        lemma_trim_pad(e, u, seq![' ']);
    }
    let t = trim(l);
    assert(t.len() >= n + 2);
    assert forall|j: int| 0 <= j < n implies t[j] == k[j] by {}
    assert(t[n] == ' ' && t[n + 1] == '=');
    assert(t.len() > 0);
    assert(!starts_with(t, seq!['#'])) by {
        if starts_with(t, seq!['#']) {
            assert(t.take(1)[0] == t[0]);
            assert(is_letter(t[0]));
        }
    }
    assert(occurs_at(t, seq!['='], n + 1)) by {
        assert(t.subrange(n + 1, n + 2) =~= seq!['=']);
    }
    assert forall|j: int| 0 <= j < n + 1 implies !occurs_at(t, seq!['='], j) by {
        if occurs_at(t, seq!['='], j) {
            assert(t.subrange(j, j + 1)[0] == t[j]);
            if j < n {
                assert(is_letter(k[j]));
            }
        }
    }
    lemma_find_first(t, seq!['='], 0, n + 1);
    assert(find_char(t, '=') == Some(n + 1));
    assert(t.take(n + 1) =~= e + k + seq![' ']);
    assert(!is_ws(k[0]) && !is_ws(k.last())) by {
        assert(is_letter(k.last()));
    }
    lemma_trim_pad(e, k, seq![' ']);
    if v.len() > 0 {
        assert(t.skip(n + 2) =~= seq![' '] + v);
        lemma_trim_after_space(v);
    } else {
        assert(t.skip(n + 2) =~= e);
        lemma_trim_fixed(e);
    }
    assert(!l.contains('\n')) by {
        if l.contains('\n') {
            let j = choose|j: int| 0 <= j < l.len() && l[j] == '\n';
            if j < n {
                assert(l[j] == k[j]);
                assert(is_letter(k[j]));
            } else if j >= n + 3 {
                assert(l[j] == v[j - n - 3]);
                assert(v.contains('\n'));
            }
        }
    }
    if v.len() > 0 {
        lemma_trimmed_ends(v);
    }
    assert(trim(t.take(n + 1)) == k);
    assert(trim(t.skip(n + 2)) == v);
    assert(ini_line(m, l) == m.insert(trim(t.take(n + 1)), trim(t.skip(n + 1 + 1))));
}

/// A comment line changes no setting, and is a clean line.
pub proof fn lemma_comment_line_read(m: Map<Seq<char>, Seq<char>>, l: Seq<char>)
    requires
        l.len() > 0,
        l[0] == '#',
        !is_ws(l.last()),
        forall|i: int| 0 <= i < l.len() ==> #[trigger] l[i] != '\n',
    ensures
        ini_line(m, l) == m,
        clean_line(l),
{
    lemma_trim_fixed(l);
    assert(l.take(1) =~= seq!['#']);
}

/// An empty line changes no setting, and is a clean line.
pub proof fn lemma_empty_line_read(m: Map<Seq<char>, Seq<char>>)
    ensures
        ini_line(m, Seq::<char>::empty()) == m,
        clean_line(Seq::<char>::empty()),
{
    lemma_trim_fixed(Seq::<char>::empty());
}

/// The settings a list of name/value pairs sets, a later pair winning.
pub open spec fn settings_map(ps: Seq<(Seq<char>, Seq<char>)>) -> Map<Seq<char>, Seq<char>>
    decreases ps.len(),
{
    if ps.len() == 0 {
        Map::empty()
    } else {
        settings_map(ps.drop_last()).insert(ps.last().0, ps.last().1)
    }
}

/// An optional value that is clean when it is there.
pub open spec fn clean_opt(o: Option<Seq<char>>) -> bool {
    match o {
        Some(v) => clean_value(v),
        None => true,
    }
}

/// Reading the first `i` lines gave the first `j` pairs, and those lines
/// are clean.
spec fn read_so_far(ls: Seq<Seq<char>>, ps: Seq<(Seq<char>, Seq<char>)>, i: int, j: int) -> bool {
    &&& 0 <= i <= ls.len()
    &&& 0 <= j <= ps.len()
    &&& ini_from(ls.take(i)) == settings_map(ps.take(j))
    &&& forall|k: int| 0 <= k < i ==> clean_line(#[trigger] ls[k])
}

proof fn lemma_read_setting(ls: Seq<Seq<char>>, ps: Seq<(Seq<char>, Seq<char>)>, i: int, j: int)
    requires
        read_so_far(ls, ps, i, j),
        i < ls.len(),
        j < ps.len(),
        ls[i] == setting_line(ps[j].0, ps[j].1),
        letter_name(ps[j].0),
        clean_value(ps[j].1),
    ensures
        read_so_far(ls, ps, i + 1, j + 1),
        settings_map(ps.take(j + 1)) == settings_map(ps.take(j)).insert(ps[j].0, ps[j].1),
{
    assert(ls.take(i + 1).drop_last() =~= ls.take(i));
    assert(ps.take(j + 1).drop_last() =~= ps.take(j));
    lemma_setting_line_read(ini_from(ls.take(i)), ps[j].0, ps[j].1);
}

proof fn lemma_read_skip(ls: Seq<Seq<char>>, ps: Seq<(Seq<char>, Seq<char>)>, i: int, j: int)
    requires
        read_so_far(ls, ps, i, j),
        i < ls.len(),
        ls[i].len() == 0 || (ls[i][0] == '#' && !is_ws(ls[i].last()) && forall|k: int|
            0 <= k < ls[i].len() ==> #[trigger] ls[i][k] != '\n'),
    ensures
        read_so_far(ls, ps, i + 1, j),
{
    assert(ls.take(i + 1).drop_last() =~= ls.take(i));
    if ls[i].len() == 0 {
        assert(ls[i] =~= Seq::<char>::empty());
        lemma_empty_line_read(ini_from(ls.take(i)));
    } else {
        lemma_comment_line_read(ini_from(ls.take(i)), ls[i]);
    }
}

/// A short text with no whitespace at its ends and no line break is clean.
proof fn lemma_word_clean(v: Seq<char>)
    requires
        v.len() > 0,
        !is_ws(v[0]),
        !is_ws(v.last()),
        forall|k: int| 0 <= k < v.len() ==> #[trigger] v[k] != '\n',
    ensures
        clean_value(v),
{
    lemma_trim_fixed(v);
}

/// A number of pixels as written is clean.
proof fn lemma_pixels_clean(n: int)
    ensures
        clean_value(int_text(n) + "px"@),
{
    reveal_strlit("px");
    lemma_int_text_chars(n);
    let t = int_text(n);
    let v = t + "px"@;
    assert(v[0] == t[0]);
    assert(!is_ws(v[0])) by {
        assert(t[0] == '-' || is_digit(t[0]));
    }
    assert(v.last() == 'x');
    assert forall|k: int| 0 <= k < v.len() implies #[trigger] v[k] != '\n' by {
        if k < t.len() {
            assert(v[k] == t[k]);
            assert(t[k] == '-' || is_digit(t[k]));
        }
    }
    lemma_word_clean(v);
}

/// The text of a whole number is clean.
proof fn lemma_int_clean(n: int)
    ensures
        clean_value(int_text(n)),
{
    lemma_int_text_chars(n);
    let t = int_text(n);
    assert(!is_ws(t[0])) by {
        assert(t[0] == '-' || is_digit(t[0]));
    }
    assert forall|k: int| 0 <= k < t.len() implies #[trigger] t[k] != '\n' by {
        assert(t[k] == '-' || is_digit(t[k]));
    }
    lemma_word_clean(t);
}

/// How a flag is written is clean.
proof fn lemma_bool_clean(b: bool)
    ensures
        clean_value(bool_text(b)),
{
    reveal_strlit("true");
    reveal_strlit("false");
    lemma_word_clean(bool_text(b));
}

/// The value written for an optional setting is clean.
proof fn lemma_default_clean(o: Option<Seq<char>>, d: Seq<char>)
    requires
        clean_opt(o),
        clean_value(d),
    ensures
        clean_value(or_default(o, d)),
{
}

/// The last pair with a name sets it.
proof fn lemma_settings_last(ps: Seq<(Seq<char>, Seq<char>)>, j: int)
    requires
        0 <= j < ps.len(),
        forall|l: int| j < l < ps.len() ==> (#[trigger] ps[l]).0 != ps[j].0,
    ensures
        settings_map(ps).contains_key(ps[j].0),
        settings_map(ps)[ps[j].0] == ps[j].1,
    decreases ps.len(),
{
    if j < ps.len() - 1 {
        let q = ps.drop_last();
        assert forall|l: int| j < l < q.len() implies (#[trigger] q[l]).0 != q[j].0 by {
            assert(q[l] == ps[l]);
        }
        lemma_settings_last(q, j);
        assert(ps.last() == ps[ps.len() - 1]);
    }
}

/// The names of the saved settings after setting `j` differ from its name.
proof fn lemma_later_names_differ(s: StyleView, opacity: Seq<char>, j: int)
    requires
        0 <= j < 19,
    ensures
        forall|l: int| j < l < 19 ==> (#[trigger] style_pairs(s, opacity)[l]).0 != style_pairs(s, opacity)[j].0,
{
    reveal_strlit("width");
    reveal_strlit("height");
    reveal_strlit("fontSize");
    reveal_strlit("borderSize");
    reveal_strlit("borderRadius");
    reveal_strlit("opacity");
    reveal_strlit("showSubmaps");
    reveal_strlit("showArgs");
    reveal_strlit("showFavorites");
    reveal_strlit("alternatingRowColors");
    reveal_strlit("defaultSort");
    reveal_strlit("shadowSize");
    reveal_strlit("keyboardLayout");
    reveal_strlit("showDescription");
    reveal_strlit("autoBackup");
    reveal_strlit("maxBackupsEnabled");
    reveal_strlit("maxBackupsCount");
    reveal_strlit("monitorMargin");
    reveal_strlit("rowPadding");
    let ps = style_pairs(s, opacity);
    assert forall|l: int| j < l < 19 implies (#[trigger] ps[l]).0 != ps[j].0 by {
        let a = ps[l].0;
        let b = ps[j].0;
        if j == 0 {} else if j == 1 {} else if j == 2 {} else if j == 3 {} else if j == 4 {}
        else if j == 5 {} else if j == 6 {} else if j == 7 {} else if j == 8 {} else if j == 9 {}
        else if j == 10 {} else if j == 11 {} else if j == 12 {} else if j == 13 {} else if j == 14 {}
        else if j == 15 {} else if j == 16 {} else {}
        if l == 1 {} else if l == 2 {} else if l == 3 {} else if l == 4 {} else if l == 5 {}
        else if l == 6 {} else if l == 7 {} else if l == 8 {} else if l == 9 {} else if l == 10 {}
        else if l == 11 {} else if l == 12 {} else if l == 13 {} else if l == 14 {} else if l == 15 {}
        else if l == 16 {} else if l == 17 {} else {}
        assert(a.len() != b.len() || a[0] != b[0]);
    }
}

/// The values that are not set are written as their defaults.
proof fn lemma_pair_values_clean(s: StyleView, opacity: Seq<char>)
    requires
        clean_opt(s.font_size),
        clean_opt(s.border_size),
        clean_opt(s.border_radius),
        clean_value(s.default_sort),
        clean_value(s.shadow_size),
        clean_value(s.keyboard_layout),
        clean_value(opacity),
    ensures
        forall|j: int| 0 <= j < 19 ==> clean_value(#[trigger] style_pairs(s, opacity)[j].1),
        forall|j: int| 0 <= j < 19 ==> letter_name(#[trigger] style_pairs(s, opacity)[j].0),
        style_pairs(s, opacity).len() == 19,
{
    reveal_strlit("0.9rem");
    reveal_strlit("1px");
    reveal_strlit("12px");
    lemma_word_clean("0.9rem"@);
    lemma_word_clean("1px"@);
    lemma_word_clean("12px"@);
    lemma_pixels_clean(s.width as int);
    lemma_pixels_clean(s.height as int);
    lemma_pixels_clean(s.monitor_margin as int);
    lemma_pixels_clean(s.row_padding as int);
    lemma_bool_clean(s.show_submaps);
    lemma_bool_clean(s.show_args);
    lemma_bool_clean(s.show_favorites);
    lemma_bool_clean(s.alternating_row_colors);
    lemma_bool_clean(s.show_description);
    lemma_bool_clean(s.auto_backup);
    lemma_bool_clean(s.max_backups_enabled);
    lemma_int_clean(s.max_backups_count as int);
    lemma_default_clean(s.font_size, "0.9rem"@);
    lemma_default_clean(s.border_size, "1px"@);
    lemma_default_clean(s.border_radius, "12px"@);
    reveal_strlit("width");
    reveal_strlit("height");
    reveal_strlit("fontSize");
    reveal_strlit("borderSize");
    reveal_strlit("borderRadius");
    reveal_strlit("opacity");
    reveal_strlit("showSubmaps");
    reveal_strlit("showArgs");
    reveal_strlit("showFavorites");
    reveal_strlit("alternatingRowColors");
    reveal_strlit("defaultSort");
    reveal_strlit("shadowSize");
    reveal_strlit("keyboardLayout");
    reveal_strlit("showDescription");
    reveal_strlit("autoBackup");
    reveal_strlit("maxBackupsEnabled");
    reveal_strlit("maxBackupsCount");
    reveal_strlit("monitorMargin");
    reveal_strlit("rowPadding");
    let ps = style_pairs(s, opacity);
    assert forall|j: int| 0 <= j < 19 implies clean_value(#[trigger] ps[j].1) && letter_name(ps[j].0) by {
        if j == 0 {} else if j == 1 {} else if j == 2 {} else if j == 3 {} else if j == 4 {}
        else if j == 5 {} else if j == 6 {} else if j == 7 {} else if j == 8 {} else if j == 9 {}
        else if j == 10 {} else if j == 11 {} else if j == 12 {} else if j == 13 {} else if j == 14 {}
        else if j == 15 {} else if j == 16 {} else if j == 17 {} else {}
    }
}

/// Saving the settings and reading the file back gives the saved entries,
/// a later one winning; and the font size, border size, border radius and
/// shadow come back as they were saved (or as the defaults written for
/// them), the sort order as its lowercase.
#[verifier::spinoff_prover]
#[verifier::rlimit(60)]
pub proof fn lemma_saved_style_reads_back(s: StyleView, opacity: Seq<char>, check: OpacityCheck)
    requires
        clean_opt(s.font_size),
        clean_opt(s.border_size),
        clean_opt(s.border_radius),
        clean_value(s.default_sort),
        clean_value(s.shadow_size),
        clean_value(s.keyboard_layout),
        clean_value(opacity),
    ensures
        ini_from(lines(style_text(s, opacity))) == settings_map(style_pairs(s, opacity)),
        style_of(ini_from(lines(style_text(s, opacity))), check).font_size == Some(
            or_default(s.font_size, "0.9rem"@),
        ),
        style_of(ini_from(lines(style_text(s, opacity))), check).border_size == Some(
            or_default(s.border_size, "1px"@),
        ),
        style_of(ini_from(lines(style_text(s, opacity))), check).border_radius == Some(
            or_default(s.border_radius, "12px"@),
        ),
        style_of(ini_from(lines(style_text(s, opacity))), check).shadow_size == s.shadow_size,
        style_of(ini_from(lines(style_text(s, opacity))), check).keyboard_layout == s.keyboard_layout,
        style_of(ini_from(lines(style_text(s, opacity))), check).default_sort == crate::text::lowercase(
            s.default_sort,
        ),
{
    let ps = style_pairs(s, opacity);
    let ls = style_lines(s, opacity);
    lemma_pair_values_clean(s, opacity);
    reveal_strlit("# Window dimensions");
    reveal_strlit("# Appearance");
    reveal_strlit("# UI Elements");
    reveal_strlit("# Behavior");
    reveal_strlit("# Spacing");
    assert(ls.len() == 28);
    assert(ls.take(0) =~= Seq::<Seq<char>>::empty());
    assert(ps.take(0) =~= Seq::<(Seq<char>, Seq<char>)>::empty());
    assert(read_so_far(ls, ps, 0, 0));
    lemma_read_skip(ls, ps, 0, 0);
    lemma_read_setting(ls, ps, 1, 0);
    lemma_read_setting(ls, ps, 2, 1);
    lemma_read_skip(ls, ps, 3, 2);
    lemma_read_skip(ls, ps, 4, 2);
    lemma_read_setting(ls, ps, 5, 2);
    lemma_read_setting(ls, ps, 6, 3);
    lemma_read_setting(ls, ps, 7, 4);
    lemma_read_setting(ls, ps, 8, 5);
    lemma_read_skip(ls, ps, 9, 6);
    lemma_read_skip(ls, ps, 10, 6);
    lemma_read_setting(ls, ps, 11, 6);
    lemma_read_setting(ls, ps, 12, 7);
    lemma_read_setting(ls, ps, 13, 8);
    lemma_read_setting(ls, ps, 14, 9);
    lemma_read_setting(ls, ps, 15, 10);
    lemma_read_setting(ls, ps, 16, 11);
    lemma_read_setting(ls, ps, 17, 12);
    lemma_read_setting(ls, ps, 18, 13);
    lemma_read_skip(ls, ps, 19, 14);
    lemma_read_skip(ls, ps, 20, 14);
    lemma_read_setting(ls, ps, 21, 14);
    lemma_read_setting(ls, ps, 22, 15);
    lemma_read_setting(ls, ps, 23, 16);
    lemma_read_skip(ls, ps, 24, 17);
    lemma_read_skip(ls, ps, 25, 17);
    lemma_read_setting(ls, ps, 26, 17);
    lemma_read_setting(ls, ps, 27, 18);
    assert(ls.take(28) =~= ls);
    assert(ps.take(19) =~= ps);
    lemma_lines_of_ended_join(ls);
    lemma_later_names_differ(s, opacity, 2);
    lemma_later_names_differ(s, opacity, 3);
    lemma_later_names_differ(s, opacity, 4);
    lemma_later_names_differ(s, opacity, 10);
    lemma_later_names_differ(s, opacity, 11);
    lemma_later_names_differ(s, opacity, 12);
    lemma_settings_last(ps, 2);
    lemma_settings_last(ps, 3);
    lemma_settings_last(ps, 4);
    lemma_settings_last(ps, 10);
    lemma_settings_last(ps, 11);
    lemma_settings_last(ps, 12);
    reveal_strlit("keyboardLayout");
    reveal_strlit("fontSize");
    reveal_strlit("borderSize");
    reveal_strlit("borderRadius");
    reveal_strlit("defaultSort");
    reveal_strlit("shadowSize");
}

/// Text that the lowercase mapping leaves as it is: `-`, ASCII digits and
/// lowercase ASCII letters.
pub open spec fn lower_fixed(t: Seq<char>) -> bool {
    forall|i: int| 0 <= i < t.len() ==> (t[i] == '-' || ('0' <= #[trigger] t[i] <= '9') || ('a' <= t[i] <= 'z'))
}

/// The lowercase mapping leaves such text as it is.
proof fn lemma_lower_fixed(t: Seq<char>)
    requires
        lower_fixed(t),
    ensures
        lowercase(t) == t,
{
    assert forall|i: int| 0 <= i < t.len() implies crate::text::is_ascii_char(#[trigger] t[i]) by {
        assert(t[i] == '-' || ('0' <= t[i] <= '9') || ('a' <= t[i] <= 'z'));
    }
    assert(t.map_values(|c: char| crate::text::ascii_to_lower(c)) =~= t) by {
        assert forall|i: int| 0 <= i < t.len() implies #[trigger] crate::text::ascii_to_lower(t[i]) == t[i] by {
            assert(t[i] == '-' || ('0' <= t[i] <= '9') || ('a' <= t[i] <= 'z'));
        }
    }
}

/// A number of pixels as written reads back as that number, and is used
/// when it is at least `min`.
proof fn lemma_pixels_read_back(
    n: i32,
    min: int,
    default: i32,
    too_small: (Seq<char>, Seq<char>),
    invalid: (Seq<char>, Seq<char>),
)
    requires
        n >= min,
    ensures
        size_setting(Some(int_text(n as int) + "px"@), default, min, too_small, invalid) == (n, Seq::<Seq<char>>::empty()),
{
    reveal_strlit("px");
    let t = int_text(n as int);
    let v = t + "px"@;
    lemma_int_text_chars(n as int);
    assert(lower_fixed(v)) by {
        assert forall|i: int| 0 <= i < v.len() implies (v[i] == '-' || ('0' <= #[trigger] v[i] <= '9') || ('a' <= v[i]
            <= 'z')) by {
            if i < t.len() {
                assert(v[i] == t[i]);
                assert(t[i] == '-' || is_digit(t[i]));
            }
        }
    }
    lemma_lower_fixed(v);
    assert(ends_with(v, "px"@)) by {
        assert(v.skip(v.len() - 2) =~= "px"@);
    }
    assert(v.take(v.len() - 2) =~= t);
    assert(!ends_with(t, "px"@)) by {
        if ends_with(t, "px"@) {
            assert(t.skip(t.len() - 2)[1] == t.last());
        }
    }
    assert(strip_suffixes(t, "px"@) == t);
    assert(strip_suffixes(v, "px"@) == t);
    assert(!is_ws(t[0])) by {
        assert(t[0] == '-' || is_digit(t[0]));
    }
    lemma_trim_fixed(t);
    lemma_int_text_round_trip(n);
    assert(pixels(v) == Some(n));
}

/// Saving the settings and reading the file back, the opacity value
/// reading as a valid number, gives the settings saved: the optional ones
/// as saved or as their defaults, the sort order in lowercase, and no
/// message. This holds of sizes that are used when read (a width and
/// height of at least 100 pixels, margins and the backup limit not
/// negative) and of texts
/// carried as they are.
#[verifier::spinoff_prover]
#[verifier::rlimit(60)]
pub proof fn lemma_saved_style_settings_read_back(s: StyleView, opacity: Seq<char>)
    requires
        clean_opt(s.font_size),
        clean_opt(s.border_size),
        clean_opt(s.border_radius),
        clean_value(s.default_sort),
        clean_value(s.shadow_size),
        clean_value(s.keyboard_layout),
        clean_value(opacity),
        s.max_backups_count >= 0,
        s.width >= 100,
        s.height >= 100,
        s.monitor_margin >= 0,
        s.row_padding >= 0,
    ensures
        style_of(ini_from(lines(style_text(s, opacity))), OpacityCheck::Valid) == (StyleView {
            font_size: Some(or_default(s.font_size, "0.9rem"@)),
            border_size: Some(or_default(s.border_size, "1px"@)),
            border_radius: Some(or_default(s.border_radius, "12px"@)),
            default_sort: lowercase(s.default_sort),
            errors: Seq::<Seq<char>>::empty(),
            ..s
        }),
{
    lemma_saved_style_reads_back(s, opacity, OpacityCheck::Valid);
    let ps = style_pairs(s, opacity);
    lemma_pair_values_clean(s, opacity);
    lemma_later_names_differ(s, opacity, 0);
    lemma_later_names_differ(s, opacity, 1);
    lemma_later_names_differ(s, opacity, 5);
    lemma_later_names_differ(s, opacity, 6);
    lemma_later_names_differ(s, opacity, 7);
    lemma_later_names_differ(s, opacity, 8);
    lemma_later_names_differ(s, opacity, 9);
    lemma_later_names_differ(s, opacity, 13);
    lemma_later_names_differ(s, opacity, 14);
    lemma_later_names_differ(s, opacity, 15);
    lemma_later_names_differ(s, opacity, 16);
    lemma_later_names_differ(s, opacity, 17);
    lemma_later_names_differ(s, opacity, 18);
    lemma_settings_last(ps, 0);
    lemma_settings_last(ps, 1);
    lemma_settings_last(ps, 5);
    lemma_settings_last(ps, 6);
    lemma_settings_last(ps, 7);
    lemma_settings_last(ps, 8);
    lemma_settings_last(ps, 9);
    lemma_settings_last(ps, 13);
    lemma_settings_last(ps, 14);
    lemma_settings_last(ps, 15);
    lemma_settings_last(ps, 16);
    lemma_settings_last(ps, 17);
    lemma_settings_last(ps, 18);
    reveal_strlit("width");
    reveal_strlit("height");
    reveal_strlit("opacity");
    reveal_strlit("showSubmaps");
    reveal_strlit("showArgs");
    reveal_strlit("showFavorites");
    reveal_strlit("alternatingRowColors");
    reveal_strlit("monitorMargin");
    reveal_strlit("rowPadding");
    reveal_strlit("showDescription");
    reveal_strlit("autoBackup");
    reveal_strlit("maxBackupsEnabled");
    reveal_strlit("maxBackupsCount");
    reveal_strlit("true");
    reveal_strlit("false");
    assert(lower_fixed("true"@));
    assert(lower_fixed("false"@));
    lemma_lower_fixed("true"@);
    lemma_lower_fixed("false"@);
    assert("false"@ != "true"@);
    lemma_pixels_read_back(
        s.width,
        100,
        700,
        ("Width '"@, "' is too small (min 100px). Using default."@),
        ("Invalid width value '"@, "'."@),
    );
    lemma_pixels_read_back(
        s.height,
        100,
        500,
        ("Height '"@, "' is too small (min 100px). Using default."@),
        ("Invalid height value '"@, "'."@),
    );
    lemma_pixels_read_back(
        s.monitor_margin,
        0,
        12,
        ("Monitor margin '"@, "' cannot be negative. Using default."@),
        ("Invalid monitorMargin '"@, "'."@),
    );
    lemma_pixels_read_back(
        s.row_padding,
        0,
        2,
        ("Row padding '"@, "' cannot be negative. Using default."@),
        ("Invalid rowPadding '"@, "'."@),
    );
    let m = ini_from(lines(style_text(s, opacity)));
    assert(setting(m, "width"@) == Some(int_text(s.width as int) + "px"@));
    assert(setting(m, "height"@) == Some(int_text(s.height as int) + "px"@));
    assert(setting(m, "monitorMargin"@) == Some(int_text(s.monitor_margin as int) + "px"@));
    assert(setting(m, "rowPadding"@) == Some(int_text(s.row_padding as int) + "px"@));
    assert(setting(m, "opacity"@) == Some(opacity));
    assert(setting(m, "showSubmaps"@) == Some(bool_text(s.show_submaps)));
    assert(setting(m, "showArgs"@) == Some(bool_text(s.show_args)));
    assert(setting(m, "showFavorites"@) == Some(bool_text(s.show_favorites)));
    assert(setting(m, "alternatingRowColors"@) == Some(bool_text(s.alternating_row_colors)));
    assert(setting(m, "showDescription"@) == Some(bool_text(s.show_description)));
    assert(setting(m, "autoBackup"@) == Some(bool_text(s.auto_backup)));
    assert(setting(m, "maxBackupsEnabled"@) == Some(bool_text(s.max_backups_enabled)));
    assert(setting(m, "maxBackupsCount"@) == Some(int_text(s.max_backups_count as int)));
    lemma_int_text_round_trip(s.max_backups_count);
    let r = style_of(m, OpacityCheck::Valid);
    assert(r.errors =~= Seq::<Seq<char>>::empty());
}

} // verus!
