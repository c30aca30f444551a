//! What reading the configuration gives back of input settings just saved.
use crate::input::{
    added_settings, apply_input_setting, changed_line, comment_of, fresh_settings, gesture_digits, gesture_line, input_scan, input_step, input_updates,
    is_input_header, is_name_char, kept_lines, name_end, nd_end, saved_input_text, sets_key, setting_of, setting_parts, decimal_digit, value_for,
    with_gesture, with_input_block, InputScan, InputValuesView,
};
use crate::numbers::{int_text, is_digit, parse_i32, lemma_int_text_chars, lemma_int_text_round_trip, lemma_nat_text, nat_text};
use crate::text::{
    before_char, ends_with, is_ws, join, lead_from, lemma_find_char_absent, lemma_lead_from_bounds, lemma_lead_run,
    lemma_lines_of_join, lemma_trail_down_bounds, lemma_trim_fixed, lemma_trim_pad, lines, occurs_at, starts_with,
    strip_cr, trail_down, trim,
};
use vstd::prelude::*;

verus! {

broadcast use vstd::string::group_string_axioms;

/// A value that the settings file carries as it is: trimmed, without a
/// line break or `#`, and not ending in `{`.
pub open spec fn plain_value(v: Seq<char>) -> bool {
    &&& trim(v) == v
    &&& !v.contains('\n')
    &&& !v.contains('#')
    &&& !(v.len() > 0 && v.last() == '{')
}

/// A name that input settings are written under: letters, digits and `_`,
/// not beginning like an `input` or `gesture` line.
spec fn setting_name(k: Seq<char>) -> bool {
    &&& k.len() > 0
    &&& forall|i: int| 0 <= i < k.len() ==> is_name_char(#[trigger] k[i])
    &&& k[0] != 'i'
    &&& k[0] != 'g'
}

/// The line a setting is written as in a new `input` block.
spec fn setting_text(k: Seq<char>, v: Seq<char>) -> Seq<char> {
    "    "@ + k + " = "@ + v
}

/// The run of name characters from `i` ends at `j`.
proof fn lemma_name_run(s: Seq<char>, i: int, j: int)
    requires
        0 <= i <= j <= s.len(),
        forall|k: int| i <= k < j ==> is_name_char(#[trigger] s[k]),
        j < s.len() ==> !is_name_char(s[j]),
    ensures
        name_end(s, i) == j,
    decreases j - i,
{
    if i < j {
        lemma_name_run(s, i + 1, j);
    }
}

/// A setting line trimmed: the name, `=` and the value.
proof fn lemma_setting_trim(k: Seq<char>, v: Seq<char>)
    requires
        setting_name(k),
        plain_value(v),
    ensures
        trim(setting_text(k, v)) == (if v.len() > 0 {
            k + " = "@ + v
        } else {
            k + " ="@
        }),
{
    reveal_strlit("    ");
    reveal_strlit(" = ");
    reveal_strlit(" =");
    let pre = "    "@;
    assert(!is_ws(k[0])) by {
        assert(is_name_char(k[0]));
    }
    if v.len() > 0 {
        let u = k + " = "@ + v;
        crate::text::lemma_trimmed_ends(v);
        assert(u[0] == k[0]);
        assert(u.last() == v.last());
        assert(setting_text(k, v) =~= pre + u + Seq::<char>::empty());
        lemma_trim_pad(pre, u, Seq::<char>::empty());
    } else {
        let u = k + " ="@;
        assert(u[0] == k[0]);
        assert(u.last() == '=');
        assert(setting_text(k, v) =~= pre + u + seq![' ']);
        lemma_trim_pad(pre, u, seq![' ']);
    }
}

/// A setting line is read as its name and value.
proof fn lemma_setting_read(k: Seq<char>, v: Seq<char>)
    requires
        setting_name(k),
        plain_value(v),
    ensures
        setting_of(trim(setting_text(k, v))) == Some((k, v)),
{
    reveal_strlit(" = ");
    reveal_strlit(" =");
    lemma_setting_trim(k, v);
    let t = trim(setting_text(k, v));
    let n = k.len() as int;
    assert(!is_ws(t[0])) by {
        assert(t[0] == k[0]);
        assert(is_name_char(k[0]));
    }
    lemma_lead_run(t, 0, 0);
    assert forall|j: int| 0 <= j < n implies is_name_char(#[trigger] t[j]) by {
        assert(t[j] == k[j]);
    }
    assert(t[n] == ' ');
    lemma_name_run(t, 0, n);
    assert(t[n + 1] == '=');
    lemma_lead_run(t, n, n + 1);
    if v.len() > 0 {
        crate::text::lemma_trimmed_ends(v);
        assert(t[n + 2] == ' ');
        assert(t[n + 3] == v[0]);
        lemma_lead_run(t, n + 2, n + 3);
        assert(t.skip(n + 3) =~= v);
    } else {
        assert(t.len() == n + 2);
        lemma_lead_run(t, n + 2, n + 2);
        assert(t.skip(n + 2) =~= v);
    }
    assert(t.subrange(0, n) =~= k);
}

/// Inside the `input` block, a setting line sets its value.
proof fn lemma_setting_step(st: InputScan, k: Seq<char>, v: Seq<char>)
    requires
        setting_name(k),
        plain_value(v),
        st.depth > 0,
        st.in_input,
    ensures
        input_step(st, setting_text(k, v)) == apply_input_setting(st, k, v),
{
    reveal_strlit(" = ");
    reveal_strlit(" =");
    reveal_strlit("input {");
    reveal_strlit("input");
    reveal_strlit("{");
    reveal_strlit("}");
    lemma_setting_trim(k, v);
    lemma_setting_read(k, v);
    let t = trim(setting_text(k, v));
    assert(t[0] == k[0]);
    assert(!starts_with(t, "input {"@)) by {
        if starts_with(t, "input {"@) {
            assert(t.take(7)[0] == t[0]);
        }
    }
    assert(!starts_with(t, "input"@)) by {
        if starts_with(t, "input"@) {
            assert(t.take(5)[0] == t[0]);
        }
    }
    assert(t != "}"@) by {
        assert(is_name_char(k[0]));
    }
    assert(!ends_with(t, "{"@)) by {
        if ends_with(t, "{"@) {
            assert(t.skip(t.len() - 1)[0] == t.last());
            if v.len() > 0 {
                assert(t.last() == v.last());
            } else {
                assert(t.last() == '=');
            }
        }
    }
    lemma_find_char_absent(v, '#');
}

/// The settings of a new block read in order: each written one (an empty
/// `kb_variant` or `kb_options` is not written) is applied.
spec fn applied(st: InputScan, ups: Seq<(Seq<char>, Seq<char>)>) -> InputScan
    decreases ups.len(),
{
    if ups.len() == 0 {
        st
    } else {
        let st1 = if (ups[0].0 == "kb_variant"@ || ups[0].0 == "kb_options"@) && ups[0].1.len() == 0 {
            st
        } else {
            apply_input_setting(st, ups[0].0, ups[0].1)
        };
        applied(st1, ups.drop_first())
    }
}

/// Reading one more line is one more step.
proof fn lemma_scan_push(p: Seq<Seq<char>>, line: Seq<char>)
    ensures
        input_scan(p.push(line)) == input_step(input_scan(p), line),
{
    assert(p.push(line).drop_last() =~= p);
}

/// Reading the settings of a new block inside it applies them in order.
proof fn lemma_scan_fresh(p: Seq<Seq<char>>, ups: Seq<(Seq<char>, Seq<char>)>)
    requires
        input_scan(p).depth > 0,
        input_scan(p).in_input,
        forall|i: int| 0 <= i < ups.len() ==> setting_name((#[trigger] ups[i]).0) && plain_value(ups[i].1),
    ensures
        input_scan(p + fresh_settings(ups)) == applied(input_scan(p), ups),
    decreases ups.len(),
{
    if ups.len() == 0 {
        assert(p + fresh_settings(ups) =~= p);
    } else {
        let rest = ups.drop_first();
        assert forall|i: int| 0 <= i < rest.len() implies setting_name((#[trigger] rest[i]).0) && plain_value(
            rest[i].1,
        ) by {
            assert(rest[i] == ups[i + 1]);
        }
        assert(setting_name(ups[0].0) && plain_value(ups[0].1));
        if (ups[0].0 == "kb_variant"@ || ups[0].0 == "kb_options"@) && ups[0].1.len() == 0 {
            assert(fresh_settings(ups) =~= fresh_settings(rest));
            lemma_scan_fresh(p, rest);
        } else {
            let line = setting_text(ups[0].0, ups[0].1);
            assert(fresh_settings(ups) =~= seq![line] + fresh_settings(rest));
            lemma_scan_push(p, line);
            lemma_setting_step(input_scan(p), ups[0].0, ups[0].1);
            let p2 = p.push(line);
            lemma_scan_fresh(p2, rest);
            assert(p + fresh_settings(ups) =~= p2 + fresh_settings(rest));
        }
    }
}

/// The text of an integer is carried as it is.
proof fn lemma_int_text_plain(n: int)
    ensures
        plain_value(int_text(n)),
{
    lemma_int_text_chars(n);
    let t = int_text(n);
    assert(!is_ws(t[0])) by {
        assert(t[0] == '-' || is_digit(t[0]));
    }
    assert(!is_ws(t.last()));
    crate::text::lemma_trim_fixed(t);
    assert(!t.contains('\n')) by {
        if t.contains('\n') {
            let k = choose|k: int| 0 <= k < t.len() && t[k] == '\n';
            assert(t[k] == '-' || is_digit(t[k]));
        }
    }
    assert(!t.contains('#')) by {
        if t.contains('#') {
            let k = choose|k: int| 0 <= k < t.len() && t[k] == '#';
            assert(t[k] == '-' || is_digit(t[k]));
        }
    }
}

/// The settings saved are names of settings with values carried as they are.
proof fn lemma_updates_plain(v: InputValuesView, sensitivity: Seq<char>)
    requires
        plain_value(v.kb_layout),
        plain_value(v.kb_variant),
        plain_value(v.kb_options),
        plain_value(sensitivity),
    ensures
        ({
            let ups = input_updates(v, sensitivity);
            forall|i: int| 0 <= i < ups.len() ==> setting_name((#[trigger] ups[i]).0) && plain_value(ups[i].1)
        }),
{
    reveal_strlit("kb_layout");
    reveal_strlit("kb_variant");
    reveal_strlit("kb_options");
    reveal_strlit("follow_mouse");
    reveal_strlit("sensitivity");
    reveal_strlit("repeat_rate");
    reveal_strlit("repeat_delay");
    lemma_int_text_plain(v.follow_mouse as int);
    lemma_int_text_plain(v.repeat_rate as int);
    lemma_int_text_plain(v.repeat_delay as int);
    let ups = input_updates(v, sensitivity);
    assert forall|i: int| 0 <= i < ups.len() implies setting_name((#[trigger] ups[i]).0) && plain_value(ups[i].1) by {
        let k = ups[i].0;
        assert forall|j: int| 0 <= j < k.len() implies is_name_char(#[trigger] k[j]) by {
            if i == 0 {
                assert(k == "kb_layout"@);
            } else if i == 1 {
                assert(k == "kb_variant"@);
            } else if i == 2 {
                assert(k == "kb_options"@);
            } else if i == 3 {
                assert(k == "follow_mouse"@);
            } else if i == 4 {
                assert(k == "sensitivity"@);
            } else if i == 5 {
                assert(k == "repeat_rate"@);
            } else {
                assert(k == "repeat_delay"@);
            }
        }
    }
}

/// No line of a new block is a `gesture` line, so saving with the swipe
/// off leaves the lines as they are.
proof fn lemma_no_gesture_line(ls: Seq<Seq<char>>, i: int)
    requires
        0 <= i <= ls.len(),
        forall|j: int| 0 <= j < ls.len() ==> gesture_digits(#[trigger] ls[j]) is None,
    ensures
        gesture_line(ls, i) is None,
    decreases ls.len() - i,
{
    if i < ls.len() {
        lemma_no_gesture_line(ls, i + 1);
    }
}

/// A line whose first character after its indentation is not `g` is no
/// `gesture` line.
proof fn lemma_not_gesture(t: Seq<char>)
    requires
        lead_from(t, 0) < t.len() ==> t[lead_from(t, 0)] != 'g',
    ensures
        gesture_digits(t) is None,
{
    reveal_strlit("gesture");
    let a = lead_from(t, 0);
    if occurs_at(t, "gesture"@, a) {
        assert(t.subrange(a, a + 7)[0] == t[a]);
    }
}

/// A setting line holds no line break, does not end in a carriage return
/// and is no `gesture` line.
proof fn lemma_setting_line_shape(k: Seq<char>, v: Seq<char>)
    requires
        setting_name(k),
        plain_value(v),
    ensures
        !setting_text(k, v).contains('\n'),
        strip_cr(setting_text(k, v)) == setting_text(k, v),
        gesture_digits(setting_text(k, v)) is None,
{
    reveal_strlit("    ");
    reveal_strlit(" = ");
    let l = setting_text(k, v);
    let n = k.len() as int;
    assert forall|j: int| 0 <= j < l.len() implies l[j] != '\n' by {
        if 4 <= j < 4 + n {
            assert(l[j] == k[j - 4]);
            assert(is_name_char(k[j - 4]));
        } else if j >= 4 + n + 3 {
            assert(l[j] == v[j - (4 + n + 3)]);
        }
    }
    if v.len() > 0 {
        crate::text::lemma_trimmed_ends(v);
        assert(l.last() == v.last());
    } else {
        assert(l.last() == ' ');
    }
    assert(is_name_char(k[0]));
    assert(l[4] == k[0]);
    lemma_lead_run(l, 0, 4);
    lemma_not_gesture(l);
}

/// The lines of a new block's settings hold no line break, do not end in a
/// carriage return and are no `gesture` lines.
proof fn lemma_fresh_shape(ups: Seq<(Seq<char>, Seq<char>)>)
    requires
        forall|i: int| 0 <= i < ups.len() ==> setting_name((#[trigger] ups[i]).0) && plain_value(ups[i].1),
    ensures
        forall|j: int|
            0 <= j < fresh_settings(ups).len() ==> !(#[trigger] fresh_settings(ups)[j]).contains('\n')
                && strip_cr(fresh_settings(ups)[j]) == fresh_settings(ups)[j] && gesture_digits(
                fresh_settings(ups)[j],
            ) is None,
    decreases ups.len(),
{
    if ups.len() > 0 {
        let rest = ups.drop_first();
        assert forall|i: int| 0 <= i < rest.len() implies setting_name((#[trigger] rest[i]).0) && plain_value(
            rest[i].1,
        ) by {
            assert(rest[i] == ups[i + 1]);
        }
        lemma_fresh_shape(rest);
        assert(setting_name(ups[0].0) && plain_value(ups[0].1));
        lemma_setting_line_shape(ups[0].0, ups[0].1);
        let f = fresh_settings(ups);
        if (ups[0].0 == "kb_variant"@ || ups[0].0 == "kb_options"@) && ups[0].1.len() == 0 {
            assert(f =~= fresh_settings(rest));
        } else {
            assert(f =~= seq![setting_text(ups[0].0, ups[0].1)] + fresh_settings(rest));
            assert forall|j: int| 0 <= j < f.len() implies !(#[trigger] f[j]).contains('\n') && strip_cr(f[j]) == f[j]
                && gesture_digits(f[j]) is None by {
                if j > 0 {
                    assert(f[j] == fresh_settings(rest)[j - 1]);
                }
            }
        }
    }
}

/// Reading the settings that saving writes sets the values saved, and the
/// sensitivity text after those read before; nothing else changes.
proof fn lemma_applied_updates(st: InputScan, v: InputValuesView, sensitivity: Seq<char>)
    requires
        st.values.kb_variant == Seq::<char>::empty(),
        st.values.kb_options == Seq::<char>::empty(),
    ensures
        applied(st, input_updates(v, sensitivity)).values == v,
        applied(st, input_updates(v, sensitivity)).sensitivity == st.sensitivity.push(sensitivity),
        applied(st, input_updates(v, sensitivity)).depth == st.depth,
        applied(st, input_updates(v, sensitivity)).in_input == st.in_input,
        applied(st, input_updates(v, sensitivity)).swipe == st.swipe,
{
    reveal_strlit("kb_layout");
    reveal_strlit("kb_variant");
    reveal_strlit("kb_options");
    reveal_strlit("follow_mouse");
    reveal_strlit("sensitivity");
    reveal_strlit("repeat_rate");
    reveal_strlit("repeat_delay");
    assert("kb_variant"@ != "kb_options"@) by {
        assert("kb_variant"@[3] != "kb_options"@[3]);
    }
    assert("follow_mouse"@ != "repeat_delay"@) by {
        assert("follow_mouse"@[0] != "repeat_delay"@[0]);
    }
    assert("sensitivity"@ != "repeat_rate"@) by {
        assert("sensitivity"@[0] != "repeat_rate"@[0]);
    }
    lemma_int_text_round_trip(v.follow_mouse);
    lemma_int_text_round_trip(v.repeat_rate);
    lemma_int_text_round_trip(v.repeat_delay);
    let ups = input_updates(v, sensitivity);
    let u1 = ups.drop_first();
    let u2 = u1.drop_first();
    let u3 = u2.drop_first();
    let u4 = u3.drop_first();
    let u5 = u4.drop_first();
    let u6 = u5.drop_first();
    let u7 = u6.drop_first();
    assert(u7.len() == 0);
    assert("kb_layout"@.len() == 9 && "kb_variant"@.len() == 10 && "kb_options"@.len() == 10);
    assert("follow_mouse"@.len() == 12 && "sensitivity"@.len() == 11 && "repeat_rate"@.len() == 11);
    assert("repeat_delay"@.len() == 12);
    assert(ups[0] == ("kb_layout"@, v.kb_layout));
    let s1 = apply_input_setting(st, "kb_layout"@, v.kb_layout);
    assert(applied(st, ups) == applied(s1, u1));
    let s2 = if v.kb_variant.len() == 0 {
        s1
    } else {
        apply_input_setting(s1, "kb_variant"@, v.kb_variant)
    };
    assert(u1[0] == ("kb_variant"@, v.kb_variant));
    assert(applied(s1, u1) == applied(s2, u2));
    assert(s2.values.kb_variant == v.kb_variant);
    let s3 = if v.kb_options.len() == 0 {
        s2
    } else {
        apply_input_setting(s2, "kb_options"@, v.kb_options)
    };
    assert(u2[0] == ("kb_options"@, v.kb_options));
    assert(applied(s2, u2) == applied(s3, u3));
    assert(s3.values.kb_options == v.kb_options);
    let s4 = apply_input_setting(s3, "follow_mouse"@, int_text(v.follow_mouse as int));
    assert(u3[0] == ("follow_mouse"@, int_text(v.follow_mouse as int)));
    assert(applied(s3, u3) == applied(s4, u4));
    let s5 = apply_input_setting(s4, "sensitivity"@, sensitivity);
    assert(u4[0] == ("sensitivity"@, sensitivity));
    assert(applied(s4, u4) == applied(s5, u5));
    let s6 = apply_input_setting(s5, "repeat_rate"@, int_text(v.repeat_rate as int));
    assert(u5[0] == ("repeat_rate"@, int_text(v.repeat_rate as int)));
    assert(applied(s5, u5) == applied(s6, u6));
    let s7 = apply_input_setting(s6, "repeat_delay"@, int_text(v.repeat_delay as int));
    assert(u6[0] == ("repeat_delay"@, int_text(v.repeat_delay as int)));
    assert(applied(s6, u6) == applied(s7, u7));
    assert(applied(s7, u7) == s7);
}

/// The new `input` block that saving writes into an empty file.
spec fn new_block(v: InputValuesView, sensitivity: Seq<char>) -> Seq<Seq<char>> {
    with_input_block(kept_lines(Seq::<Seq<char>>::empty(), 0), input_updates(v, sensitivity))
}

/// The new block's lines are clean and none is a `gesture` line; reading
/// them gives the values and the sensitivity text saved, outside any block,
/// with the swipe off.
proof fn lemma_new_block_read(v: InputValuesView, sensitivity: Seq<char>)
    requires
        plain_value(v.kb_layout),
        plain_value(v.kb_variant),
        plain_value(v.kb_options),
        plain_value(sensitivity),
    ensures
        ({
            let block = new_block(v, sensitivity);
            let st = input_scan(block);
            &&& block.len() > 0
            &&& block.last().len() > 0
            &&& forall|j: int| 0 <= j < block.len() ==> !(#[trigger] block[j]).contains('\n') && strip_cr(block[j])
                == block[j] && gesture_digits(block[j]) is None
            &&& gesture_line(block, 0) is None
            &&& st.values == v
            &&& st.sensitivity == seq![sensitivity]
            &&& !st.swipe
            &&& st.depth == 0
        }),
{
    reveal_strlit("input {");
    reveal_strlit("input");
    reveal_strlit("{");
    reveal_strlit("}");
    let ups = input_updates(v, sensitivity);
    lemma_updates_plain(v, sensitivity);
    lemma_fresh_shape(ups);
    let empty = Seq::<char>::empty();
    let kept = kept_lines(Seq::<Seq<char>>::empty(), 0);
    assert(kept =~= Seq::<Seq<char>>::empty());
    let fresh = fresh_settings(ups);
    let head = seq![empty, "input {"@];
    let block = head + fresh + seq!["}"@];
    assert(with_input_block(kept, ups) =~= block);
    lemma_not_gesture(empty);
    lemma_lead_run("input {"@, 0, 0);
    lemma_not_gesture("input {"@);
    lemma_lead_run("}"@, 0, 0);
    lemma_not_gesture("}"@);
    assert forall|j: int| 0 <= j < block.len() implies !(#[trigger] block[j]).contains('\n') && strip_cr(block[j])
        == block[j] && gesture_digits(block[j]) is None by {
        if 2 <= j < 2 + fresh.len() {
            assert(block[j] == fresh[j - 2]);
        }
    }
    lemma_no_gesture_line(block, 0);
    // Reading the block: the empty line, the header, the settings, the end.
    let init = input_scan(Seq::<Seq<char>>::empty());
    lemma_scan_push(Seq::<Seq<char>>::empty(), empty);
    assert(seq![empty] =~= Seq::<Seq<char>>::empty().push(empty));
    assert(trim(empty) =~= empty);
    assert(input_scan(seq![empty]) == init);
    lemma_scan_push(seq![empty], "input {"@);
    assert(head =~= seq![empty].push("input {"@));
    crate::text::lemma_trim_fixed("input {"@);
    let s1 = input_scan(head);
    assert(s1.depth == 1 && s1.in_input && s1.values == init.values && s1.sensitivity == init.sensitivity
        && !s1.swipe);
    lemma_scan_fresh(head, ups);
    lemma_applied_updates(s1, v, sensitivity);
    let s2 = input_scan(head + fresh);
    lemma_scan_push(head + fresh, "}"@);
    assert(block =~= (head + fresh).push("}"@));
    crate::text::lemma_trim_fixed("}"@);
    assert(input_scan(block).values == s2.values);
}

/// Input settings saved into an empty configuration file are read back:
/// the values and the sensitivity text are the ones saved, and the swipe
/// gesture is off. This holds of texts the file carries as they are:
/// trimmed, without line breaks or `#`, and not ending in `{`.
pub proof fn lemma_saved_input_reads_back(v: InputValuesView, sensitivity: Seq<char>, fingers: i32)
    requires
        plain_value(v.kb_layout),
        plain_value(v.kb_variant),
        plain_value(v.kb_options),
        plain_value(sensitivity),
    ensures
        ({
            let st = input_scan(lines(saved_input_text(seq![], v, sensitivity, false, fingers)));
            &&& st.values == v
            &&& st.sensitivity == seq![sensitivity]
            &&& !st.swipe
        }),
{
    let empty = Seq::<char>::empty();
    assert(lines(empty) =~= Seq::<Seq<char>>::empty());
    lemma_new_block_read(v, sensitivity);
    let block = new_block(v, sensitivity);
    assert(with_gesture(block, false, fingers) == block);
    lemma_lines_of_join(block);
}

/// The `gesture` line written for a number of fingers that is not negative
/// reads as that number.
proof fn lemma_gesture_line_read(fingers: i32)
    requires
        fingers >= 0,
    ensures
        ({
            let gl = "gesture = "@ + int_text(fingers as int) + ", horizontal, workspace"@;
            &&& gl.len() > 0
            &&& !gl.contains('\n')
            &&& strip_cr(gl) == gl
            &&& trim(gl) == gl
            &&& !is_input_header(gl)
            &&& gesture_digits(gl) == Some(int_text(fingers as int))
        }),
{
    reveal_strlit("gesture = ");
    reveal_strlit(", horizontal, workspace");
    reveal_strlit("gesture");
    reveal_strlit("horizontal");
    reveal_strlit("workspace");
    reveal_strlit("input {");
    reveal_strlit("input");
    let d = int_text(fingers as int);
    lemma_nat_text(fingers as nat);
    assert(d == nat_text(fingers as nat));
    let n = d.len() as int;
    let gl = "gesture = "@ + d + ", horizontal, workspace"@;
    assert(gl.len() == 10 + n + 23);
    assert forall|k: int| 0 <= k < n implies is_digit(#[trigger] d[k]) && '0' <= d[k] <= '9' by {
        assert(is_digit(d[k]));
    }
    assert forall|k: int| 0 <= k < n implies gl[10 + k] == #[trigger] d[k] by {}
    assert(gl[0] == 'g' && gl[7] == ' ' && gl[8] == '=' && gl[9] == ' ');
    assert(gl[10 + n] == ',' && gl[10 + n + 1] == ' ' && gl[10 + n + 2] == 'h');
    assert(gl[10 + n + 12] == ',' && gl[10 + n + 13] == ' ' && gl[10 + n + 14] == 'w');
    assert(gl.last() == 'e');
    lemma_lead_run(gl, 0, 0);
    lemma_lead_run(gl, 7, 8);
    lemma_lead_run(gl, 9, 10);
    assert forall|k: int| 10 <= k < 10 + n implies decimal_digit(#[trigger] gl[k]) by {
        assert(gl[k] == d[k - 10]);
        assert('0' <= d[k - 10] <= '9');
    }
    lemma_nd_run(gl, 10, 10 + n);
    let e = 10 + n;
    lemma_lead_run(gl, e, e);
    lemma_lead_run(gl, e + 1, e + 2);
    lemma_lead_run(gl, e + 12, e + 12);
    lemma_lead_run(gl, e + 13, e + 14);
    assert(gl.subrange(0, 7) =~= "gesture"@);
    assert(gl.subrange(e + 2, e + 12) =~= "horizontal"@);
    assert(gl.subrange(e + 14, e + 23) =~= "workspace"@);
    assert(gl.subrange(10, e) =~= d);
    crate::text::lemma_trim_fixed(gl);
    assert(!gl.contains('\n')) by {
        if gl.contains('\n') {
            let k = choose|k: int| 0 <= k < gl.len() && gl[k] == '\n';
            if 10 <= k < e {
                assert(gl[k] == d[k - 10]);
                assert('0' <= d[k - 10] <= '9');
            }
        }
    }
    assert(!starts_with(gl, "input {"@)) by {
        if starts_with(gl, "input {"@) {
            assert(gl.take(7)[0] == gl[0]);
        }
    }
    assert(!starts_with(gl, "input"@)) by {
        if starts_with(gl, "input"@) {
            assert(gl.take(5)[0] == gl[0]);
        }
    }
}

/// The run of `\d` characters from `i` ends at `j`.
proof fn lemma_nd_run(s: Seq<char>, i: int, j: int)
    requires
        0 <= i <= j <= s.len(),
        forall|k: int| i <= k < j ==> decimal_digit(#[trigger] s[k]),
        j < s.len() ==> !decimal_digit(s[j]),
    ensures
        nd_end(s, i) == j,
    decreases j - i,
{
    if i < j {
        lemma_nd_run(s, i + 1, j);
    }
}

/// Input settings saved with the swipe gesture on, into an empty
/// configuration file, are read back: the values, the sensitivity text,
/// the swipe on and the number of fingers (not negative) saved.
pub proof fn lemma_saved_gesture_reads_back(v: InputValuesView, sensitivity: Seq<char>, fingers: i32)
    requires
        plain_value(v.kb_layout),
        plain_value(v.kb_variant),
        plain_value(v.kb_options),
        plain_value(sensitivity),
        fingers >= 0,
    ensures
        ({
            let st = input_scan(lines(saved_input_text(seq![], v, sensitivity, true, fingers)));
            &&& st.values == v
            &&& st.sensitivity == seq![sensitivity]
            &&& st.swipe
            &&& st.fingers == fingers
        }),
{
    let empty = Seq::<char>::empty();
    assert(lines(empty) =~= Seq::<Seq<char>>::empty());
    lemma_new_block_read(v, sensitivity);
    lemma_gesture_line_read(fingers);
    let block = new_block(v, sensitivity);
    let gl = "gesture = "@ + int_text(fingers as int) + ", horizontal, workspace"@;
    let all = block.push(gl);
    assert(with_gesture(block, true, fingers) == all);
    assert forall|j: int| 0 <= j < all.len() implies !(#[trigger] all[j]).contains('\n') && strip_cr(all[j])
        == all[j] by {
        if j < block.len() {
            assert(all[j] == block[j]);
        }
    }
    lemma_lines_of_join(all);
    lemma_scan_push(block, gl);
    lemma_int_text_round_trip(fingers);
}

// ---------------------------------------------------------------------------
// Saving into a file that already has an `input` block
// ---------------------------------------------------------------------------

/// The run of name characters from `i`: where it ends and what it holds.
proof fn lemma_name_end_facts(s: Seq<char>, i: int)
    requires
        0 <= i <= s.len(),
    ensures
        i <= name_end(s, i) <= s.len(),
        forall|k: int| i <= k < name_end(s, i) ==> is_name_char(#[trigger] s[k]),
        name_end(s, i) < s.len() ==> !is_name_char(s[name_end(s, i)]),
    decreases s.len() - i,
{
    if i < s.len() && is_name_char(s[i]) {
        lemma_name_end_facts(s, i + 1);
    }
}

/// A setting read from a trimmed line is the one the line holds: the same
/// name, and the value up to the line's trailing whitespace.
proof fn lemma_setting_of_trim(l: Seq<char>)
    ensures
        match setting_parts(l) {
            Some((a, b, d)) => setting_of(trim(l)) == Some((l.subrange(a, b), trim(l.skip(d)))),
            None => setting_of(trim(l)) is None,
        },
{
    let a0 = lead_from(l, 0);
    lemma_lead_from_bounds(l, 0);
    let z = trail_down(l, l.len() as int, a0);
    lemma_trail_down_bounds(l, l.len() as int, a0);
    let t = trim(l);
    assert(t == l.subrange(a0, z));
    if a0 == l.len() {
        assert(name_end(l, a0) == a0);
        assert(t.len() == 0);
        assert(name_end(t, 0) == 0);
        assert(lead_from(t, 0) == 0);
    } else {
        assert(!is_ws(l[a0]));
        assert(z > a0) by {
            if z == a0 {
                assert(is_ws(l[a0]));
            }
        }
        assert(!is_ws(l[z - 1]));
        assert(t[0] == l[a0]);
        lemma_lead_run(t, 0, 0);
        lemma_name_end_facts(l, a0);
        let b = name_end(l, a0);
        assert(b <= z) by {
            if b > z {
                assert(is_name_char(l[z]));
                assert(is_ws(l[z]));
            }
        }
        assert forall|k: int| 0 <= k < b - a0 implies is_name_char(#[trigger] t[k]) by {
            assert(t[k] == l[a0 + k]);
        }
        if b < z {
            assert(t[b - a0] == l[b]);
        }
        lemma_name_run(t, 0, b - a0);
        if b > a0 {
            lemma_lead_from_bounds(l, b);
            let c = lead_from(l, b);
            if c < l.len() {
                assert(c < z) by {
                    if c >= z {
                        assert(is_ws(l[c]));
                    }
                }
                assert forall|k: int| b - a0 <= k < c - a0 implies is_ws(#[trigger] t[k]) by {
                    assert(t[k] == l[a0 + k]);
                    assert(is_ws(l[a0 + k]));
                }
                assert(t[c - a0] == l[c]);
                lemma_lead_run(t, b - a0, c - a0);
                if l[c] == '=' {
                    lemma_lead_from_bounds(l, c + 1);
                    let d = lead_from(l, c + 1);
                    assert(t.subrange(0, b - a0) =~= l.subrange(a0, b));
                    if d < l.len() {
                        assert(d < z) by {
                            if d >= z {
                                assert(is_ws(l[d]));
                            }
                        }
                        assert forall|k: int| c + 1 - a0 <= k < d - a0 implies is_ws(#[trigger] t[k]) by {
                            assert(t[k] == l[a0 + k]);
                            assert(is_ws(l[a0 + k]));
                        }
                        assert(t[d - a0] == l[d]);
                        lemma_lead_run(t, c + 1 - a0, d - a0);
                        let u = l.subrange(d, z);
                        let post = l.subrange(z, l.len() as int);
                        assert(l.skip(d) =~= Seq::<char>::empty() + u + post);
                        assert forall|k: int| 0 <= k < post.len() implies is_ws(#[trigger] post[k]) by {
                            assert(post[k] == l[z + k]);
                            assert(is_ws(l[z + k]));
                        }
                        assert(u[0] == l[d]);
                        assert(u.last() == l[z - 1]);
                        lemma_trim_pad(Seq::<char>::empty(), u, post);
                        assert(t.skip(d - a0) =~= u);
                    } else {
                        assert(z == c + 1) by {
                            if z > c + 1 {
                                assert(is_ws(l[z - 1]));
                            }
                        }
                        lemma_lead_run(t, c + 1 - a0, t.len() as int);
                        assert(t.skip(t.len() as int) =~= Seq::<char>::empty());
                        assert(l.skip(d) =~= Seq::<char>::empty());
                        lemma_trim_fixed(Seq::<char>::empty());
                    }
                }
            } else {
                assert(z == b) by {
                    if z > b {
                        assert(is_ws(l[z - 1]));
                    }
                }
                lemma_lead_run(t, b - a0, t.len() as int);
            }
        }
    }
}

/// The name a `name = value` line sets (empty for another line).
spec fn setting_key(l: Seq<char>) -> Seq<char> {
    match setting_of(l) {
        Some((k, _)) => k,
        None => seq![],
    }
}

/// A setting line of the block rewritten with its new value is read as
/// that value: inside the `input` block, reading it sets the value. It
/// begins, after its indentation, with the setting's name, holds no line
/// break, and is no `gesture` line.
#[verifier::spinoff_prover]
#[verifier::rlimit(100)]
proof fn lemma_changed_read(st: InputScan, l: Seq<char>, ups: Seq<(Seq<char>, Seq<char>)>, val: Seq<char>)
    requires
        setting_parts(l) is Some,
        setting_name(setting_key(l)),
        value_for(ups, setting_key(l)) == Some(val),
        plain_value(val),
        !ends_with(trim(l), "{"@),
        !l.contains('\n'),
        st.depth > 0,
        st.in_input,
    ensures
        changed_line(l, ups) is Some,
        input_step(st, changed_line(l, ups)->0) == apply_input_setting(st, setting_key(l), val),
        !changed_line(l, ups)->0.contains('\n'),
        gesture_digits(changed_line(l, ups)->0) is None,
        gesture_digits(trim(changed_line(l, ups)->0)) is None,
{
    reveal_strlit("{");
    reveal_strlit("}");
    reveal_strlit("input {");
    reveal_strlit("input");
    let (a, b, d) = setting_parts(l)->0;
    let key = l.subrange(a, b);
    let c = lead_from(l, b);
    lemma_lead_from_bounds(l, 0);
    lemma_name_end_facts(l, a);
    lemma_lead_from_bounds(l, b);
    lemma_lead_from_bounds(l, c + 1);
    assert(l[c] == '=');
    let cm = comment_of(l);
    let sp: Seq<char> = if cm.len() > 0 {
        seq![' ']
    } else {
        seq![]
    };
    let c2 = l.take(d) + val + sp + cm;
    assert(changed_line(l, ups) == Some(c2));
    assert(key[0] == l[a]);
    assert(is_name_char(key[0]));
    // No `#` stands before the value.
    assert forall|k: int| 0 <= k < d implies l[k] != '#' by {
        if a <= k < b {
            assert(is_name_char(l[k]));
        }
    }
    crate::text::lemma_find_from(l, seq!['#'], 0);
    let kc: int = match crate::text::find_char(l, '#') {
        Some(k) => k,
        None => l.len() as int,
    };
    if cm.len() > 0 {
        assert(crate::text::find_char(l, '#') is Some);
        assert(occurs_at(l, seq!['#'], kc));
        assert(l.subrange(kc, kc + 1)[0] == l[kc]);
        assert(l[kc] == '#');
        assert(kc >= d);
        assert(cm == l.skip(kc));
    }
    // The line begins as the old one did.
    assert forall|k: int| 0 <= k < d implies c2[k] == l[k] by {}
    assert forall|k: int| 0 <= k < a implies is_ws(#[trigger] c2[k]) by {
        assert(c2[k] == l[k]);
    }
    lemma_lead_run(c2, 0, a);
    assert forall|k: int| a <= k < b implies is_name_char(#[trigger] c2[k]) by {
        assert(c2[k] == l[k]);
    }
    assert(c2[b] == l[b]);
    lemma_name_run(c2, a, b);
    assert forall|k: int| b <= k < c implies is_ws(#[trigger] c2[k]) by {
        assert(c2[k] == l[k]);
    }
    assert(c2[c] == '=');
    lemma_lead_run(c2, b, c);
    assert forall|k: int| c + 1 <= k < d implies is_ws(#[trigger] c2[k]) by {
        assert(c2[k] == l[k]);
    }
    assert(c2.subrange(a, b) =~= key);
    // Where the value begins, and what follows it.
    let d2: int = if val.len() > 0 {
        d
    } else if cm.len() > 0 {
        d + 1
    } else {
        d
    };
    if val.len() > 0 {
        crate::text::lemma_trimmed_ends(val);
        assert(c2[d] == val[0]);
        lemma_lead_run(c2, c + 1, d);
        assert(c2.skip(d) =~= val + sp + cm);
    } else if cm.len() > 0 {
        assert(c2[d] == ' ');
        assert(c2[d + 1] == '#');
        lemma_lead_run(c2, c + 1, d + 1);
        assert(c2.skip(d + 1) =~= cm);
    } else {
        assert(c2.len() == d);
        lemma_lead_run(c2, c + 1, d);
        assert(c2.skip(d) =~= Seq::<char>::empty());
    }
    assert(setting_parts(c2) == Some((a, b, d2)));
    lemma_setting_of_trim(c2);
    let tail = c2.skip(d2);
    let r = trim(tail);
    assert(setting_of(trim(c2)) == Some((key, r)));
    // The value read is the one written.
    if val.len() > 0 {
        if cm.len() > 0 {
            let q = val.len() as int + 1;
            assert(tail =~= val + seq![' '] + cm);
            assert(tail[q] == '#');
            let zt = trail_down(tail, tail.len() as int, 0);
            assert(lead_from(tail, 0) == 0);
            lemma_trail_down_bounds(tail, tail.len() as int, 0);
            assert(zt > q) by {
                if zt <= q {
                    assert(is_ws(tail[q]));
                }
            }
            assert(r == tail.subrange(0, zt));
            assert forall|k: int| 0 <= k < q implies r[k] != '#' by {
                assert(r[k] == tail[k]);
                if k < val.len() {
                    assert(tail[k] == val[k]);
                    assert(val.contains(val[k]));
                }
            }
            assert(r[q] == '#');
            crate::readback::lemma_first_hash(r, q);
            assert(before_char(r, '#') =~= val + seq![' ']);
            lemma_trim_pad(Seq::<char>::empty(), val, seq![' ']);
            assert(Seq::<char>::empty() + val + seq![' '] =~= val + seq![' ']);
        } else {
            assert(tail =~= val);
            assert(r == val);
            lemma_find_char_absent(val, '#');
        }
    } else if cm.len() > 0 {
        assert(tail[0] == '#');
        let zt = trail_down(tail, tail.len() as int, 0);
        assert(lead_from(tail, 0) == 0);
        lemma_trail_down_bounds(tail, tail.len() as int, 0);
        assert(zt > 0) by {
            if zt == 0 {
                assert(is_ws(tail[0]));
            }
        }
        assert(r[0] == '#');
        crate::readback::lemma_first_hash(r, 0);
        assert(before_char(r, '#') =~= Seq::<char>::empty());
        lemma_trim_fixed(Seq::<char>::empty());
        assert(val =~= Seq::<char>::empty());
    } else {
        assert(tail =~= Seq::<char>::empty());
        lemma_trim_fixed(Seq::<char>::empty());
        lemma_find_char_absent(Seq::<char>::empty(), '#');
        assert(val =~= Seq::<char>::empty());
    }
    // The trimmed line: from the name to the last character that is not
    // whitespace.
    let pre = c2.take(a);
    assert forall|k: int| 0 <= k < pre.len() implies is_ws(#[trigger] pre[k]) by {
        assert(pre[k] == l[k]);
    }
    let m: int = if cm.len() > 0 {
        let zl = trail_down(l, l.len() as int, a);
        d + val.len() + 1 + (zl - kc)
    } else if val.len() > 0 {
        c2.len() as int
    } else {
        c + 1
    };
    if cm.len() > 0 {
        let zl = trail_down(l, l.len() as int, a);
        lemma_trail_down_bounds(l, l.len() as int, a);
        assert(zl > kc) by {
            if zl <= kc {
                assert(is_ws(l[kc]));
            }
        }
        let o = d + val.len() + 1 - kc;
        assert forall|k: int| kc <= k < l.len() implies c2[o + k] == l[k] by {}
        assert(c2.len() == o + l.len());
        assert(c2[m - 1] == l[zl - 1]);
        assert(trim(l) == l.subrange(a, zl));
        assert(trim(l).last() == l[zl - 1]);
        assert(l[zl - 1] != '{') by {
            if l[zl - 1] == '{' {
                assert("{"@ =~= seq!['{']);
                assert(trim(l).len() >= 1);
                assert(trim(l).skip(trim(l).len() - 1) =~= seq!['{']);
                assert(ends_with(trim(l), "{"@));
            }
        }
        assert forall|k: int| m <= k < c2.len() implies is_ws(#[trigger] c2[k]) by {
            assert(c2[k] == l[k - o]);
            assert(is_ws(l[k - o]));
        }
    } else if val.len() > 0 {
        crate::text::lemma_trimmed_ends(val);
        assert(c2[m - 1] == val.last());
    } else {
        assert(c2[m - 1] == '=');
        assert forall|k: int| m <= k < c2.len() implies is_ws(#[trigger] c2[k]) by {
            assert(c2[k] == l[k]);
        }
    }
    let u = c2.subrange(a, m);
    let post = c2.skip(m);
    assert forall|k: int| 0 <= k < post.len() implies is_ws(#[trigger] post[k]) by {
        assert(post[k] == c2[m + k]);
    }
    assert(c2 =~= pre + u + post);
    assert(u[0] == key[0]);
    assert(u.last() == c2[m - 1]);
    lemma_trim_pad(pre, u, post);
    assert(trim(c2) == u);
    assert(u.last() != '{');
    assert(!ends_with(u, "{"@)) by {
        if ends_with(u, "{"@) {
            assert(u.skip(u.len() - 1)[0] == u.last());
        }
    }
    assert(!starts_with(u, "input {"@)) by {
        if starts_with(u, "input {"@) {
            assert(u.take(7)[0] == u[0]);
        }
    }
    assert(!starts_with(u, "input"@)) by {
        if starts_with(u, "input"@) {
            assert(u.take(5)[0] == u[0]);
        }
    }
    assert(u != "}"@) by {
        if u == "}"@ {
            assert(u[0] == '}');
        }
    }
    // The shape of the line.
    assert(!c2.contains('\n')) by {
        if c2.contains('\n') {
            let k = choose|k: int| 0 <= k < c2.len() && c2[k] == '\n';
            if k < d {
                assert(l[k] == '\n');
            } else if k < d + val.len() {
                assert(val[k - d] == '\n');
            } else if k < d + val.len() + sp.len() {
                assert(c2[k] == ' ');
            } else {
                assert(cm[k - d - val.len() - sp.len()] == '\n');
                assert(l[kc + (k - d - val.len() - sp.len())] == '\n');
            }
        }
    }
    lemma_not_gesture(c2);
    lemma_lead_run(u, 0, 0);
    lemma_not_gesture(u);
}

/// The value saving gives each name: the saved settings' names get theirs,
/// other names none.
proof fn lemma_value_for_updates(v: InputValuesView, sensitivity: Seq<char>, key: Seq<char>)
    ensures
        value_for(input_updates(v, sensitivity), key) == (if key == "kb_layout"@ {
            Some(v.kb_layout)
        } else if key == "kb_variant"@ {
            Some(v.kb_variant)
        } else if key == "kb_options"@ {
            Some(v.kb_options)
        } else if key == "follow_mouse"@ {
            Some(int_text(v.follow_mouse as int))
        } else if key == "sensitivity"@ {
            Some(sensitivity)
        } else if key == "repeat_rate"@ {
            Some(int_text(v.repeat_rate as int))
        } else if key == "repeat_delay"@ {
            Some(int_text(v.repeat_delay as int))
        } else {
            None
        }),
{
    let ups = input_updates(v, sensitivity);
    let u1 = ups.drop_first();
    let u2 = u1.drop_first();
    let u3 = u2.drop_first();
    let u4 = u3.drop_first();
    let u5 = u4.drop_first();
    let u6 = u5.drop_first();
    let u7 = u6.drop_first();
    assert(ups[0] == ("kb_layout"@, v.kb_layout));
    assert(u1[0] == ("kb_variant"@, v.kb_variant));
    assert(u2[0] == ("kb_options"@, v.kb_options));
    assert(u3[0] == ("follow_mouse"@, int_text(v.follow_mouse as int)));
    assert(u4[0] == ("sensitivity"@, sensitivity));
    assert(u5[0] == ("repeat_rate"@, int_text(v.repeat_rate as int)));
    assert(u6[0] == ("repeat_delay"@, int_text(v.repeat_delay as int)));
    assert(u7.len() == 0);
    assert(value_for(u7, key) is None);
    assert(value_for(u6, key) == if u6[0].0 == key { Some(u6[0].1) } else { value_for(u7, key) });
    assert(value_for(u5, key) == if u5[0].0 == key { Some(u5[0].1) } else { value_for(u6, key) });
    assert(value_for(u4, key) == if u4[0].0 == key { Some(u4[0].1) } else { value_for(u5, key) });
    assert(value_for(u3, key) == if u3[0].0 == key { Some(u3[0].1) } else { value_for(u4, key) });
    assert(value_for(u2, key) == if u2[0].0 == key { Some(u2[0].1) } else { value_for(u3, key) });
    assert(value_for(u1, key) == if u1[0].0 == key { Some(u1[0].1) } else { value_for(u2, key) });
    assert(value_for(ups, key) == if ups[0].0 == key { Some(ups[0].1) } else { value_for(u1, key) });
}

/// The saved settings' names are told apart by one character.
proof fn lemma_saved_names_differ()
    ensures
        "kb_layout"@ != "kb_variant"@,
        "kb_layout"@ != "kb_options"@,
        "kb_variant"@ != "kb_options"@,
        "follow_mouse"@ != "repeat_delay"@,
        "sensitivity"@ != "repeat_rate"@,
        "kb_layout"@.len() == 9,
        "kb_variant"@.len() == 10,
        "kb_options"@.len() == 10,
        "follow_mouse"@.len() == 12,
        "sensitivity"@.len() == 11,
        "repeat_rate"@.len() == 11,
        "repeat_delay"@.len() == 12,
{
    reveal_strlit("kb_layout");
    reveal_strlit("kb_variant");
    reveal_strlit("kb_options");
    reveal_strlit("follow_mouse");
    reveal_strlit("sensitivity");
    reveal_strlit("repeat_rate");
    reveal_strlit("repeat_delay");
    assert("kb_layout"@.len() != "kb_variant"@.len());
    assert("kb_layout"@.len() != "kb_options"@.len());
    assert("kb_variant"@[3] != "kb_options"@[3]);
    assert("follow_mouse"@[0] != "repeat_delay"@[0]);
    assert("sensitivity"@[0] != "repeat_rate"@[0]);
}

/// Some line between `s` and `j + 1` sets `k`: one before `j` does, or
/// line `j` does.
proof fn lemma_sets_key_step(ls: Seq<Seq<char>>, s: int, j: int)
    requires
        s < j,
    ensures
        forall|k: Seq<char>|
            #[trigger] sets_key(ls, s, j + 1, k) == (sets_key(ls, s, j, k) || (setting_of(ls[j]) is Some
                && setting_key(ls[j]) == k)),
{
    assert forall|k: Seq<char>|
        #[trigger] sets_key(ls, s, j + 1, k) == (sets_key(ls, s, j, k) || (setting_of(ls[j]) is Some
            && setting_key(ls[j]) == k)) by {
        if sets_key(ls, s, j + 1, k) {
            let i = choose|i: int|
                s < i < j + 1 && (#[trigger] setting_of(ls[i])) is Some && setting_of(ls[i]).unwrap().0 == k;
            if i < j {
                assert(sets_key(ls, s, j, k));
            }
        }
        if sets_key(ls, s, j, k) {
            let i = choose|i: int|
                s < i < j && (#[trigger] setting_of(ls[i])) is Some && setting_of(ls[i]).unwrap().0 == k;
            assert(s < i < j + 1);
        }
        if setting_of(ls[j]) is Some && setting_key(ls[j]) == k {
            assert(setting_of(ls[j]).unwrap().0 == k);
            assert(sets_key(ls, s, j + 1, k));
        }
    }
}

/// The values read so far inside the block: those of the names set by the
/// lines read (from `s` up to `j`), the first values elsewhere.
spec fn body_values(ls: Seq<Seq<char>>, s: int, j: int, v: InputValuesView) -> InputValuesView {
    InputValuesView {
        kb_layout: if sets_key(ls, s, j, "kb_layout"@) {
            v.kb_layout
        } else {
            seq![]
        },
        kb_variant: if sets_key(ls, s, j, "kb_variant"@) {
            v.kb_variant
        } else {
            seq![]
        },
        kb_options: if sets_key(ls, s, j, "kb_options"@) {
            v.kb_options
        } else {
            seq![]
        },
        follow_mouse: if sets_key(ls, s, j, "follow_mouse"@) {
            v.follow_mouse
        } else {
            1
        },
        repeat_rate: if sets_key(ls, s, j, "repeat_rate"@) {
            v.repeat_rate
        } else {
            25
        },
        repeat_delay: if sets_key(ls, s, j, "repeat_delay"@) {
            v.repeat_delay
        } else {
            600
        },
    }
}

/// Reading inside the block, up to line `j`.
spec fn reading_block(
    st: InputScan,
    ls: Seq<Seq<char>>,
    s: int,
    j: int,
    v: InputValuesView,
    sensitivity: Seq<char>,
    swipe: bool,
    fingers: i32,
) -> bool {
    &&& st.depth == 1
    &&& st.in_input
    &&& st.values == body_values(ls, s, j, v)
    &&& forall|i: int| 0 <= i < st.sensitivity.len() ==> st.sensitivity[i] == sensitivity
    &&& st.swipe == swipe
    &&& st.fingers == fingers
}

/// A line of the block as saving writes it: rewritten when it sets a saved
/// name, else as it was.
spec fn body_line(l: Seq<char>, ups: Seq<(Seq<char>, Seq<char>)>) -> Seq<char> {
    match changed_line(l, ups) {
        Some(c) => c,
        None => l,
    }
}

/// The values saving writes are carried as they are.
spec fn plain_values(v: InputValuesView, sensitivity: Seq<char>) -> bool {
    &&& plain_value(v.kb_layout)
    &&& plain_value(v.kb_variant)
    &&& plain_value(v.kb_options)
    &&& plain_value(sensitivity)
}

/// A line of the block that neither opens nor closes a block, and holds no
/// line break.
spec fn inner_line(l: Seq<char>) -> bool {
    &&& !is_input_header(trim(l))
    &&& trim(l) != "}"@
    &&& !ends_with(trim(l), "{"@)
    &&& !l.contains('\n')
}

/// Reading a line of the block as saving writes it keeps reading the
/// block, with the name it sets (if a saved one) now set.
#[verifier::spinoff_prover]
#[verifier::rlimit(60)]
proof fn lemma_body_step(
    st: InputScan,
    ls: Seq<Seq<char>>,
    s: int,
    j: int,
    v: InputValuesView,
    sensitivity: Seq<char>,
    swipe: bool,
    fingers: i32,
)
    requires
        0 <= s < j < ls.len(),
        reading_block(st, ls, s, j, v, sensitivity, swipe, fingers),
        plain_values(v, sensitivity),
        inner_line(ls[j]),
    ensures
        reading_block(
            input_step(st, body_line(ls[j], input_updates(v, sensitivity))),
            ls,
            s,
            j + 1,
            v,
            sensitivity,
            swipe,
            fingers,
        ),
        !body_line(ls[j], input_updates(v, sensitivity)).contains('\n'),
{
    let ups = input_updates(v, sensitivity);
    let l = ls[j];
    lemma_sets_key_step(ls, s, j);
    lemma_saved_names_differ();
    lemma_setting_of_trim(l);
    let key = setting_key(l);
    lemma_value_for_updates(v, sensitivity, key);
    assert(sets_key(ls, s, j + 1, "kb_layout"@) == (sets_key(ls, s, j, "kb_layout"@) || (setting_of(l) is Some && key == "kb_layout"@)));
    assert(sets_key(ls, s, j + 1, "kb_variant"@) == (sets_key(ls, s, j, "kb_variant"@) || (setting_of(l) is Some && key == "kb_variant"@)));
    assert(sets_key(ls, s, j + 1, "kb_options"@) == (sets_key(ls, s, j, "kb_options"@) || (setting_of(l) is Some && key == "kb_options"@)));
    assert(sets_key(ls, s, j + 1, "follow_mouse"@) == (sets_key(ls, s, j, "follow_mouse"@) || (setting_of(l) is Some && key == "follow_mouse"@)));
    assert(sets_key(ls, s, j + 1, "repeat_rate"@) == (sets_key(ls, s, j, "repeat_rate"@) || (setting_of(l) is Some && key == "repeat_rate"@)));
    assert(sets_key(ls, s, j + 1, "repeat_delay"@) == (sets_key(ls, s, j, "repeat_delay"@) || (setting_of(l) is Some && key == "repeat_delay"@)));
    match changed_line(l, ups) {
        Some(c) => {
            let val = value_for(ups, key)->0;
            assert(value_for(ups, key) == Some(val));
            lemma_updates_plain(v, sensitivity);
            assert(setting_name(key) && plain_value(val)) by {
                if key == "kb_layout"@ {
                    assert(ups[0].0 == key);
                } else if key == "kb_variant"@ {
                    assert(ups[1].0 == key);
                } else if key == "kb_options"@ {
                    assert(ups[2].0 == key);
                } else if key == "follow_mouse"@ {
                    assert(ups[3].0 == key);
                } else if key == "sensitivity"@ {
                    assert(ups[4].0 == key);
                } else if key == "repeat_rate"@ {
                    assert(ups[5].0 == key);
                } else {
                    assert(ups[6].0 == key);
                }
            }
            lemma_changed_read(st, l, ups, val);
            lemma_int_text_round_trip(v.follow_mouse);
            lemma_int_text_round_trip(v.repeat_rate);
            lemma_int_text_round_trip(v.repeat_delay);
            let st2 = input_step(st, c);
            assert(st2 == apply_input_setting(st, key, val));
            assert(setting_of(l) is Some);
            assert(st2.values == body_values(ls, s, j + 1, v));
            if key == "sensitivity"@ {
                assert forall|i: int| 0 <= i < st2.sensitivity.len() implies st2.sensitivity[i] == sensitivity by {
                    if i < st.sensitivity.len() {
                        assert(st2.sensitivity[i] == st.sensitivity[i]);
                    }
                }
            }
        },
        None => {
            assert(body_line(l, ups) == l);
            assert(input_step(st, l) == st) by {
                reveal_strlit("{");
                match setting_of(trim(l)) {
                    Some((k, r)) => {
                        assert(k == key);
                        assert(value_for(ups, key) is None);
                    },
                    None => {},
                }
            }
            assert(st.values == body_values(ls, s, j + 1, v));
        },
    }
}

/// Reading the lines `ys` one after the other from the state `st`.
spec fn scan_on(st: InputScan, ys: Seq<Seq<char>>) -> InputScan
    decreases ys.len(),
{
    if ys.len() == 0 {
        st
    } else {
        input_step(scan_on(st, ys.drop_last()), ys.last())
    }
}

/// Reading two runs of lines is reading the first, then the second.
proof fn lemma_scan_on_concat(st: InputScan, a: Seq<Seq<char>>, b: Seq<Seq<char>>)
    ensures
        scan_on(st, a + b) == scan_on(scan_on(st, a), b),
    decreases b.len(),
{
    if b.len() == 0 {
        assert(a + b =~= a);
    } else {
        lemma_scan_on_concat(st, a, b.drop_last());
        assert((a + b).drop_last() =~= a + b.drop_last());
        assert((a + b).last() == b.last());
    }
}

/// Reading a file is reading its lines from the first state.
proof fn lemma_scan_is_on(xs: Seq<Seq<char>>)
    ensures
        input_scan(xs) == scan_on(input_scan(Seq::<Seq<char>>::empty()), xs),
    decreases xs.len(),
{
    if xs.len() > 0 {
        lemma_scan_is_on(xs.drop_last());
    }
}

/// The lines of the block as saving writes them, from line `s + 1` on.
spec fn body_lines(ls: Seq<Seq<char>>, s: int, e: int, ups: Seq<(Seq<char>, Seq<char>)>) -> Seq<Seq<char>> {
    Seq::new((e - s - 1) as nat, |k: int| body_line(ls[s + 1 + k], ups))
}

/// Reading the block's lines as saving writes them sets the values of the
/// saved names that the block sets.
proof fn lemma_body_run(
    st: InputScan,
    ls: Seq<Seq<char>>,
    s: int,
    e: int,
    n: int,
    v: InputValuesView,
    sensitivity: Seq<char>,
    swipe: bool,
    fingers: i32,
)
    requires
        0 <= s < e <= ls.len(),
        0 <= n <= e - s - 1,
        reading_block(st, ls, s, s + 1, v, sensitivity, swipe, fingers),
        plain_values(v, sensitivity),
        forall|j: int| s < j < e ==> inner_line(#[trigger] ls[j]),
    ensures
        reading_block(
            scan_on(st, body_lines(ls, s, e, input_updates(v, sensitivity)).take(n)),
            ls,
            s,
            s + 1 + n,
            v,
            sensitivity,
            swipe,
            fingers,
        ),
    decreases n,
{
    let ups = input_updates(v, sensitivity);
    let c = body_lines(ls, s, e, ups);
    if n == 0 {
        assert(c.take(0) =~= Seq::<Seq<char>>::empty());
    } else {
        lemma_body_run(st, ls, s, e, n - 1, v, sensitivity, swipe, fingers);
        assert(c.take(n).drop_last() =~= c.take(n - 1));
        assert(c.take(n).last() == body_line(ls[s + n], ups));
        assert(inner_line(ls[s + n]));
        lemma_body_step(
            scan_on(st, c.take(n - 1)),
            ls,
            s,
            s + n,
            v,
            sensitivity,
            swipe,
            fingers,
        );
    }
}

/// The settings added before the block's `}` read in order: each added
/// one (a saved name the block does not set, with a value) is applied.
spec fn added_applied(
    st: InputScan,
    ls: Seq<Seq<char>>,
    s: int,
    e: int,
    ups: Seq<(Seq<char>, Seq<char>)>,
) -> InputScan
    decreases ups.len(),
{
    if ups.len() == 0 {
        st
    } else {
        let st1 = if !sets_key(ls, s, e, ups[0].0) && ups[0].1.len() > 0 {
            apply_input_setting(st, ups[0].0, ups[0].1)
        } else {
            st
        };
        added_applied(st1, ls, s, e, ups.drop_first())
    }
}

/// Reading the settings added to the block applies them in order; the
/// lines hold no line break and are no `gesture` lines.
proof fn lemma_scan_added(
    st: InputScan,
    ls: Seq<Seq<char>>,
    s: int,
    e: int,
    ups: Seq<(Seq<char>, Seq<char>)>,
)
    requires
        st.depth > 0,
        st.in_input,
        forall|i: int| 0 <= i < ups.len() ==> setting_name((#[trigger] ups[i]).0) && plain_value(ups[i].1),
    ensures
        scan_on(st, added_settings(ls, s, e, ups)) == added_applied(st, ls, s, e, ups),
        forall|j: int|
            0 <= j < added_settings(ls, s, e, ups).len() ==> !(#[trigger] added_settings(ls, s, e, ups)[j]).contains(
                '\n',
            ) && gesture_digits(added_settings(ls, s, e, ups)[j]) is None && gesture_digits(
                trim(added_settings(ls, s, e, ups)[j]),
            ) is None,
    decreases ups.len(),
{
    let a = added_settings(ls, s, e, ups);
    if ups.len() == 0 {
        assert(a =~= Seq::<Seq<char>>::empty());
    } else {
        let rest = ups.drop_first();
        assert forall|i: int| 0 <= i < rest.len() implies setting_name((#[trigger] rest[i]).0) && plain_value(
            rest[i].1,
        ) by {
            assert(rest[i] == ups[i + 1]);
        }
        assert(setting_name(ups[0].0) && plain_value(ups[0].1));
        let ar = added_settings(ls, s, e, rest);
        if !sets_key(ls, s, e, ups[0].0) && ups[0].1.len() > 0 {
            let line = setting_text(ups[0].0, ups[0].1);
            assert(a =~= seq![line] + ar);
            lemma_setting_step(st, ups[0].0, ups[0].1);
            lemma_scan_on_concat(st, seq![line], ar);
            assert(seq![line].drop_last() =~= Seq::<Seq<char>>::empty());
            assert(scan_on(st, Seq::<Seq<char>>::empty()) == st);
            assert(scan_on(st, seq![line]) == input_step(scan_on(st, seq![line].drop_last()), seq![line].last()));
            assert(scan_on(st, seq![line]) == input_step(st, line));
            let st1 = apply_input_setting(st, ups[0].0, ups[0].1);
            lemma_scan_added(st1, ls, s, e, rest);
            lemma_setting_line_shape(ups[0].0, ups[0].1);
            lemma_setting_trim(ups[0].0, ups[0].1);
            let t = trim(line);
            assert(t[0] == ups[0].0[0]);
            assert(is_name_char(ups[0].0[0]));
            lemma_lead_run(t, 0, 0);
            lemma_not_gesture(t);
            assert forall|j: int| 0 <= j < a.len() implies !(#[trigger] a[j]).contains('\n') && gesture_digits(a[j])
                is None && gesture_digits(trim(a[j])) is None by {
                if j > 0 {
                    assert(a[j] == ar[j - 1]);
                }
            }
        } else {
            assert(a =~= ar);
            lemma_scan_added(st, ls, s, e, rest);
        }
    }
}

/// The settings added to the block after its own lines were read give the
/// values saved: each saved name is set by the block or added, or its
/// value is empty like the first value.
#[verifier::spinoff_prover]
#[verifier::rlimit(60)]
proof fn lemma_added_updates(
    st: InputScan,
    ls: Seq<Seq<char>>,
    s: int,
    e: int,
    v: InputValuesView,
    sensitivity: Seq<char>,
    swipe: bool,
    fingers: i32,
)
    requires
        reading_block(st, ls, s, e, v, sensitivity, swipe, fingers),
    ensures
        ({
            let r = added_applied(st, ls, s, e, input_updates(v, sensitivity));
            &&& r.depth == 1
            &&& r.in_input
            &&& r.values == v
            &&& forall|i: int| 0 <= i < r.sensitivity.len() ==> r.sensitivity[i] == sensitivity
            &&& r.swipe == swipe
            &&& r.fingers == fingers
        }),
{
    lemma_saved_names_differ();
    lemma_int_text_round_trip(v.follow_mouse);
    lemma_int_text_round_trip(v.repeat_rate);
    lemma_int_text_round_trip(v.repeat_delay);
    lemma_int_text_chars(v.follow_mouse as int);
    lemma_int_text_chars(v.repeat_rate as int);
    lemma_int_text_chars(v.repeat_delay as int);
    let ups = input_updates(v, sensitivity);
    let u1 = ups.drop_first();
    let u2 = u1.drop_first();
    let u3 = u2.drop_first();
    let u4 = u3.drop_first();
    let u5 = u4.drop_first();
    let u6 = u5.drop_first();
    let u7 = u6.drop_first();
    assert(u7.len() == 0);
    assert(ups[0] == ("kb_layout"@, v.kb_layout));
    assert(u1[0] == ("kb_variant"@, v.kb_variant));
    assert(u2[0] == ("kb_options"@, v.kb_options));
    assert(u3[0] == ("follow_mouse"@, int_text(v.follow_mouse as int)));
    assert(u4[0] == ("sensitivity"@, sensitivity));
    assert(u5[0] == ("repeat_rate"@, int_text(v.repeat_rate as int)));
    assert(u6[0] == ("repeat_delay"@, int_text(v.repeat_delay as int)));
    let s1 = if !sets_key(ls, s, e, "kb_layout"@) && v.kb_layout.len() > 0 {
        apply_input_setting(st, "kb_layout"@, v.kb_layout)
    } else {
        st
    };
    assert(added_applied(st, ls, s, e, ups) == added_applied(s1, ls, s, e, u1));
    assert(s1.values.kb_layout == v.kb_layout);
    let s2 = if !sets_key(ls, s, e, "kb_variant"@) && v.kb_variant.len() > 0 {
        apply_input_setting(s1, "kb_variant"@, v.kb_variant)
    } else {
        s1
    };
    assert(added_applied(s1, ls, s, e, u1) == added_applied(s2, ls, s, e, u2));
    assert(s2.values.kb_variant == v.kb_variant);
    let s3 = if !sets_key(ls, s, e, "kb_options"@) && v.kb_options.len() > 0 {
        apply_input_setting(s2, "kb_options"@, v.kb_options)
    } else {
        s2
    };
    assert(added_applied(s2, ls, s, e, u2) == added_applied(s3, ls, s, e, u3));
    assert(s3.values.kb_options == v.kb_options);
    let s4 = if !sets_key(ls, s, e, "follow_mouse"@) {
        apply_input_setting(s3, "follow_mouse"@, int_text(v.follow_mouse as int))
    } else {
        s3
    };
    assert(added_applied(s3, ls, s, e, u3) == added_applied(s4, ls, s, e, u4));
    let s5 = if !sets_key(ls, s, e, "sensitivity"@) && sensitivity.len() > 0 {
        apply_input_setting(s4, "sensitivity"@, sensitivity)
    } else {
        s4
    };
    assert(added_applied(s4, ls, s, e, u4) == added_applied(s5, ls, s, e, u5));
    assert forall|i: int| 0 <= i < s5.sensitivity.len() implies s5.sensitivity[i] == sensitivity by {
        if i < s4.sensitivity.len() {
            assert(s5.sensitivity[i] == s4.sensitivity[i]);
        }
    }
    let s6 = if !sets_key(ls, s, e, "repeat_rate"@) {
        apply_input_setting(s5, "repeat_rate"@, int_text(v.repeat_rate as int))
    } else {
        s5
    };
    assert(added_applied(s5, ls, s, e, u5) == added_applied(s6, ls, s, e, u6));
    let s7 = if !sets_key(ls, s, e, "repeat_delay"@) {
        apply_input_setting(s6, "repeat_delay"@, int_text(v.repeat_delay as int))
    } else {
        s6
    };
    assert(added_applied(s6, ls, s, e, u6) == added_applied(s7, ls, s, e, u7));
    assert(added_applied(s7, ls, s, e, u7) == s7);
    assert(s7.values == v);
}

/// The initial values, before any setting is read.
spec fn first_values() -> InputValuesView {
    input_scan(Seq::<Seq<char>>::empty()).values
}

/// The lines of the block as saving writes them: its opening line, its own
/// lines rewritten, the settings added, its `}`.
spec fn saved_block(ls: Seq<Seq<char>>, s: int, e: int, ups: Seq<(Seq<char>, Seq<char>)>) -> Seq<Seq<char>> {
    seq![ls[s]] + body_lines(ls, s, e, ups) + added_settings(ls, s, e, ups) + seq![ls[e]]
}

/// Reading the block as saving writes it, from outside any block with the
/// first values, gives the values saved, ends outside any block, and
/// leaves the gesture as it was. Its lines hold no line break, and none
/// but those of the file is a `gesture` line.
#[verifier::spinoff_prover]
proof fn lemma_block_read(
    st: InputScan,
    ls: Seq<Seq<char>>,
    s: int,
    e: int,
    v: InputValuesView,
    sensitivity: Seq<char>,
)
    requires
        0 <= s < e < ls.len(),
        is_input_header(trim(ls[s])),
        trim(ls[e]) == "}"@,
        forall|j: int| s < j < e ==> inner_line(#[trigger] ls[j]),
        forall|j: int| s < j < e ==> !is_gesture_line(#[trigger] ls[j]),
        st.values == first_values(),
        forall|i: int| 0 <= i < st.sensitivity.len() ==> st.sensitivity[i] == sensitivity,
        plain_values(v, sensitivity),
    ensures
        ({
            let r = scan_on(st, saved_block(ls, s, e, input_updates(v, sensitivity)));
            &&& r.depth == 0
            &&& !r.in_input
            &&& r.values == v
            &&& forall|i: int| 0 <= i < r.sensitivity.len() ==> r.sensitivity[i] == sensitivity
            &&& r.swipe == st.swipe
            &&& r.fingers == st.fingers
        }),
        forall|j: int|
            0 < j < saved_block(ls, s, e, input_updates(v, sensitivity)).len() - 1 ==> !(#[trigger] saved_block(
                ls,
                s,
                e,
                input_updates(v, sensitivity),
            )[j]).contains('\n') && !is_gesture_line(saved_block(ls, s, e, input_updates(v, sensitivity))[j]),
{
    reveal_strlit("}");
    reveal_strlit("input {");
    reveal_strlit("input");
    let ups = input_updates(v, sensitivity);
    let c = body_lines(ls, s, e, ups);
    let a = added_settings(ls, s, e, ups);
    let blk = saved_block(ls, s, e, ups);
    let h = seq![ls[s]];
    assert(scan_on(st, h) == input_step(scan_on(st, h.drop_last()), ls[s]));
    assert(h.drop_last() =~= Seq::<Seq<char>>::empty());
    let st1 = input_step(st, ls[s]);
    assert(st1 == InputScan { in_input: true, depth: 1, ..st });
    assert(reading_block(st1, ls, s, s + 1, v, sensitivity, st.swipe, st.fingers));
    lemma_body_run(st1, ls, s, e, e - s - 1, v, sensitivity, st.swipe, st.fingers);
    assert(c.take(e - s - 1) =~= c);
    let st2 = scan_on(st1, c);
    lemma_scan_on_concat(st, h, c);
    lemma_updates_plain(v, sensitivity);
    lemma_scan_added(st2, ls, s, e, ups);
    lemma_added_updates(st2, ls, s, e, v, sensitivity, st.swipe, st.fingers);
    let st3 = scan_on(st2, a);
    lemma_scan_on_concat(st, h + c, a);
    let z = seq![ls[e]];
    lemma_scan_on_concat(st, h + c + a, z);
    assert(z.drop_last() =~= Seq::<Seq<char>>::empty());
    assert(scan_on(st3, z) == input_step(scan_on(st3, z.drop_last()), ls[e]));
    assert(!is_input_header(trim(ls[e]))) by {
        assert(trim(ls[e]).len() == 1);
    }
    // The shape of the lines between the first and the last.
    assert forall|j: int| 0 < j < blk.len() - 1 implies !(#[trigger] blk[j]).contains('\n') && !is_gesture_line(
        blk[j],
    ) by {
        if j <= c.len() {
            let k = j - 1;
            assert(blk[j] == c[k]);
            let l = ls[s + 1 + k];
            assert(inner_line(l) && !is_gesture_line(l));
            match changed_line(l, ups) {
                Some(cl) => {
                    let key = setting_key(l);
                    lemma_value_for_updates(v, sensitivity, key);
                    let val = value_for(ups, key)->0;
                    assert(setting_name(key) && plain_value(val)) by {
                        lemma_saved_names_differ();
                        if key == "kb_layout"@ {
                            assert(ups[0].0 == key);
                        } else if key == "kb_variant"@ {
                            assert(ups[1].0 == key);
                        } else if key == "kb_options"@ {
                            assert(ups[2].0 == key);
                        } else if key == "follow_mouse"@ {
                            assert(ups[3].0 == key);
                        } else if key == "sensitivity"@ {
                            assert(ups[4].0 == key);
                        } else if key == "repeat_rate"@ {
                            assert(ups[5].0 == key);
                        } else {
                            assert(ups[6].0 == key);
                        }
                    }
                    lemma_changed_read(st1, l, ups, val);
                },
                None => {},
            }
        } else {
            assert(blk[j] == a[j - 1 - c.len()]);
        }
    }
}

/// A `gesture = N, horizontal, workspace` line.
pub open spec fn is_gesture_line(l: Seq<char>) -> bool {
    gesture_digits(l) is Some
}

/// Lines read outside any block, none of which opens the `input` block,
/// leave the values and stay outside; without `gesture` lines among them
/// they leave the gesture too.
proof fn lemma_outside_run(st: InputScan, ys: Seq<Seq<char>>)
    requires
        st.depth == 0,
        !st.in_input,
        forall|i: int| 0 <= i < ys.len() ==> !is_input_header(trim(#[trigger] ys[i])),
    ensures
        scan_on(st, ys).depth == 0,
        !scan_on(st, ys).in_input,
        scan_on(st, ys).values == st.values,
        scan_on(st, ys).sensitivity == st.sensitivity,
        (forall|i: int| 0 <= i < ys.len() ==> !is_gesture_line(#[trigger] ys[i])) ==> scan_on(st, ys) == st,
    decreases ys.len(),
{
    if ys.len() > 0 {
        let p = ys.drop_last();
        assert forall|i: int| 0 <= i < p.len() implies !is_input_header(trim(#[trigger] p[i])) by {
            assert(p[i] == ys[i]);
        }
        lemma_outside_run(st, p);
        assert(!is_input_header(trim(ys[ys.len() - 1])));
        lemma_trim_gesture(ys[ys.len() - 1]);
        if forall|i: int| 0 <= i < ys.len() ==> !is_gesture_line(#[trigger] ys[i]) {
            assert forall|i: int| 0 <= i < p.len() implies !is_gesture_line(#[trigger] p[i]) by {
                assert(p[i] == ys[i]);
            }
            assert(!is_gesture_line(ys[ys.len() - 1]));
        }
    }
}

/// Reading one line is one step.
proof fn lemma_scan_one(st: InputScan, l: Seq<char>)
    ensures
        scan_on(st, seq![l]) == input_step(st, l),
{
    assert(seq![l].drop_last() =~= Seq::<Seq<char>>::empty());
    assert(scan_on(st, Seq::<Seq<char>>::empty()) == st);
}

/// The `gesture` line saving writes, read outside any block, turns the
/// swipe on with its number of fingers.
proof fn lemma_gesture_step(st: InputScan, fingers: i32)
    requires
        fingers >= 0,
        st.depth == 0,
    ensures
        input_step(st, "gesture = "@ + int_text(fingers as int) + ", horizontal, workspace"@) == (InputScan {
            swipe: true,
            fingers,
            ..st
        }),
{
    lemma_gesture_line_read(fingers);
    lemma_int_text_round_trip(fingers);
}

/// Trimming a line does not see a final carriage return.
proof fn lemma_trim_strip_cr(l: Seq<char>)
    ensures
        trim(strip_cr(l)) == trim(l),
{
    if l.len() > 0 && l.last() == '\r' {
        let p = l.drop_last();
        assert(is_ws(l.last()));
        lemma_lead_from_bounds(p, 0);
        let a = lead_from(p, 0);
        assert forall|k: int| 0 <= k < a implies is_ws(#[trigger] l[k]) by {
            assert(l[k] == p[k]);
        }
        if a == p.len() {
            lemma_lead_run(l, 0, l.len() as int);
            assert(trim(l).len() == 0);
            assert(trim(p).len() == 0);
        } else {
            assert(l[a] == p[a]);
            lemma_lead_run(l, 0, a);
            assert(trail_down(l, l.len() as int, a) == trail_down(l, p.len() as int, a));
            lemma_trail_prefix(l, p.len() as int, a);
            lemma_trail_down_bounds(p, p.len() as int, a);
            assert(trim(l) =~= trim(p));
        }
    }
}

/// Dropping whitespace from the end of a prefix does not see what follows.
proof fn lemma_trail_prefix(l: Seq<char>, j: int, lo: int)
    requires
        0 <= lo <= j < l.len(),
    ensures
        trail_down(l, j, lo) == trail_down(l.drop_last(), j, lo),
    decreases j - lo,
{
    if lo < j {
        assert(l[j - 1] == l.drop_last()[j - 1]);
        lemma_trail_prefix(l, j - 1, lo);
    }
}

/// Lines whose trims agree are read alike.
proof fn lemma_scan_same_trims(xs: Seq<Seq<char>>, ys: Seq<Seq<char>>)
    requires
        xs.len() == ys.len(),
        forall|i: int| 0 <= i < xs.len() ==> trim(#[trigger] xs[i]) == trim(ys[i]),
    ensures
        input_scan(xs) == input_scan(ys),
    decreases xs.len(),
{
    if xs.len() > 0 {
        let a = xs.drop_last();
        let b = ys.drop_last();
        assert forall|i: int| 0 <= i < a.len() implies trim(#[trigger] a[i]) == trim(b[i]) by {
            assert(a[i] == xs[i]);
            assert(b[i] == ys[i]);
        }
        lemma_scan_same_trims(a, b);
        assert(trim(xs.last()) == trim(ys.last())) by {
            assert(xs.last() == xs[xs.len() - 1]);
        }
    }
}

/// The lines of lines joined by line breaks: each but the last without a
/// final carriage return, the last unless it is empty.
proof fn lemma_lines_of_join_any(ls: Seq<Seq<char>>)
    requires
        ls.len() > 0,
        forall|i: int| 0 <= i < ls.len() ==> !(#[trigger] ls[i]).contains('\n'),
    ensures
        lines(join(ls, seq!['\n'])) == Seq::new((ls.len() - 1) as nat, |i: int| strip_cr(ls[i])) + (if ls.last().len()
            > 0 {
            seq![ls.last()]
        } else {
            Seq::<Seq<char>>::empty()
        }),
    decreases ls.len(),
{
    if ls.len() == 1 {
        let a = ls[0];
        assert(join(ls, seq!['\n']) == a);
        if a.len() > 0 {
            crate::text::lemma_find_from(a, seq!['\n'], 0);
            assert(crate::text::find_from(a, seq!['\n'], 0) is None) by {
                if let Some(k) = crate::text::find_from(a, seq!['\n'], 0) {
                    assert(a.subrange(k, k + 1)[0] == a[k]);
                }
            }
            assert(a.subrange(0, a.len() as int) =~= a);
            assert(lines(a) =~= seq![a]);
        } else {
            assert(lines(a) =~= Seq::<Seq<char>>::empty());
        }
        assert(Seq::new(0, |i: int| strip_cr(ls[i])) =~= Seq::<Seq<char>>::empty());
    } else {
        let rest = ls.drop_first();
        assert(ls =~= seq![ls[0]] + rest);
        crate::text::lemma_join_cons(ls[0], rest, seq!['\n']);
        assert forall|i: int| 0 <= i < rest.len() implies !(#[trigger] rest[i]).contains('\n') by {
            assert(rest[i] == ls[i + 1]);
        }
        lemma_lines_of_join_any(rest);
        crate::text::lemma_lines_cons(ls[0], join(rest, seq!['\n']));
        assert(rest.last() == ls.last());
        assert(seq![strip_cr(ls[0])] + Seq::new((rest.len() - 1) as nat, |i: int| strip_cr(rest[i])) =~= Seq::new(
            (ls.len() - 1) as nat,
            |i: int| strip_cr(ls[i]),
        ));
    }
}

/// Reading the lines of lines joined by line breaks reads those lines.
proof fn lemma_scan_of_join(ls: Seq<Seq<char>>)
    requires
        ls.len() > 0,
        forall|i: int| 0 <= i < ls.len() ==> !(#[trigger] ls[i]).contains('\n'),
    ensures
        input_scan(lines(join(ls, seq!['\n']))) == input_scan(ls),
{
    lemma_lines_of_join_any(ls);
    let n = ls.len() - 1;
    let f = Seq::new(n as nat, |i: int| strip_cr(ls[i]));
    let got = lines(join(ls, seq!['\n']));
    if ls.last().len() > 0 {
        assert forall|i: int| 0 <= i < got.len() implies trim(#[trigger] got[i]) == trim(ls[i]) by {
            if i < n {
                lemma_trim_strip_cr(ls[i]);
            }
        }
        lemma_scan_same_trims(got, ls);
    } else {
        let p = ls.drop_last();
        assert(got =~= f);
        assert forall|i: int| 0 <= i < got.len() implies trim(#[trigger] got[i]) == trim(p[i]) by {
            lemma_trim_strip_cr(ls[i]);
        }
        lemma_scan_same_trims(got, p);
        let e = ls.last();
        assert(e =~= Seq::<char>::empty());
        lemma_not_gesture(e);
        assert(trim(e) =~= e);
        assert(input_step(input_scan(p), e) == input_scan(p)) by {
            reveal_strlit("}");
            reveal_strlit("{");
            reveal_strlit("input {");
            reveal_strlit("input");
            assert(name_end(e, 0) == 0);
        }
    }
}

/// The lines of a text hold no line break.
proof fn lemma_lines_no_break(s: Seq<char>, i: int)
    requires
        0 <= i,
    ensures
        forall|j: int|
            0 <= j < crate::text::lines_from(s, i).len() ==> !(#[trigger] crate::text::lines_from(s, i)[j]).contains(
                '\n',
            ),
    decreases s.len() - i,
{
    let ls = crate::text::lines_from(s, i);
    if i < s.len() {
        crate::text::lemma_find_from(s, seq!['\n'], i);
        match crate::text::find_from(s, seq!['\n'], i) {
            Some(k) => {
                lemma_lines_no_break(s, k + 1);
                let seg = s.subrange(i, k);
                assert(!seg.contains('\n')) by {
                    if seg.contains('\n') {
                        let m = choose|m: int| 0 <= m < seg.len() && seg[m] == '\n';
                        assert(s.subrange(i + m, i + m + 1) =~= seq!['\n']);
                        assert(occurs_at(s, seq!['\n'], i + m));
                    }
                }
                assert(!crate::text::strip_cr(seg).contains('\n')) by {
                    if crate::text::strip_cr(seg).contains('\n') {
                        let m = choose|m: int|
                            0 <= m < crate::text::strip_cr(seg).len() && crate::text::strip_cr(seg)[m] == '\n';
                        assert(seg[m] == '\n');
                    }
                }
                assert forall|j: int| 0 <= j < ls.len() implies !(#[trigger] ls[j]).contains('\n') by {
                    if j > 0 {
                        assert(ls[j] == crate::text::lines_from(s, k + 1)[j - 1]);
                    }
                }
            },
            None => {
                let seg = s.subrange(i, s.len() as int);
                assert(!seg.contains('\n')) by {
                    if seg.contains('\n') {
                        let m = choose|m: int| 0 <= m < seg.len() && seg[m] == '\n';
                        assert(s.subrange(i + m, i + m + 1) =~= seq!['\n']);
                        assert(occurs_at(s, seq!['\n'], i + m));
                    }
                }
            },
        }
    }
}

/// The lines kept hold no line break when the lines do not.
proof fn lemma_kept_no_break(ls: Seq<Seq<char>>, n: int)
    requires
        0 <= n <= ls.len(),
        forall|j: int| 0 <= j < ls.len() ==> !(#[trigger] ls[j]).contains('\n'),
    ensures
        forall|j: int| 0 <= j < kept_lines(ls, n).len() ==> !(#[trigger] kept_lines(ls, n)[j]).contains('\n'),
    decreases n,
{
    if n > 0 {
        lemma_kept_no_break(ls, n - 1);
        let k = kept_lines(ls, n);
        let k0 = kept_lines(ls, n - 1);
        assert forall|j: int| 0 <= j < k.len() implies !(#[trigger] k[j]).contains('\n') by {
            if j < k0.len() {
                assert(k[j] == k0[j]);
            } else {
                assert(k[j] == ls[n - 1]);
            }
        }
    }
}

/// The first line from `i` that opens the `input` block is at `s` when none
/// before it does.
proof fn lemma_input_start_at(ls: Seq<Seq<char>>, i: int, s: int)
    requires
        0 <= i <= s < ls.len(),
        is_input_header(trim(ls[s])),
        forall|j: int| i <= j < s ==> !is_input_header(trim(#[trigger] ls[j])),
    ensures
        crate::input::input_start(ls, i) == Some(s),
    decreases s - i,
{
    if i < s {
        lemma_input_start_at(ls, i + 1, s);
    }
}

/// The first lone `}` from `i` is at `e` when none before it is one.
proof fn lemma_block_close_at(ls: Seq<Seq<char>>, i: int, e: int)
    requires
        0 <= i <= e < ls.len(),
        trim(ls[e]) == "}"@,
        forall|j: int| i <= j < e ==> trim(#[trigger] ls[j]) != "}"@,
    ensures
        crate::input::block_close(ls, i) == Some(e),
    decreases e - i,
{
    if i < e {
        lemma_block_close_at(ls, i + 1, e);
    }
}

/// The first `gesture` line from `i` is at `g` when none before it is one.
proof fn lemma_gesture_line_at(ls: Seq<Seq<char>>, i: int, g: int)
    requires
        0 <= i <= g < ls.len(),
        gesture_digits(ls[g]) is Some,
        forall|j: int| i <= j < g ==> gesture_digits(#[trigger] ls[j]) is None,
    ensures
        gesture_line(ls, i) == Some(g),
    decreases g - i,
{
    if i < g {
        lemma_gesture_line_at(ls, i + 1, g);
    }
}

/// The lines of a configuration file (once the `gestures` block and the
/// old gesture settings are taken out, as saving does) in the shape that
/// saving input settings into reads back: line `s` is the only one that
/// opens the `input` block, line `e` is the first lone `}` after it, no
/// line between opens a block, and at most one line is a `gesture` line,
/// outside the block.
pub open spec fn one_input_block(ls: Seq<Seq<char>>, s: int, e: int) -> bool {
    &&& 0 <= s < e < ls.len()
    &&& is_input_header(trim(ls[s]))
    &&& forall|j: int| 0 <= j < ls.len() && j != s ==> !is_input_header(trim(#[trigger] ls[j]))
    &&& trim(ls[e]) == "}"@
    &&& forall|j: int| s < j < e ==> trim(#[trigger] ls[j]) != "}"@ && !ends_with(trim(ls[j]), "{"@)
    &&& forall|j: int| s <= j <= e ==> !is_gesture_line(#[trigger] ls[j])
    &&& forall|j: int, k: int|
        #![trigger is_gesture_line(ls[j]), is_gesture_line(ls[k])]
        0 <= j < k < ls.len() && is_gesture_line(ls[j]) ==> !is_gesture_line(ls[k])
}

/// Input settings saved with the swipe gesture on, into a configuration
/// file that already has an `input` block, are read back: the values
/// saved, every sensitivity value read is the one saved, the swipe on and
/// the number of fingers (not negative) saved. This holds of a file whose
/// lines, as saving keeps them, have one `input` block with no block inside
/// it and at most one `gesture` line, outside that block, and of texts the
/// file carries as they are: trimmed, without line breaks or `#`, and not
/// ending in `{`.
#[verifier::spinoff_prover]
#[verifier::rlimit(60)]
pub proof fn lemma_saved_input_reads_back_into_block(
    content: Seq<char>,
    v: InputValuesView,
    sensitivity: Seq<char>,
    fingers: i32,
)
    requires
        plain_value(v.kb_layout),
        plain_value(v.kb_variant),
        plain_value(v.kb_options),
        plain_value(sensitivity),
        fingers >= 0,
        exists|s: int, e: int|
            one_input_block(kept_lines(lines(content), lines(content).len() as int), s, e),
    ensures
        ({
            let st = input_scan(lines(saved_input_text(content, v, sensitivity, true, fingers)));
            &&& st.values == v
            &&& forall|i: int| 0 <= i < st.sensitivity.len() ==> st.sensitivity[i] == sensitivity
            &&& st.swipe
            &&& st.fingers == fingers
        }),
{
    reveal_strlit("}");
    reveal_strlit("input {");
    reveal_strlit("input");
    let ls = lines(content);
    let k = kept_lines(ls, ls.len() as int);
    let (s, e) = choose|s: int, e: int| one_input_block(k, s, e);
    let ups = input_updates(v, sensitivity);
    lemma_lines_no_break(content, 0);
    lemma_kept_no_break(ls, ls.len() as int);
    // Where the block is, and how saving writes it.
    assert forall|j: int| 0 <= j < s implies !is_input_header(trim(#[trigger] k[j])) by {}
    lemma_input_start_at(k, 0, s);
    assert forall|j: int| s <= j < e implies trim(#[trigger] k[j]) != "}"@ by {
        if j == s {
            assert(is_input_header(trim(k[s])));
            if trim(k[s]) == "}"@ {
                assert(trim(k[s]).len() == 1);
            }
        }
    }
    lemma_block_close_at(k, s, e);
    let body = body_lines(k, s, e, ups);
    let added = added_settings(k, s, e, ups);
    let blk = saved_block(k, s, e, ups);
    let b = crate::input::with_input_block(k, ups);
    assert(b =~= k.take(s + 1) + body + added + k.skip(e));
    assert(b =~= k.take(s) + blk + k.skip(e + 1));
    assert forall|j: int| s < j < e implies inner_line(#[trigger] k[j]) by {}
    let init = input_scan(Seq::<Seq<char>>::empty());
    assert(init.values == first_values());
    let vals = plain_values(v, sensitivity);
    assert(vals);
    let gl = "gesture = "@ + int_text(fingers as int) + ", horizontal, workspace"@;
    lemma_gesture_line_read(fingers);
    lemma_block_read(init, k, s, e, v, sensitivity);
    let nb = blk.len() as int;
    assert forall|j: int| 0 <= j < b.len() implies !(#[trigger] b[j]).contains('\n') by {
        if j < s {
            assert(b[j] == k[j]);
        } else if j < s + nb {
            assert(b[j] == blk[j - s]);
            if j == s {
                assert(blk[0] == k[s]);
            } else if j == s + nb - 1 {
                assert(blk[nb - 1] == k[e]);
            }
        } else {
            assert(b[j] == k[j - nb + e + 1 - s]);
        }
    }
    let g_opt = gesture_line(b, 0);
    let text_lines = crate::input::with_gesture(b, true, fingers);
    assert(saved_input_text(content, v, sensitivity, true, fingers) == join(text_lines, seq!['\n']));
    if exists|g: int| 0 <= g < k.len() && gesture_digits(#[trigger] k[g]) is Some {
        let g = choose|g: int| 0 <= g < k.len() && gesture_digits(#[trigger] k[g]) is Some;
        assert(is_gesture_line(k[g]));
        assert(g < s || g > e) by {
            if s <= g <= e {
                assert(!is_gesture_line(k[g]));
            }
        }
        assert forall|j: int| 0 <= j < k.len() && j != g implies !is_gesture_line(#[trigger] k[j]) by {
            if j < g {
                assert(!(is_gesture_line(k[j]) && is_gesture_line(k[g])));
            } else {
                assert(!(is_gesture_line(k[g]) && is_gesture_line(k[j])));
            }
        }
        if g < s {
            assert forall|j: int| 0 <= j < g implies gesture_digits(#[trigger] b[j]) is None by {
                assert(b[j] == k[j]);
                assert(!is_gesture_line(k[j]));
            }
            assert(b[g] == k[g]);
            lemma_gesture_line_at(b, 0, g);
            let p1 = k.take(g);
            let p2 = k.subrange(g + 1, s);
            let p3 = k.skip(e + 1);
            assert(text_lines =~= p1 + seq![gl] + p2 + blk + p3);
            assert forall|i: int| 0 <= i < p1.len() implies !is_input_header(trim(#[trigger] p1[i]))
                && !is_gesture_line(p1[i]) by {
                assert(p1[i] == k[i]);
            }
            assert forall|i: int| 0 <= i < p2.len() implies !is_input_header(trim(#[trigger] p2[i]))
                && !is_gesture_line(p2[i]) by {
                assert(p2[i] == k[g + 1 + i]);
            }
            assert forall|i: int| 0 <= i < p3.len() implies !is_input_header(trim(#[trigger] p3[i]))
                && !is_gesture_line(p3[i]) by {
                assert(p3[i] == k[e + 1 + i]);
            }
            lemma_outside_run(init, p1);
            let x1 = scan_on(init, p1);
            lemma_scan_one(x1, gl);
            lemma_gesture_step(x1, fingers);
            let x2 = input_step(x1, gl);
            lemma_outside_run(x2, p2);
            lemma_block_read(x2, k, s, e, v, sensitivity);
            let x4 = scan_on(x2, blk);
            lemma_outside_run(x4, p3);
            lemma_scan_on_concat(init, p1, seq![gl]);
            lemma_scan_on_concat(init, p1 + seq![gl], p2);
            lemma_scan_on_concat(init, p1 + seq![gl] + p2, blk);
            lemma_scan_on_concat(init, p1 + seq![gl] + p2 + blk, p3);
            lemma_scan_is_on(text_lines);
        } else {
            let gb = g + nb - (e + 1 - s);
            assert forall|j: int| 0 <= j < gb implies gesture_digits(#[trigger] b[j]) is None by {
                if j < s {
                    assert(b[j] == k[j]);
                    assert(!is_gesture_line(k[j]));
                } else if j < s + nb {
                    assert(b[j] == blk[j - s]);
                    if j == s {
                        assert(blk[0] == k[s]);
                        assert(!is_gesture_line(k[s]));
                    } else if j == s + nb - 1 {
                        assert(blk[nb - 1] == k[e]);
                        assert(!is_gesture_line(k[e]));
                    } else {
                        assert(!is_gesture_line(blk[j - s]));
                    }
                } else {
                    assert(b[j] == k[j - nb + e + 1 - s]);
                    assert(!is_gesture_line(k[j - nb + e + 1 - s]));
                }
            }
            assert(b[gb] == k[g]);
            lemma_gesture_line_at(b, 0, gb);
            let p1 = k.take(s);
            let p2 = k.subrange(e + 1, g);
            let p3 = k.skip(g + 1);
            assert(text_lines =~= p1 + blk + p2 + seq![gl] + p3);
            assert forall|i: int| 0 <= i < p1.len() implies !is_input_header(trim(#[trigger] p1[i]))
                && !is_gesture_line(p1[i]) by {
                assert(p1[i] == k[i]);
            }
            assert forall|i: int| 0 <= i < p2.len() implies !is_input_header(trim(#[trigger] p2[i]))
                && !is_gesture_line(p2[i]) by {
                assert(p2[i] == k[e + 1 + i]);
            }
            assert forall|i: int| 0 <= i < p3.len() implies !is_input_header(trim(#[trigger] p3[i]))
                && !is_gesture_line(p3[i]) by {
                assert(p3[i] == k[g + 1 + i]);
            }
            lemma_outside_run(init, p1);
            let x1 = scan_on(init, p1);
            lemma_block_read(x1, k, s, e, v, sensitivity);
            let x2 = scan_on(x1, blk);
            lemma_outside_run(x2, p2);
            let x3 = scan_on(x2, p2);
            lemma_scan_one(x3, gl);
            lemma_gesture_step(x3, fingers);
            let x4 = input_step(x3, gl);
            lemma_outside_run(x4, p3);
            lemma_scan_on_concat(init, p1, blk);
            lemma_scan_on_concat(init, p1 + blk, p2);
            lemma_scan_on_concat(init, p1 + blk + p2, seq![gl]);
            lemma_scan_on_concat(init, p1 + blk + p2 + seq![gl], p3);
            lemma_scan_is_on(text_lines);
        }
    } else {
        assert forall|j: int| 0 <= j < b.len() implies gesture_digits(#[trigger] b[j]) is None by {
            if j < s {
                assert(b[j] == k[j]);
            } else if j < s + nb {
                assert(b[j] == blk[j - s]);
                if j == s {
                    assert(blk[0] == k[s]);
                    assert(!is_gesture_line(k[s]));
                } else if j == s + nb - 1 {
                    assert(blk[nb - 1] == k[e]);
                    assert(!is_gesture_line(k[e]));
                } else {
                    assert(!is_gesture_line(blk[j - s]));
                }
            } else {
                assert(b[j] == k[j - nb + e + 1 - s]);
            }
        }
        lemma_no_gesture_line(b, 0);
        let p1 = k.take(s);
        let p3 = k.skip(e + 1);
        assert(text_lines =~= p1 + blk + p3 + seq![gl]);
        assert forall|i: int| 0 <= i < p1.len() implies !is_input_header(trim(#[trigger] p1[i])) by {
            assert(p1[i] == k[i]);
        }
        assert forall|i: int| 0 <= i < p3.len() implies !is_input_header(trim(#[trigger] p3[i])) by {
            assert(p3[i] == k[e + 1 + i]);
        }
        lemma_outside_run(init, p1);
        let x1 = scan_on(init, p1);
        assert(x1.sensitivity == init.sensitivity);
        lemma_block_read(x1, k, s, e, v, sensitivity);
        let x2 = scan_on(x1, blk);
        lemma_outside_run(x2, p3);
        let x3 = scan_on(x2, p3);
        lemma_scan_one(x3, gl);
        lemma_gesture_step(x3, fingers);
        lemma_scan_on_concat(init, p1, blk);
        lemma_scan_on_concat(init, p1 + blk, p3);
        lemma_scan_on_concat(init, p1 + blk + p3, seq![gl]);
        lemma_scan_is_on(text_lines);
    }
    assert forall|j: int| 0 <= j < text_lines.len() implies !(#[trigger] text_lines[j]).contains('\n') by {
        match g_opt {
            Some(g) => {
                if j == g {
                    assert(text_lines[j] == gl);
                } else {
                    assert(text_lines[j] == b[j]);
                }
            },
            None => {
                if j == b.len() {
                    assert(text_lines[j] == gl);
                } else {
                    assert(text_lines[j] == b[j]);
                }
            },
        }
    }
    lemma_scan_of_join(text_lines);
}

/// Skipping whitespace in a trimmed line, when it stops at a character of
/// the line, stops at the same character of the untrimmed one.
proof fn lemma_lead_in_trim(l: Seq<char>, x: int)
    requires
        0 <= x <= trim(l).len(),
        lead_from(trim(l), x) < trim(l).len(),
    ensures
        lead_from(l, lead_from(l, 0) + x) == lead_from(l, 0) + lead_from(trim(l), x),
{
    let a0 = lead_from(l, 0);
    lemma_lead_from_bounds(l, 0);
    let z = trail_down(l, l.len() as int, a0);
    lemma_trail_down_bounds(l, l.len() as int, a0);
    let t = trim(l);
    assert(t == l.subrange(a0, z));
    lemma_lead_from_bounds(t, x);
    let y = lead_from(t, x);
    assert forall|k: int| a0 + x <= k < a0 + y implies is_ws(#[trigger] l[k]) by {
        assert(l[k] == t[k - a0]);
        assert(is_ws(t[k - a0]));
    }
    assert(l[a0 + y] == t[y]);
    lemma_lead_run(l, a0 + x, a0 + y);
}

/// The run of `\d` digits from `i`: where it ends and what it holds.
proof fn lemma_nd_end_facts(s: Seq<char>, i: int)
    requires
        0 <= i <= s.len(),
    ensures
        i <= nd_end(s, i) <= s.len(),
        forall|k: int| i <= k < nd_end(s, i) ==> decimal_digit(#[trigger] s[k]),
        nd_end(s, i) < s.len() ==> !decimal_digit(s[nd_end(s, i)]),
    decreases s.len() - i,
{
    if i < s.len() && decimal_digit(s[i]) {
        lemma_nd_end_facts(s, i + 1);
    }
}

/// A line read as a `gesture` line once trimmed is one as it stands.
#[verifier::spinoff_prover]
#[verifier::rlimit(60)]
proof fn lemma_trim_gesture(l: Seq<char>)
    ensures
        gesture_digits(trim(l)) is Some ==> gesture_digits(l) is Some,
{
    reveal_strlit("gesture");
    reveal_strlit("horizontal");
    reveal_strlit("workspace");
    let t = trim(l);
    if gesture_digits(t) is Some {
        let a0 = lead_from(l, 0);
        lemma_lead_from_bounds(l, 0);
        let z = trail_down(l, l.len() as int, a0);
        lemma_trail_down_bounds(l, l.len() as int, a0);
        assert(t == l.subrange(a0, z));
        assert(forall|k: int| 0 <= k < t.len() ==> #[trigger] t[k] == l[a0 + k]);
        let a = lead_from(t, 0);
        let p = lead_from(t, a + 7);
        let q = lead_from(t, p + 1);
        let e = nd_end(t, q);
        let r1 = lead_from(t, e);
        let r2 = lead_from(t, r1 + 1);
        let r3 = lead_from(t, r2 + 10);
        let r4 = lead_from(t, r3 + 1);
        assert(occurs_at(t, "gesture"@, a));
        assert(occurs_at(t, "workspace"@, r4));
        lemma_lead_from_bounds(t, 0);
        lemma_lead_from_bounds(t, a + 7);
        lemma_lead_from_bounds(t, p + 1);
        lemma_nd_end_facts(t, q);
        lemma_lead_from_bounds(t, e);
        lemma_lead_from_bounds(t, r1 + 1);
        lemma_lead_from_bounds(t, r2 + 10);
        lemma_lead_from_bounds(t, r3 + 1);
        lemma_lead_in_trim(l, 0);
        lemma_lead_in_trim(l, a + 7);
        lemma_lead_in_trim(l, p + 1);
        lemma_lead_in_trim(l, e);
        lemma_lead_in_trim(l, r1 + 1);
        lemma_lead_in_trim(l, r2 + 10);
        lemma_lead_in_trim(l, r3 + 1);
        assert forall|k: int| a0 + q <= k < a0 + e implies decimal_digit(#[trigger] l[k]) by {
            assert(l[k] == t[k - a0]);
        }
        assert(l[a0 + e] == t[e]);
        lemma_nd_run(l, a0 + q, a0 + e);
        assert(l.subrange(a0 + a, a0 + a + 7) =~= t.subrange(a, a + 7));
        assert(l.subrange(a0 + r2, a0 + r2 + 10) =~= t.subrange(r2, r2 + 10));
        assert(l.subrange(a0 + r4, a0 + r4 + 9) =~= t.subrange(r4, r4 + 9));
        assert(l[a0 + p] == t[p]);
        assert(l[a0 + r1] == t[r1]);
        assert(l[a0 + r3] == t[r3]);
    }
}

/// Input settings saved with the swipe gesture off, into a configuration
/// file that already has an `input` block, are read back: the values
/// saved, every sensitivity value read is the one saved, and the swipe
/// off. This holds of files and texts as for saving with the swipe on.
#[verifier::spinoff_prover]
#[verifier::rlimit(60)]
pub proof fn lemma_saved_input_swipe_off_reads_back_into_block(
    content: Seq<char>,
    v: InputValuesView,
    sensitivity: Seq<char>,
    fingers: i32,
)
    requires
        plain_value(v.kb_layout),
        plain_value(v.kb_variant),
        plain_value(v.kb_options),
        plain_value(sensitivity),
        exists|s: int, e: int|
            one_input_block(kept_lines(lines(content), lines(content).len() as int), s, e),
    ensures
        ({
            let st = input_scan(lines(saved_input_text(content, v, sensitivity, false, fingers)));
            &&& st.values == v
            &&& forall|i: int| 0 <= i < st.sensitivity.len() ==> st.sensitivity[i] == sensitivity
            &&& !st.swipe
        }),
{
    reveal_strlit("}");
    reveal_strlit("input {");
    reveal_strlit("input");
    let ls = lines(content);
    let k = kept_lines(ls, ls.len() as int);
    let (s, e) = choose|s: int, e: int| one_input_block(k, s, e);
    let ups = input_updates(v, sensitivity);
    lemma_lines_no_break(content, 0);
    lemma_kept_no_break(ls, ls.len() as int);
    assert forall|j: int| 0 <= j < s implies !is_input_header(trim(#[trigger] k[j])) by {}
    lemma_input_start_at(k, 0, s);
    assert forall|j: int| s <= j < e implies trim(#[trigger] k[j]) != "}"@ by {
        if j == s {
            assert(is_input_header(trim(k[s])));
            if trim(k[s]) == "}"@ {
                assert(trim(k[s]).len() == 1);
            }
        }
    }
    lemma_block_close_at(k, s, e);
    let body = body_lines(k, s, e, ups);
    let added = added_settings(k, s, e, ups);
    let blk = saved_block(k, s, e, ups);
    let b = crate::input::with_input_block(k, ups);
    assert(b =~= k.take(s + 1) + body + added + k.skip(e));
    assert(b =~= k.take(s) + blk + k.skip(e + 1));
    assert forall|j: int| s < j < e implies inner_line(#[trigger] k[j]) by {}
    let init = input_scan(Seq::<Seq<char>>::empty());
    assert(init.values == first_values());
    assert(plain_values(v, sensitivity));
    lemma_block_read(init, k, s, e, v, sensitivity);
    let nb = blk.len() as int;
    let text_lines = crate::input::with_gesture(b, false, fingers);
    assert(saved_input_text(content, v, sensitivity, false, fingers) == join(text_lines, seq!['\n']));
    let mut parts: (Seq<Seq<char>>, Seq<Seq<char>>, Seq<Seq<char>>, Seq<Seq<char>>) = (seq![], seq![], seq![], seq![]);
    if exists|g: int| 0 <= g < k.len() && gesture_digits(#[trigger] k[g]) is Some {
        let g = choose|g: int| 0 <= g < k.len() && gesture_digits(#[trigger] k[g]) is Some;
        assert(is_gesture_line(k[g]));
        assert(g < s || g > e) by {
            if s <= g <= e {
                assert(!is_gesture_line(k[g]));
            }
        }
        assert forall|j: int| 0 <= j < k.len() && j != g implies !is_gesture_line(#[trigger] k[j]) by {
            if j < g {
                assert(!(is_gesture_line(k[j]) && is_gesture_line(k[g])));
            } else {
                assert(!(is_gesture_line(k[g]) && is_gesture_line(k[j])));
            }
        }
        if g < s {
            assert forall|j: int| 0 <= j < g implies gesture_digits(#[trigger] b[j]) is None by {
                assert(b[j] == k[j]);
                assert(!is_gesture_line(k[j]));
            }
            assert(b[g] == k[g]);
            lemma_gesture_line_at(b, 0, g);
            parts = (k.take(g), k.subrange(g + 1, s), seq![], k.skip(e + 1));
            assert(text_lines =~= parts.0 + parts.1 + blk + parts.2 + parts.3);
            assert forall|i: int| 0 <= i < parts.0.len() implies !is_input_header(trim(#[trigger] parts.0[i]))
                && !is_gesture_line(parts.0[i]) by {
                assert(parts.0[i] == k[i]);
            }
            assert forall|i: int| 0 <= i < parts.1.len() implies !is_input_header(trim(#[trigger] parts.1[i]))
                && !is_gesture_line(parts.1[i]) by {
                assert(parts.1[i] == k[g + 1 + i]);
            }
            assert forall|i: int| 0 <= i < parts.3.len() implies !is_input_header(trim(#[trigger] parts.3[i]))
                && !is_gesture_line(parts.3[i]) by {
                assert(parts.3[i] == k[e + 1 + i]);
            }
        } else {
            let gb = g + nb - (e + 1 - s);
            assert forall|j: int| 0 <= j < gb implies gesture_digits(#[trigger] b[j]) is None by {
                if j < s {
                    assert(b[j] == k[j]);
                    assert(!is_gesture_line(k[j]));
                } else if j < s + nb {
                    assert(b[j] == blk[j - s]);
                    if j == s {
                        assert(blk[0] == k[s]);
                        assert(!is_gesture_line(k[s]));
                    } else if j == s + nb - 1 {
                        assert(blk[nb - 1] == k[e]);
                        assert(!is_gesture_line(k[e]));
                    } else {
                        assert(!is_gesture_line(blk[j - s]));
                    }
                } else {
                    assert(b[j] == k[j - nb + e + 1 - s]);
                    assert(!is_gesture_line(k[j - nb + e + 1 - s]));
                }
            }
            assert(b[gb] == k[g]);
            lemma_gesture_line_at(b, 0, gb);
            parts = (seq![], k.take(s), k.subrange(e + 1, g), k.skip(g + 1));
            assert(text_lines =~= parts.0 + parts.1 + blk + parts.2 + parts.3);
            assert forall|i: int| 0 <= i < parts.1.len() implies !is_input_header(trim(#[trigger] parts.1[i]))
                && !is_gesture_line(parts.1[i]) by {
                assert(parts.1[i] == k[i]);
            }
            assert forall|i: int| 0 <= i < parts.2.len() implies !is_input_header(trim(#[trigger] parts.2[i]))
                && !is_gesture_line(parts.2[i]) by {
                assert(parts.2[i] == k[e + 1 + i]);
            }
            assert forall|i: int| 0 <= i < parts.3.len() implies !is_input_header(trim(#[trigger] parts.3[i]))
                && !is_gesture_line(parts.3[i]) by {
                assert(parts.3[i] == k[g + 1 + i]);
            }
        }
    } else {
        assert(forall|j: int| 0 <= j < k.len() ==> !is_gesture_line(#[trigger] k[j]));
        assert forall|j: int| 0 <= j < b.len() implies gesture_digits(#[trigger] b[j]) is None by {
            if j < s {
                assert(b[j] == k[j]);
            } else if j < s + nb {
                assert(b[j] == blk[j - s]);
                if j == s {
                    assert(blk[0] == k[s]);
                } else if j == s + nb - 1 {
                    assert(blk[nb - 1] == k[e]);
                } else {
                    assert(!is_gesture_line(blk[j - s]));
                }
            } else {
                assert(b[j] == k[j - nb + e + 1 - s]);
            }
        }
        lemma_no_gesture_line(b, 0);
        parts = (seq![], k.take(s), seq![], k.skip(e + 1));
        assert(text_lines =~= parts.0 + parts.1 + blk + parts.2 + parts.3);
        assert forall|i: int| 0 <= i < parts.1.len() implies !is_input_header(trim(#[trigger] parts.1[i]))
            && !is_gesture_line(parts.1[i]) by {
            assert(parts.1[i] == k[i]);
        }
        assert forall|i: int| 0 <= i < parts.3.len() implies !is_input_header(trim(#[trigger] parts.3[i]))
            && !is_gesture_line(parts.3[i]) by {
            assert(parts.3[i] == k[e + 1 + i]);
        }
    }
    let (p0, p1, p2, p3) = parts;
    assert(p0.len() == 0 || p2.len() == 0);
    lemma_outside_run(init, p0);
    let x0 = scan_on(init, p0);
    lemma_outside_run(x0, p1);
    let x1 = scan_on(x0, p1);
    lemma_block_read(x1, k, s, e, v, sensitivity);
    let x2 = scan_on(x1, blk);
    lemma_outside_run(x2, p2);
    let x3 = scan_on(x2, p2);
    lemma_outside_run(x3, p3);
    lemma_scan_on_concat(init, p0, p1);
    lemma_scan_on_concat(init, p0 + p1, blk);
    lemma_scan_on_concat(init, p0 + p1 + blk, p2);
    lemma_scan_on_concat(init, p0 + p1 + blk + p2, p3);
    lemma_scan_is_on(text_lines);
    let all = p0 + p1 + blk + p2 + p3;
    assert forall|j: int| 0 <= j < all.len() implies !(#[trigger] all[j]).contains('\n') by {
        let o1 = p0.len() as int;
        let o2 = o1 + p1.len();
        let o3 = o2 + nb;
        let o4 = o3 + p2.len();
        if j < o1 {
            assert(all[j] == p0[j]);
        } else if j < o2 {
            assert(all[j] == p1[j - o1]);
        } else if j < o3 {
            assert(all[j] == blk[j - o2]);
            if j == o2 {
                assert(blk[0] == k[s]);
            } else if j == o3 - 1 {
                assert(blk[nb - 1] == k[e]);
            }
        } else if j < o4 {
            assert(all[j] == p2[j - o3]);
        } else {
            assert(all[j] == p3[j - o4]);
        }
    }
    lemma_scan_of_join(text_lines);
}

} // verus!
