//! Macros: several dispatcher actions run by one keybind, written as an
//! `exec` of `bash -c "hyprctl dispatch …; hyprctl dispatch …"`, and read
//! back into their actions.
use crate::text::{split_on, split_on_exec, append, chars_of, ends_with, ends_with_exec, eq_chars, find_char, find_char_exec, join, join_exec, replace_all, replace_all_exec, slice, starts_with, starts_with_exec, string_of, trim, trim_chars, views};
use vstd::prelude::*;

verus! {

broadcast use vstd::string::group_string_axioms;

// ---------------------------------------------------------------------------
// Writing a macro
// ---------------------------------------------------------------------------

/// `"` written as `\"`, for inside a double-quoted shell word.
pub open spec fn escape_quotes(a: Seq<char>) -> Seq<char> {
    replace_all(a, seq!['"'], seq!['\\', '"'])
}

/// `\"` read back as `"`.
pub open spec fn unescape_quotes(a: Seq<char>) -> Seq<char> {
    replace_all(a, seq!['\\', '"'], seq!['"'])
}

/// The shell command for one action: `hyprctl dispatch` with the trimmed
/// dispatcher, and the arguments double-quoted (their quotes escaped) when
/// they are not blank.
pub open spec fn action_command(dispatcher: Seq<char>, args: Seq<char>) -> Seq<char> {
    if trim(args).len() == 0 {
        "hyprctl dispatch "@ + trim(dispatcher)
    } else {
        "hyprctl dispatch "@ + trim(dispatcher) + " \""@ + escape_quotes(args) + "\""@
    }
}

/// The commands of the actions with a nonblank dispatcher, in order.
pub open spec fn macro_commands(actions: Seq<(Seq<char>, Seq<char>)>) -> Seq<Seq<char>>
    decreases actions.len(),
{
    if actions.len() == 0 {
        seq![]
    } else {
        let a = actions.last();
        macro_commands(actions.drop_last()) + (if trim(a.0).len() > 0 {
            seq![action_command(a.0, a.1)]
        } else {
            seq![]
        })
    }
}

/// The `(dispatcher, arguments)` of the keybind that runs the actions:
/// `exec` and `bash -c "…"` around their commands joined by `; `; none
/// when no action has a dispatcher.
pub open spec fn compiled_macro(actions: Seq<(Seq<char>, Seq<char>)>) -> Option<(Seq<char>, Seq<char>)> {
    let cmds = macro_commands(actions);
    if cmds.len() == 0 {
        None
    } else {
        Some(("exec"@, "bash -c \""@ + join(cmds, "; "@) + "\""@))
    }
}

/// The pairs as plain values.
pub open spec fn pair_views(v: Seq<(String, String)>) -> Seq<(Seq<char>, Seq<char>)> {
    v.map_values(|p: (String, String)| (p.0@, p.1@))
}

fn action_command_exec(d: &str, a: &str) -> (r: Vec<char>)
    ensures
        r@ == action_command(d@, a@),
{
    let mut cmd = chars_of("hyprctl dispatch ");
    append(&mut cmd, &trim_chars(&chars_of(d)));
    let ac = chars_of(a);
    if trim_chars(&ac).len() == 0 {
        return cmd;
    }
    append(&mut cmd, &chars_of(" \""));
    let q = vec!['"'];
    let bq = vec!['\\', '"'];
    assert(q@ == seq!['"'] && bq@ == seq!['\\', '"']);
    append(&mut cmd, &replace_all_exec(&ac, &q, &bq));
    append(&mut cmd, &chars_of("\""));
    cmd
}

/// The keybind that runs the actions `(dispatcher, arguments)` in order, as
/// `(dispatcher, arguments)`; actions with a blank dispatcher are left out,
/// and none is returned when no action is left.
pub fn compile_macro(actions: &[(String, String)]) -> (r: Option<(String, String)>)
    ensures
        match r {
            Some(p) => compiled_macro(pair_views(actions@)) == Some((p.0@, p.1@)),
            None => compiled_macro(pair_views(actions@)) is None,
        },
{
    let ghost acts = pair_views(actions@);
    let mut cmds: Vec<Vec<char>> = Vec::new();
    let mut i: usize = 0;
    while i < actions.len()
        invariant
            i <= actions@.len(),
            acts == pair_views(actions@),
            views(cmds@) == macro_commands(acts.take(i as int)),
        decreases actions@.len() - i,
    {
        let (d, a) = &actions[i];
        assert(acts.take(i + 1).drop_last() =~= acts.take(i as int));
        assert(acts.take(i + 1).last() == (d@, a@));
        if trim_chars(&chars_of(d.as_str())).len() > 0 {
            let ghost old_c = views(cmds@);
            let c = action_command_exec(d.as_str(), a.as_str());
            cmds.push(c);
            assert(views(cmds@) =~= old_c + seq![action_command(d@, a@)]);
        } else {
            assert(views(cmds@) =~= views(cmds@) + Seq::<Seq<char>>::empty());
        }
        i = i + 1;
    }
    assert(acts.take(i as int) =~= acts);
    if cmds.len() == 0 {
        return None;
    }
    let mut script = chars_of("bash -c \"");
    append(&mut script, &join_exec(&cmds, &chars_of("; ")));
    append(&mut script, &chars_of("\""));
    Some((string_of(&chars_of("exec")), string_of(&script)))
}

// ---------------------------------------------------------------------------
// Reading a macro back
// ---------------------------------------------------------------------------

/// The dispatcher and the trimmed arguments of a `hyprctl dispatch …`
/// command: split at the first space after the prefix.
pub open spec fn dispatch_fields(p: Seq<char>) -> (Seq<char>, Seq<char>) {
    let rest = trim(p.skip("hyprctl dispatch "@.len() as int));
    match find_char(rest, ' ') {
        Some(k) => (rest.take(k), trim(rest.skip(k + 1))),
        None => (rest, seq![]),
    }
}

/// Arguments with their surrounding double quotes dropped and `\"` read
/// back as `"`.
pub open spec fn unquote(a: Seq<char>) -> Seq<char> {
    unescape_quotes(
        if a.len() >= 2 && a[0] == '"' && a[a.len() - 1] == '"' {
            a.subrange(1, a.len() - 1)
        } else {
            a
        },
    )
}

/// The actions of the pieces of a macro script: blank pieces skipped, any
/// piece that is not `hyprctl dispatch …` making the whole no macro.
pub open spec fn parse_parts(parts: Seq<Seq<char>>) -> Option<Seq<(Seq<char>, Seq<char>)>>
    decreases parts.len(),
{
    if parts.len() == 0 {
        Some(seq![])
    } else {
        let p = trim(parts[0]);
        if p.len() == 0 {
            parse_parts(parts.drop_first())
        } else if !starts_with(p, "hyprctl dispatch "@) {
            None
        } else {
            match parse_parts(parts.drop_first()) {
                Some(xs) => Some(seq![(dispatch_fields(p).0, unquote(dispatch_fields(p).1))] + xs),
                None => None,
            }
        }
    }
}

/// Reading the pieces would stop on arguments that are a lone `"`, before
/// any piece that makes the script no macro.
pub open spec fn parts_fail(parts: Seq<Seq<char>>) -> bool
    decreases parts.len(),
{
    if parts.len() == 0 {
        false
    } else {
        let p = trim(parts[0]);
        if p.len() == 0 {
            parts_fail(parts.drop_first())
        } else if !starts_with(p, "hyprctl dispatch "@) {
            false
        } else if dispatch_fields(p).1 == seq!['"'] {
            true
        } else {
            parts_fail(parts.drop_first())
        }
    }
}

/// The trimmed arguments of an `exec` (or `execr`) keybind that have the
/// shape `bash -c "…"`.
pub open spec fn macro_shape(dispatcher: Seq<char>, args: Seq<char>) -> bool {
    let t = trim(args);
    (dispatcher == "exec"@ || dispatcher == "execr"@) && starts_with(t, "bash -c \""@) && ends_with(
        t,
        "\""@,
    )
}

/// The script between `bash -c "` and the final `"`.
pub open spec fn macro_script(args: Seq<char>) -> Seq<char> {
    let t = trim(args);
    t.subrange(9, t.len() - 1)
}

/// The inputs on which reading a macro cannot go on: the arguments are
/// `bash -c "` alone, or a dispatched action's arguments are a lone `"`.
pub open spec fn macro_unreadable(dispatcher: Seq<char>, args: Seq<char>) -> bool {
    macro_shape(dispatcher, args) && (trim(args).len() < 10 || parts_fail(
        split_on(macro_script(args), ';'),
    ))
}

/// The actions a keybind's `(dispatcher, arguments)` runs, when it is a
/// macro with at least one action.
pub open spec fn parsed_macro(dispatcher: Seq<char>, args: Seq<char>) -> Option<
    Seq<(Seq<char>, Seq<char>)>,
> {
    if !macro_shape(dispatcher, args) {
        None
    } else {
        match parse_parts(split_on(macro_script(args), ';')) {
            Some(xs) => if xs.len() > 0 {
                Some(xs)
            } else {
                None
            },
            None => None,
        }
    }
}

fn unquote_exec(a: &[char]) -> (r: Vec<char>)
    ensures
        r@ == unquote(a@),
{
    let inner = if a.len() >= 2 && a[0] == '"' && a[a.len() - 1] == '"' {
        slice(a, 1, a.len() - 1)
    } else {
        crate::text::copy_chars(a)
    };
    let q = vec!['"'];
    let bq = vec!['\\', '"'];
    assert(q@ == seq!['"'] && bq@ == seq!['\\', '"']);
    replace_all_exec(&inner, &bq, &q)
}

fn dispatch_fields_exec(p: &[char]) -> (r: (Vec<char>, Vec<char>))
    requires
        starts_with(p@, "hyprctl dispatch "@),
    ensures
        (r.0@, r.1@) == dispatch_fields(p@),
{
    proof {
        reveal_strlit("hyprctl dispatch ");
    }
    let n = chars_of("hyprctl dispatch ").len();
    assert(n == 17);
    let rest = trim_chars(&slice(p, n, p.len()));
    assert(p@.subrange(17, p@.len() as int) =~= p@.skip(17));
    proof {
        crate::text::lemma_find_from(rest@, seq![' '], 0);
    }
    match find_char_exec(&rest, ' ') {
        Some(k) => {
            assert(crate::text::occurs_at(rest@, seq![' '], k as int));
            assert(k < rest.len());
            let d = slice(&rest, 0, k);
            let a = trim_chars(&slice(&rest, k + 1, rest.len()));
            assert(d@ =~= rest@.take(k as int));
            assert(rest@.subrange(k + 1, rest@.len() as int) =~= rest@.skip(k + 1));
            (d, a)
        },
        None => {
            let e: Vec<char> = Vec::new();
            assert(e@ =~= Seq::<char>::empty());
            (rest, e)
        },
    }
}

/// Reads a keybind's `(dispatcher, arguments)` back into the actions of a
/// macro: `exec`/`execr` with `bash -c "hyprctl dispatch …; …"`. None when
/// it is not such a macro or has no action.
pub fn parse_macro(dispatcher: &str, args: &str) -> (r: Option<Vec<(String, String)>>)
    requires
        !macro_unreadable(dispatcher@, args@),
    ensures
        match r {
            Some(v) => parsed_macro(dispatcher@, args@) == Some(pair_views(v@)),
            None => parsed_macro(dispatcher@, args@) is None,
        },
{
    let d = chars_of(dispatcher);
    if !eq_chars(&d, &chars_of("exec")) && !eq_chars(&d, &chars_of("execr")) {
        return None;
    }
    let t = trim_chars(&chars_of(args));
    if !starts_with_exec(&t, &chars_of("bash -c \"")) || !ends_with_exec(&t, &chars_of("\"")) {
        return None;
    }
    proof {
        reveal_strlit("bash -c \"");
        reveal_strlit("\"");
    }
    let inner = slice(&t, 9, t.len() - 1);
    assert(inner@ == macro_script(args@));
    assert(macro_shape(dispatcher@, args@));
    let parts = split_on_exec(&inner, ';');
    let ghost ps = views(parts@);
    let hd = chars_of("hyprctl dispatch ");
    let mut out: Vec<(String, String)> = Vec::new();
    let mut i: usize = 0;
    assert(ps.skip(0) =~= ps);
    while i < parts.len()
        invariant
            i <= parts@.len(),
            ps == views(parts@),
            hd@ == "hyprctl dispatch "@,
            ps == split_on(macro_script(args@), ';'),
            macro_shape(dispatcher@, args@),
            !parts_fail(ps.skip(i as int)),
            parse_parts(ps) == match parse_parts(ps.skip(i as int)) {
                Some(xs) => Some(pair_views(out@) + xs),
                None => None,
            },
        decreases parts@.len() - i,
    {
        let ghost rest = ps.skip(i as int);
        assert(rest[0] == parts@[i as int]@);
        assert(rest.drop_first() =~= ps.skip(i + 1));
        let p = trim_chars(&parts[i]);
        if p.len() > 0 {
            if !starts_with_exec(&p, &hd) {
                return None;
            }
            let (disp, arg) = dispatch_fields_exec(&p);
            let ghost old_out = pair_views(out@);
            out.push((string_of(&disp), string_of(&unquote_exec(&arg))));
            assert(pair_views(out@) =~= old_out + seq![(dispatch_fields(p@).0, unquote(dispatch_fields(p@).1))]);
        }
        i = i + 1;
    }
    assert(ps.skip(i as int) =~= Seq::<Seq<char>>::empty());
    if out.len() == 0 {
        None
    } else {
        Some(out)
    }
}

// ---------------------------------------------------------------------------
// Reading back what was written
// ---------------------------------------------------------------------------

/// The action that reading back the command of `(dispatcher, args)` gives:
/// the trimmed dispatcher, and the arguments (empty when they were blank).
pub open spec fn read_back_action(dispatcher: Seq<char>, args: Seq<char>) -> (Seq<char>, Seq<char>) {
    (trim(dispatcher), if trim(args).len() == 0 {
        seq![]
    } else {
        args
    })
}

/// The actions that reading back a compiled macro gives: those with a
/// nonblank dispatcher, in order.
pub open spec fn read_back_actions(actions: Seq<(Seq<char>, Seq<char>)>) -> Seq<(Seq<char>, Seq<char>)>
    decreases actions.len(),
{
    if actions.len() == 0 {
        seq![]
    } else {
        let a = actions.last();
        read_back_actions(actions.drop_last()) + (if trim(a.0).len() > 0 {
            seq![read_back_action(a.0, a.1)]
        } else {
            seq![]
        })
    }
}

/// Actions whose commands can be read back: no space or `;` in a (trimmed)
/// dispatcher, no `;` in the arguments.
pub open spec fn macro_safe(actions: Seq<(Seq<char>, Seq<char>)>) -> bool {
    forall|i: int|
        0 <= i < actions.len() && trim(#[trigger] actions[i].0).len() > 0 ==> !trim(actions[i].0).contains(' ')
            && !trim(actions[i].0).contains(';') && !actions[i].1.contains(';')
}

proof fn lemma_occurs_single(s: Seq<char>, c: char)
    ensures
        crate::text::occurs_at(s, seq![c], 0) <==> (s.len() > 0 && s[0] == c),
{
    if s.len() > 0 {
        assert(s.subrange(0, 1) =~= seq![s[0]]);
        if s.subrange(0, 1) == seq![c] {
            assert(s.subrange(0, 1)[0] == c);
        }
    }
}

/// Escaping quotes can be undone, never yields a leading `"`, and adds no `;`.
proof fn lemma_escape(a: Seq<char>)
    ensures
        unescape_quotes(escape_quotes(a)) == a,
        escape_quotes(a).len() > 0 ==> escape_quotes(a)[0] != '"',
        escape_quotes(a).len() == 0 ==> a.len() == 0,
        !a.contains(';') ==> !escape_quotes(a).contains(';'),
    decreases a.len(),
{
    let q = seq!['"'];
    let bq = seq!['\\', '"'];
    crate::text::lemma_replace_cons(a, q, bq);
    lemma_occurs_single(a, '"');
    let e = escape_quotes(a);
    if a.len() == 0 {
        crate::text::lemma_replace_cons(e, bq, q);
    } else {
        let rest = a.skip(1);
        lemma_escape(rest);
        let er = escape_quotes(rest);
        assert(a =~= seq![a[0]] + rest);
        if a[0] == '"' {
            assert(a.skip(q.len() as int) == rest);
            assert(e == bq + er);
            crate::text::lemma_replace_cons(e, bq, q);
            assert(crate::text::occurs_at(e, bq, 0)) by {
                assert(e.subrange(0, 2) =~= bq);
            }
            assert(e.skip(2) =~= er);
            assert(unescape_quotes(e) == q + rest);
            if !a.contains(';') {
                assert(!rest.contains(';')) by {
                    if rest.contains(';') {
                        let j = choose|j: int| 0 <= j < rest.len() && rest[j] == ';';
                        assert(a[j + 1] == ';');
                    }
                }
                assert(!e.contains(';')) by {
                    if e.contains(';') {
                        let j = choose|j: int| 0 <= j < e.len() && e[j] == ';';
                        assert(j >= 2);
                        assert(er[j - 2] == ';');
                    }
                }
            }
        } else {
            assert(e == seq![a[0]] + er);
            crate::text::lemma_replace_cons(e, bq, q);
            assert(!crate::text::occurs_at(e, bq, 0)) by {
                if crate::text::occurs_at(e, bq, 0) {
                    assert(e.subrange(0, 2)[1] == e[1]);
                    assert(e[1] == er[0]);
                }
            }
            assert(e.skip(1) =~= er);
            assert(unescape_quotes(e) == seq![a[0]] + rest);
            if !a.contains(';') {
                assert(!rest.contains(';')) by {
                    if rest.contains(';') {
                        let j = choose|j: int| 0 <= j < rest.len() && rest[j] == ';';
                        assert(a[j + 1] == ';');
                    }
                }
                assert(!e.contains(';')) by {
                    if e.contains(';') {
                        let j = choose|j: int| 0 <= j < e.len() && e[j] == ';';
                        if j == 0 {
                            assert(a[0] == ';');
                        } else {
                            assert(er[j - 1] == ';');
                        }
                    }
                }
            }
        }
    }
}

/// No character of `x` is `c` when none of its parts' is.
proof fn lemma_no_char_concat(x: Seq<char>, y: Seq<char>, c: char)
    requires
        !x.contains(c),
        !y.contains(c),
    ensures
        !(x + y).contains(c),
{
    if (x + y).contains(c) {
        let j = choose|j: int| 0 <= j < (x + y).len() && (x + y)[j] == c;
        if j < x.len() {
            assert(x[j] == c);
        } else {
            assert(y[j - x.len()] == c);
        }
    }
}

/// The command of a safe action reads back as the action.
proof fn lemma_command_reads_back(d: Seq<char>, a: Seq<char>)
    requires
        trim(d).len() > 0,
        !trim(d).contains(' '),
        !trim(d).contains(';'),
        !a.contains(';'),
    ensures
        ({
            let cmd = action_command(d, a);
            let p = trim(cmd);
            &&& cmd.len() > 0
            &&& !crate::text::is_ws(cmd[0])
            &&& !crate::text::is_ws(cmd.last())
            &&& !cmd.contains(';')
            &&& p == cmd
            &&& starts_with(p, "hyprctl dispatch "@)
            &&& dispatch_fields(p).1 != seq!['"']
            &&& (dispatch_fields(p).0, unquote(dispatch_fields(p).1)) == read_back_action(d, a)
        }),
{
    reveal_strlit("hyprctl dispatch ");
    reveal_strlit(" \"");
    reveal_strlit("\"");
    let hd = "hyprctl dispatch "@;
    let dd = trim(d);
    crate::text::lemma_trim_ends(d);
    let cmd = action_command(d, a);
    let e = escape_quotes(a);
    lemma_escape(a);
    assert(!hd.contains(';')) by {
        if hd.contains(';') {
            let j = choose|j: int| 0 <= j < hd.len() && hd[j] == ';';
        }
    }
    let body = if trim(a).len() == 0 {
        dd
    } else {
        dd + " \""@ + e + "\""@
    };
    assert(cmd =~= hd + body);
    assert(body.len() > 0 && !crate::text::is_ws(body[0]));
    assert(!crate::text::is_ws(body.last()));
    assert(!body.contains(';')) by {
        if trim(a).len() > 0 {
            assert(!" \""@.contains(';')) by {
                if " \""@.contains(';') {
                    let j = choose|j: int| 0 <= j < " \""@.len() && " \""@[j] == ';';
                }
            }
            assert(!"\""@.contains(';')) by {
                if "\""@.contains(';') {
                    let j = choose|j: int| 0 <= j < "\""@.len() && "\""@[j] == ';';
                }
            }
            lemma_no_char_concat(dd, " \""@, ';');
            lemma_no_char_concat(dd + " \""@, e, ';');
            lemma_no_char_concat(dd + " \""@ + e, "\""@, ';');
        }
    }
    lemma_no_char_concat(hd, body, ';');
    assert(cmd[0] == 'h');
    assert(cmd.last() == body.last());
    crate::text::lemma_trim_fixed(cmd);
    assert(cmd.take(17) =~= hd);
    assert(cmd.skip(17) =~= body);
    crate::text::lemma_trim_fixed(body);
    if trim(a).len() == 0 {
        crate::text::lemma_find_char_absent(dd, ' ');
        let bq = seq!['\\', '"'];
        crate::text::lemma_replace_cons(Seq::<char>::empty(), bq, seq!['"']);
    } else {
        let k = dd.len() as int;
        assert forall|m: int| 0 <= m < k implies !crate::text::occurs_at(body, seq![' '], m) by {
            if crate::text::occurs_at(body, seq![' '], m) {
                assert(body.subrange(m, m + 1)[0] == body[m]);
                assert(dd[m] == ' ');
            }
        }
        assert(crate::text::occurs_at(body, seq![' '], k)) by {
            assert(body.subrange(k, k + 1) =~= seq![' ']);
        }
        crate::text::lemma_find_first(body, seq![' '], 0, k);
        assert(body.take(k) =~= dd);
        let arg = "\""@ + e + "\""@;
        assert(body.skip(k + 1) =~= arg);
        crate::text::lemma_trim_fixed(arg);
        assert(arg.subrange(1, arg.len() - 1) =~= e);
    }
}

/// A list joined with a separator is its first element, the separator,
/// and the rest joined.
proof fn lemma_join_cons(cs: Seq<Seq<char>>, sep: Seq<char>)
    requires
        cs.len() >= 2,
    ensures
        join(cs, sep) == cs[0] + sep + join(cs.drop_first(), sep),
    decreases cs.len(),
{
    if cs.len() == 2 {
        assert(cs.drop_last() =~= seq![cs[0]]);
        assert(cs.drop_first() =~= seq![cs[1]]);
        assert(join(cs.drop_last(), sep) == cs[0]);
        assert(join(cs.drop_first(), sep) == cs[1]);
        assert(cs.last() == cs[1]);
        assert(join(cs, sep) =~= cs[0] + sep + cs[1]);
    } else {
        lemma_join_cons(cs.drop_last(), sep);
        assert(cs.drop_last().drop_first() =~= cs.drop_first().drop_last());
        assert(cs.drop_first().last() == cs.last());
        assert(join(cs, sep) =~= cs[0] + sep + join(cs.drop_first(), sep));
    }
}

/// Splitting `x`, `c`, then `y`, where `x` holds no `c`: `x` comes first.
proof fn lemma_split_cons(x: Seq<char>, y: Seq<char>, c: char)
    requires
        !x.contains(c),
    ensures
        split_on(x + seq![c] + y, c) == seq![x] + split_on(y, c),
{
    let s = x + seq![c] + y;
    let k = x.len() as int;
    assert forall|m: int| 0 <= m < k implies !crate::text::occurs_at(s, seq![c], m) by {
        if crate::text::occurs_at(s, seq![c], m) {
            assert(s.subrange(m, m + 1)[0] == s[m]);
            assert(x[m] == c);
        }
    }
    assert(crate::text::occurs_at(s, seq![c], k)) by {
        assert(s.subrange(k, k + 1) =~= seq![c]);
    }
    crate::text::lemma_find_first(s, seq![c], 0, k);
    assert(s.take(k) =~= x);
    assert(s.skip(k + 1) =~= y);
}

/// The pieces of a `"; "`-joined script of commands without `;`.
proof fn lemma_split_script(pre: Seq<char>, cs: Seq<Seq<char>>)
    requires
        cs.len() > 0,
        !pre.contains(';'),
        forall|i: int| 0 <= i < cs.len() ==> !(#[trigger] cs[i]).contains(';'),
    ensures
        split_on(pre + join(cs, "; "@), ';') == seq![pre + cs[0]] + cs.drop_first().map_values(
            |c: Seq<char>| seq![' '] + c,
        ),
    decreases cs.len(),
{
    reveal_strlit("; ");
    if cs.len() == 1 {
        assert(join(cs, "; "@) == cs[0]);
        lemma_no_char_concat(pre, cs[0], ';');
        crate::text::lemma_find_char_absent(pre + cs[0], ';');
        assert(cs.drop_first().map_values(|c: Seq<char>| seq![' '] + c) =~= Seq::<Seq<char>>::empty());
        assert(pre + join(cs, "; "@) =~= pre + cs[0]);
    } else {
        lemma_join_cons(cs, "; "@);
        let rest = cs.drop_first();
        lemma_no_char_concat(pre, cs[0], ';');
        assert(pre + join(cs, "; "@) =~= (pre + cs[0]) + seq![';'] + (seq![' '] + join(rest, "; "@)));
        lemma_split_cons(pre + cs[0], seq![' '] + join(rest, "; "@), ';');
        assert(!seq![' '].contains(';')) by {
            if seq![' '].contains(';') {
                let j = choose|j: int| 0 <= j < 1 && seq![' '][j] == ';';
            }
        }
        lemma_split_script(seq![' '], rest);
        assert(cs.drop_first().map_values(|c: Seq<char>| seq![' '] + c) =~= seq![seq![' '] + rest[0]]
            + rest.drop_first().map_values(|c: Seq<char>| seq![' '] + c));
    }
}

/// Pieces that are each a command that reads back as the action at its
/// index read back as those actions.
proof fn lemma_parse_pieces(pieces: Seq<Seq<char>>, acts: Seq<(Seq<char>, Seq<char>)>)
    requires
        pieces.len() == acts.len(),
        forall|i: int|
            #![trigger pieces[i]]
            0 <= i < pieces.len() ==> {
                let p = trim(pieces[i]);
                &&& p.len() > 0
                &&& starts_with(p, "hyprctl dispatch "@)
                &&& dispatch_fields(p).1 != seq!['"']
                &&& (dispatch_fields(p).0, unquote(dispatch_fields(p).1)) == acts[i]
            },
    ensures
        parse_parts(pieces) == Some(acts),
        !parts_fail(pieces),
    decreases pieces.len(),
{
    if pieces.len() == 0 {
        assert(acts =~= Seq::<(Seq<char>, Seq<char>)>::empty());
    } else {
        let t = pieces.drop_first();
        assert forall|i: int|
            #![trigger t[i]]
            0 <= i < t.len() implies {
                let p = trim(t[i]);
                &&& p.len() > 0
                &&& starts_with(p, "hyprctl dispatch "@)
                &&& dispatch_fields(p).1 != seq!['"']
                &&& (dispatch_fields(p).0, unquote(dispatch_fields(p).1)) == acts.drop_first()[i]
            } by {
            assert(t[i] == pieces[i + 1]);
        }
        lemma_parse_pieces(t, acts.drop_first());
        assert(pieces[0] == pieces[0]);
        assert(acts =~= seq![acts[0]] + acts.drop_first());
    }
}

/// The commands of safe actions, each with the action it reads back as.
proof fn lemma_commands(actions: Seq<(Seq<char>, Seq<char>)>)
    requires
        macro_safe(actions),
    ensures
        macro_commands(actions).len() == read_back_actions(actions).len(),
        forall|i: int|
            #![trigger macro_commands(actions)[i]]
            0 <= i < macro_commands(actions).len() ==> {
                let cmd = macro_commands(actions)[i];
                let p = trim(cmd);
                &&& cmd.len() > 0
                &&& !crate::text::is_ws(cmd[0])
                &&& !crate::text::is_ws(cmd.last())
                &&& !cmd.contains(';')
                &&& p == cmd
                &&& starts_with(p, "hyprctl dispatch "@)
                &&& dispatch_fields(p).1 != seq!['"']
                &&& (dispatch_fields(p).0, unquote(dispatch_fields(p).1)) == read_back_actions(
                    actions,
                )[i]
            },
    decreases actions.len(),
{
    if actions.len() > 0 {
        let init = actions.drop_last();
        assert(macro_safe(init)) by {
            assert forall|i: int| 0 <= i < init.len() && trim(#[trigger] init[i].0).len() > 0 implies !trim(
                init[i].0,
            ).contains(' ') && !trim(init[i].0).contains(';') && !init[i].1.contains(';') by {
                assert(init[i] == actions[i]);
            }
        }
        lemma_commands(init);
        let a = actions.last();
        assert(a == actions[actions.len() - 1]);
        if trim(a.0).len() > 0 {
            lemma_command_reads_back(a.0, a.1);
        }
    }
}

/// Reading back a compiled macro gives its actions: each action with a
/// nonblank dispatcher, its dispatcher trimmed and blank arguments empty,
/// when no dispatcher holds a space or `;` and no arguments hold a `;`.
pub proof fn lemma_macro_round_trip(actions: Seq<(Seq<char>, Seq<char>)>)
    requires
        macro_safe(actions),
        macro_commands(actions).len() > 0,
    ensures
        compiled_macro(actions) is Some,
        !macro_unreadable(compiled_macro(actions).unwrap().0, compiled_macro(actions).unwrap().1),
        parsed_macro(compiled_macro(actions).unwrap().0, compiled_macro(actions).unwrap().1) == Some(
            read_back_actions(actions),
        ),
{
    reveal_strlit("exec");
    reveal_strlit("bash -c \"");
    reveal_strlit("\"");
    let cmds = macro_commands(actions);
    lemma_commands(actions);
    let j = join(cmds, "; "@);
    let args = "bash -c \""@ + j + "\""@;
    assert(!Seq::<char>::empty().contains(';'));
    lemma_split_script(Seq::<char>::empty(), cmds);
    assert(Seq::<char>::empty() + j =~= j);
    assert(cmds[0].len() > 0);
    assert(j.len() > 0) by {
        if cmds.len() >= 2 {
            lemma_join_cons(cmds, "; "@);
        }
    }
    assert(args[0] == 'b');
    assert(args.last() == '"');
    crate::text::lemma_trim_fixed(args);
    assert(args.take(9) =~= "bash -c \""@);
    assert(args.skip(args.len() - 1) =~= "\""@);
    assert(macro_script(args) =~= j);
    let pieces = split_on(j, ';');
    let acts = read_back_actions(actions);
    assert forall|i: int|
        #![trigger pieces[i]]
        0 <= i < pieces.len() implies {
            let p = trim(pieces[i]);
            &&& p.len() > 0
            &&& starts_with(p, "hyprctl dispatch "@)
            &&& dispatch_fields(p).1 != seq!['"']
            &&& (dispatch_fields(p).0, unquote(dispatch_fields(p).1)) == acts[i]
        } by {
        let c = cmds[i];
        if i == 0 {
            assert(pieces[0] == Seq::<char>::empty() + cmds[0]);
            assert(Seq::<char>::empty() + cmds[0] =~= cmds[0]);
        } else {
            assert(pieces[i] == seq![' '] + cmds[i]);
            crate::text::lemma_trim_after_space(c);
        }
    }
    lemma_parse_pieces(pieces, acts);
}

} // verus!
