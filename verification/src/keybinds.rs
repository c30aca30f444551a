//! Canonical forms of key combinations, the keybinds that collide with one
//! another, and the `exec` keybinds whose program is missing.
use crate::order::{insert_sorted, lemma_sorted_unique, strictly_sorted};
use crate::parser::{keybind_views, opt_view, Keybind, KeybindView};
use crate::text::{
    append, chars_of, concat, eq_chars, is_whitespace, is_ws, join, join_exec, lower_chars, string_of,
    trim, trim_chars, lowercase, uppercase, upper_chars, views, words, words_exec,
};
use vstd::prelude::*;

verus! {

broadcast use vstd::string::group_string_axioms;

// ---------------------------------------------------------------------------
// Modifiers
// ---------------------------------------------------------------------------

/// The characters that separate modifiers: `+` and whitespace.
pub open spec fn mod_sep(c: char) -> bool {
    c == '+' || is_ws(c)
}

/// The modifier tokens of `s`, the current one having begun as `cur`.
pub open spec fn tokens_acc(s: Seq<char>, cur: Seq<char>) -> Seq<Seq<char>>
    decreases s.len(),
{
    if s.len() == 0 {
        if cur.len() > 0 {
            seq![cur]
        } else {
            seq![]
        }
    } else if mod_sep(s[0]) {
        (if cur.len() > 0 {
            seq![cur]
        } else {
            seq![]
        }) + tokens_acc(s.drop_first(), seq![])
    } else {
        tokens_acc(s.drop_first(), cur.push(s[0]))
    }
}

/// The pieces of `s` between separators, the empty ones left out.
pub open spec fn mod_tokens(s: Seq<char>) -> Seq<Seq<char>> {
    tokens_acc(s, seq![])
}

/// The canonical name of an uppercased modifier: `MOD4`, `LOGO` and `WIN`
/// are `SUPER`, `MOD1` is `ALT`, `CONTROL` is `CTRL`; others stay.
pub open spec fn canonical_mod(u: Seq<char>) -> Seq<char> {
    if u == "MOD4"@ || u == "SUPER"@ || u == "LOGO"@ || u == "WIN"@ {
        "SUPER"@
    } else if u == "MOD1"@ || u == "ALT"@ {
        "ALT"@
    } else if u == "CONTROL"@ || u == "CTRL"@ {
        "CTRL"@
    } else if u == "SHIFT"@ {
        "SHIFT"@
    } else {
        u
    }
}

/// Whether `x` is the canonical name of a token of `toks` with a nonempty
/// uppercase form.
pub open spec fn names_token(toks: Seq<Seq<char>>, n: int, x: Seq<char>) -> bool {
    exists|i: int|
        0 <= i < n && uppercase(#[trigger] toks[i]).len() > 0 && canonical_mod(uppercase(toks[i]))
            == x
}

/// The canonical modifier names that `s` mentions.
pub open spec fn mod_names(s: Seq<char>) -> Set<Seq<char>> {
    Set::new(|x: Seq<char>| names_token(mod_tokens(s), mod_tokens(s).len() as int, x))
}

/// `r` lists the modifier names of `s` in order, each once.
pub open spec fn is_sorted_mods_of(r: Seq<Seq<char>>, s: Seq<char>) -> bool {
    strictly_sorted(r) && (forall|x: Seq<char>| r.contains(x) <==> mod_names(s).contains(x))
}

/// The modifier names of `s`, sorted, each once.
pub open spec fn sorted_mods(s: Seq<char>) -> Seq<Seq<char>> {
    choose|r: Seq<Seq<char>>| is_sorted_mods_of(r, s)
}

/// The canonical form of a modifier list: its names, sorted, each once,
/// joined by single spaces.
pub open spec fn normalized_mods(s: Seq<char>) -> Seq<char> {
    join(sorted_mods(s), seq![' '])
}

/// The key name that a lowercased key stands for: punctuation is named as
/// its keysym (`,` is `comma`, `\` is `backslash`, and so on).
pub open spec fn canonical_key(k: Seq<char>) -> Seq<char> {
    if k == " "@ {
        "space"@
    } else if k == "\\"@ {
        "backslash"@
    } else if k == "|"@ {
        "bar"@
    } else if k == "["@ {
        "bracketleft"@
    } else if k == "]"@ {
        "bracketright"@
    } else if k == "{"@ {
        "braceleft"@
    } else if k == "}"@ {
        "braceright"@
    } else if k == ";"@ {
        "semicolon"@
    } else if k == ":"@ {
        "colon"@
    } else if k == "'"@ {
        "apostrophe"@
    } else if k == "\""@ {
        "quotedbl"@
    } else if k == ","@ {
        "comma"@
    } else if k == "<"@ {
        "less"@
    } else if k == "."@ {
        "period"@
    } else if k == ">"@ {
        "greater"@
    } else if k == "/"@ {
        "slash"@
    } else if k == "?"@ {
        "question"@
    } else if k == "-"@ {
        "minus"@
    } else if k == "_"@ {
        "underscore"@
    } else if k == "="@ {
        "equal"@
    } else if k == "+"@ {
        "plus"@
    } else if k == "`"@ {
        "grave"@
    } else if k == "~"@ {
        "asciitilde"@
    } else {
        k
    }
}

/// The canonical form of a key: trimmed, lowercased, punctuation named.
pub open spec fn normalized_key(k: Seq<char>) -> Seq<char> {
    canonical_key(lowercase(trim(k)))
}

fn mod_tokens_exec(s: &[char]) -> (r: Vec<Vec<char>>)
    ensures
        views(r@) == mod_tokens(s@),
{
    let mut r: Vec<Vec<char>> = Vec::new();
    let mut cur: Vec<char> = Vec::new();
    let mut i: usize = 0;
    assert(s@.skip(0) =~= s@);
    while i < s.len()
        invariant
            i <= s@.len(),
            views(r@) + tokens_acc(s@.skip(i as int), cur@) == mod_tokens(s@),
        decreases s@.len() - i,
    {
        let ghost rest = s@.skip(i as int);
        assert(rest.drop_first() =~= s@.skip(i + 1));
        assert(rest[0] == s@[i as int]);
        let c = s[i];
        if c == '+' || is_whitespace(c) {
            if cur.len() > 0 {
                let ghost old_r = r@;
                let ghost cv = cur@;
                r.push(cur);
                assert(views(r@) =~= views(old_r) + seq![cv]);
            } else {
                assert(views(r@) + (seq![] + tokens_acc(s@.skip(i + 1), seq![])) =~= views(r@)
                    + tokens_acc(s@.skip(i + 1), seq![]));
            }
            cur = Vec::new();
            assert(cur@ =~= Seq::<char>::empty());
        } else {
            cur.push(c);
        }
        i = i + 1;
    }
    assert(s@.skip(i as int) =~= Seq::<char>::empty());
    if cur.len() > 0 {
        let ghost old_r = r@;
        let ghost cv = cur@;
        r.push(cur);
        assert(views(r@) =~= views(old_r) + seq![cv]);
    } else {
        assert(views(r@) + Seq::<Seq<char>>::empty() =~= views(r@));
    }
    r
}

fn canonical_mod_exec(u: &[char]) -> (r: Vec<char>)
    ensures
        r@ == canonical_mod(u@),
{
    if eq_chars(u, &chars_of("MOD4")) || eq_chars(u, &chars_of("SUPER")) || eq_chars(
        u,
        &chars_of("LOGO"),
    ) || eq_chars(u, &chars_of("WIN")) {
        chars_of("SUPER")
    } else if eq_chars(u, &chars_of("MOD1")) || eq_chars(u, &chars_of("ALT")) {
        chars_of("ALT")
    } else if eq_chars(u, &chars_of("CONTROL")) || eq_chars(u, &chars_of("CTRL")) {
        chars_of("CTRL")
    } else if eq_chars(u, &chars_of("SHIFT")) {
        chars_of("SHIFT")
    } else {
        crate::text::copy_chars(u)
    }
}

fn canonical_key_exec(k: &[char]) -> (r: Vec<char>)
    ensures
        r@ == canonical_key(k@),
{
    if eq_chars(k, &chars_of(" ")) {
        chars_of("space")
    } else if eq_chars(k, &chars_of("\\")) {
        chars_of("backslash")
    } else if eq_chars(k, &chars_of("|")) {
        chars_of("bar")
    } else if eq_chars(k, &chars_of("[")) {
        chars_of("bracketleft")
    } else if eq_chars(k, &chars_of("]")) {
        chars_of("bracketright")
    } else if eq_chars(k, &chars_of("{")) {
        chars_of("braceleft")
    } else if eq_chars(k, &chars_of("}")) {
        chars_of("braceright")
    } else if eq_chars(k, &chars_of(";")) {
        chars_of("semicolon")
    } else if eq_chars(k, &chars_of(":")) {
        chars_of("colon")
    } else if eq_chars(k, &chars_of("'")) {
        chars_of("apostrophe")
    } else if eq_chars(k, &chars_of("\"")) {
        chars_of("quotedbl")
    } else if eq_chars(k, &chars_of(",")) {
        chars_of("comma")
    } else if eq_chars(k, &chars_of("<")) {
        chars_of("less")
    } else if eq_chars(k, &chars_of(".")) {
        chars_of("period")
    } else if eq_chars(k, &chars_of(">")) {
        chars_of("greater")
    } else if eq_chars(k, &chars_of("/")) {
        chars_of("slash")
    } else if eq_chars(k, &chars_of("?")) {
        chars_of("question")
    } else if eq_chars(k, &chars_of("-")) {
        chars_of("minus")
    } else if eq_chars(k, &chars_of("_")) {
        chars_of("underscore")
    } else if eq_chars(k, &chars_of("=")) {
        chars_of("equal")
    } else if eq_chars(k, &chars_of("+")) {
        chars_of("plus")
    } else if eq_chars(k, &chars_of("`")) {
        chars_of("grave")
    } else if eq_chars(k, &chars_of("~")) {
        chars_of("asciitilde")
    } else {
        crate::text::copy_chars(k)
    }
}

/// The sorted, repeat-free canonical modifier names of `mods`.
fn sorted_mods_exec(mods: &[char]) -> (r: Vec<Vec<char>>)
    ensures
        views(r@) == sorted_mods(mods@),
{
    let toks = mod_tokens_exec(mods);
    let ghost tv = views(toks@);
    let mut acc: Vec<Vec<char>> = Vec::new();
    let mut j: usize = 0;
    while j < toks.len()
        invariant
            j <= toks@.len(),
            tv == views(toks@),
            tv == mod_tokens(mods@),
            strictly_sorted(views(acc@)),
            forall|x: Seq<char>| views(acc@).contains(x) <==> names_token(tv, j as int, x),
        decreases toks@.len() - j,
    {
        let u = upper_chars(&toks[j]);
        let ghost before = views(acc@);
        if u.len() > 0 {
            let c = canonical_mod_exec(&u);
            let ghost cv = c@;
            insert_sorted(&mut acc, c);
            assert forall|x: Seq<char>| views(acc@).contains(x) <==> names_token(tv, j + 1, x) by {
                if names_token(tv, j + 1, x) {
                    let i = choose|i: int|
                        0 <= i < j + 1 && uppercase(#[trigger] tv[i]).len() > 0 && canonical_mod(
                            uppercase(tv[i]),
                        ) == x;
                    if i < j {
                        assert(names_token(tv, j as int, x));
                    }
                }
                if names_token(tv, j as int, x) {
                    let i = choose|i: int|
                        0 <= i < j && uppercase(#[trigger] tv[i]).len() > 0 && canonical_mod(
                            uppercase(tv[i]),
                        ) == x;
                    assert(names_token(tv, j + 1, x));
                }
                if x == cv {
                    assert(tv[j as int] == toks@[j as int]@);
                    assert(names_token(tv, j + 1, x));
                }
            }
        } else {
            assert forall|x: Seq<char>| views(acc@).contains(x) <==> names_token(tv, j + 1, x) by {
                if names_token(tv, j + 1, x) {
                    let i = choose|i: int|
                        0 <= i < j + 1 && uppercase(#[trigger] tv[i]).len() > 0 && canonical_mod(
                            uppercase(tv[i]),
                        ) == x;
                    assert(tv[j as int] == toks@[j as int]@);
                    assert(i != j);
                    assert(names_token(tv, j as int, x));
                }
                if names_token(tv, j as int, x) {
                    let i = choose|i: int|
                        0 <= i < j && uppercase(#[trigger] tv[i]).len() > 0 && canonical_mod(
                            uppercase(tv[i]),
                        ) == x;
                    assert(names_token(tv, j + 1, x));
                }
            }
        }
        j = j + 1;
    }
    proof {
        assert forall|x: Seq<char>| views(acc@).contains(x) <==> mod_names(mods@).contains(x) by {}
        assert(is_sorted_mods_of(views(acc@), mods@));
        lemma_sorted_unique(sorted_mods(mods@), views(acc@));
    }
    acc
}

/// The canonical forms of a modifier list and of a key, by which two
/// keybinds are compared: `("SHIFT SUPER", "comma")` for `"super+Shift"`
/// and `","`.
pub fn normalize(mods: &str, key: &str) -> (r: (String, String))
    ensures
        r.0@ == normalized_mods(mods@),
        r.1@ == normalized_key(key@),
{
    let names = sorted_mods_exec(&chars_of(mods));
    let sp = vec![' '];
    assert(sp@ == seq![' ']);
    let joined = join_exec(&names, &sp);
    let lk = lower_chars(&trim_chars(&chars_of(key)));
    let ck = canonical_key_exec(&lk);
    (string_of(&joined), string_of(&ck))
}

/// Modifier lists that name the same modifiers have the same canonical form,
/// whatever their order, spelling, case or repeats.
pub proof fn lemma_normalized_mods_by_names(a: Seq<char>, b: Seq<char>)
    requires
        mod_names(a) == mod_names(b),
    ensures
        normalized_mods(a) == normalized_mods(b),
{
    lemma_sorted_mods(a);
    lemma_sorted_mods(b);
    lemma_sorted_unique(sorted_mods(a), sorted_mods(b));
}

/// The sorted names of `s` are sorted, each held once, and are its names.
pub proof fn lemma_sorted_mods(s: Seq<char>)
    ensures
        is_sorted_mods_of(sorted_mods(s), s),
{
    let toks = mod_tokens(s);
    let w = sorted_witness(toks, toks.len() as int);
    assert forall|x: Seq<char>| w.contains(x) <==> mod_names(s).contains(x) by {}
    assert(is_sorted_mods_of(w, s));
}

/// A sorted list of the names of the first `n` tokens.
proof fn sorted_witness(toks: Seq<Seq<char>>, n: int) -> (w: Seq<Seq<char>>)
    requires
        0 <= n <= toks.len(),
    ensures
        strictly_sorted(w),
        forall|x: Seq<char>| w.contains(x) <==> names_token(toks, n, x),
    decreases n,
{
    if n == 0 {
        let w = Seq::<Seq<char>>::empty();
        assert forall|x: Seq<char>| w.contains(x) <==> names_token(toks, n, x) by {}
        w
    } else {
        let p = sorted_witness(toks, n - 1);
        let u = uppercase(toks[n - 1]);
        if u.len() > 0 && !p.contains(canonical_mod(u)) {
            let c = canonical_mod(u);
            let w = sorted_with(p, c);
            assert forall|x: Seq<char>| w.contains(x) <==> names_token(toks, n, x) by {
                if names_token(toks, n, x) {
                    let i = choose|i: int|
                        0 <= i < n && uppercase(#[trigger] toks[i]).len() > 0 && canonical_mod(
                            uppercase(toks[i]),
                        ) == x;
                    if i < n - 1 {
                        assert(names_token(toks, n - 1, x));
                    }
                }
                if names_token(toks, n - 1, x) {
                    let i = choose|i: int|
                        0 <= i < n - 1 && uppercase(#[trigger] toks[i]).len() > 0 && canonical_mod(
                            uppercase(toks[i]),
                        ) == x;
                    assert(names_token(toks, n, x));
                }
                if x == c {
                    assert(names_token(toks, n, x));
                }
            }
            w
        } else {
            assert forall|x: Seq<char>| p.contains(x) <==> names_token(toks, n, x) by {
                if names_token(toks, n, x) {
                    let i = choose|i: int|
                        0 <= i < n && uppercase(#[trigger] toks[i]).len() > 0 && canonical_mod(
                            uppercase(toks[i]),
                        ) == x;
                    if i < n - 1 {
                        assert(names_token(toks, n - 1, x));
                    }
                }
                if names_token(toks, n - 1, x) {
                    let i = choose|i: int|
                        0 <= i < n - 1 && uppercase(#[trigger] toks[i]).len() > 0 && canonical_mod(
                            uppercase(toks[i]),
                        ) == x;
                    assert(names_token(toks, n, x));
                }
            }
            p
        }
    }
}

/// A strictly sorted list with `c` put in its place.
proof fn sorted_with(p: Seq<Seq<char>>, c: Seq<char>) -> (w: Seq<Seq<char>>)
    requires
        strictly_sorted(p),
        !p.contains(c),
    ensures
        strictly_sorted(w),
        forall|x: Seq<char>| w.contains(x) <==> (p.contains(x) || x == c),
    decreases p.len(),
{
    if p.len() == 0 {
        let w = seq![c];
        assert forall|x: Seq<char>| w.contains(x) <==> (p.contains(x) || x == c) by {
            if x == c {
                assert(w[0] == x);
            }
        }
        w
    } else if crate::order::lex_lt(c, p[0]) {
        let w = seq![c] + p;
        assert forall|a: int, b: int| 0 <= a < b < w.len() implies crate::order::lex_lt(
            w[a],
            w[b],
        ) by {
            if a == 0 {
                if b > 1 {
                    assert(crate::order::lex_lt(p[0], p[b - 1]));
                    crate::order::lemma_lex_transitive(c, p[0], p[b - 1]);
                }
            } else {
                assert(w[a] == p[a - 1] && w[b] == p[b - 1]);
            }
        }
        assert forall|x: Seq<char>| w.contains(x) <==> (p.contains(x) || x == c) by {
            if w.contains(x) && x != c {
                let j = choose|j: int| 0 <= j < w.len() && w[j] == x;
                assert(p[j - 1] == x);
            }
            if p.contains(x) {
                let j = choose|j: int| 0 <= j < p.len() && p[j] == x;
                assert(w[j + 1] == x);
            }
            if x == c {
                assert(w[0] == x);
            }
        }
        w
    } else {
        let t = p.drop_first();
        assert(strictly_sorted(t)) by {
            assert forall|a: int, b: int| 0 <= a < b < t.len() implies crate::order::lex_lt(
                t[a],
                t[b],
            ) by {
                assert(t[a] == p[a + 1] && t[b] == p[b + 1]);
            }
        }
        assert(!t.contains(c)) by {
            if t.contains(c) {
                let j = choose|j: int| 0 <= j < t.len() && t[j] == c;
                assert(p[j + 1] == c);
            }
        }
        assert(p[0] != c) by {
            assert(p.contains(p[0]));
        }
        crate::order::lemma_lex_total(c, p[0]);
        let tw = sorted_with(t, c);
        let w = seq![p[0]] + tw;
        assert forall|a: int, b: int| 0 <= a < b < w.len() implies crate::order::lex_lt(
            w[a],
            w[b],
        ) by {
            if a == 0 {
                assert(w[b] == tw[b - 1]);
                assert(tw.contains(tw[b - 1]));
                if tw[b - 1] != c {
                    let j = choose|j: int| 0 <= j < t.len() && t[j] == tw[b - 1];
                    assert(p[j + 1] == t[j]);
                }
            } else {
                assert(w[a] == tw[a - 1] && w[b] == tw[b - 1]);
            }
        }
        assert forall|x: Seq<char>| w.contains(x) <==> (p.contains(x) || x == c) by {
            if w.contains(x) {
                let j = choose|j: int| 0 <= j < w.len() && w[j] == x;
                if j == 0 {
                    assert(p[0] == x);
                } else {
                    assert(tw[j - 1] == x);
                    assert(tw.contains(x));
                    if x != c {
                        let k = choose|k: int| 0 <= k < t.len() && t[k] == x;
                        assert(p[k + 1] == x);
                    }
                }
            }
            if p.contains(x) {
                let j = choose|j: int| 0 <= j < p.len() && p[j] == x;
                if j == 0 {
                    assert(w[0] == x);
                } else {
                    assert(t[j - 1] == x);
                    assert(t.contains(x));
                    let k = choose|k: int| 0 <= k < tw.len() && tw[k] == x;
                    assert(w[k + 1] == x);
                }
            }
            if x == c {
                assert(tw.contains(x));
                let k = choose|k: int| 0 <= k < tw.len() && tw[k] == x;
                assert(w[k + 1] == x);
            }
        }
        w
    }
}

// ---------------------------------------------------------------------------
// Collisions
// ---------------------------------------------------------------------------

/// What two keybinds must share to collide: canonical modifiers, canonical
/// key and submap (none counting as the empty name).
pub open spec fn conflict_key(k: KeybindView) -> (Seq<char>, Seq<char>, Seq<char>) {
    (
        normalized_mods(k.clean_mods),
        normalized_key(k.key),
        match k.submap {
            Some(s) => s,
            None => seq![],
        },
    )
}

/// How a keybind's action is shown: the dispatcher, and its arguments after
/// a space when they are not blank.
pub open spec fn action_text(k: KeybindView) -> Seq<char> {
    if trim(k.args).len() == 0 {
        k.dispatcher
    } else {
        k.dispatcher + seq![' '] + k.args
    }
}

/// The actions of the keybinds among the first `n` that collide with
/// keybind `i`, in order, `i` itself left out.
pub open spec fn collisions(ks: Seq<KeybindView>, i: int, n: int) -> Seq<Seq<char>>
    decreases n,
{
    if n <= 0 {
        seq![]
    } else {
        collisions(ks, i, n - 1) + (if n - 1 != i && conflict_key(ks[n - 1]) == conflict_key(ks[i]) {
            seq![action_text(ks[n - 1])]
        } else {
            seq![]
        })
    }
}

/// Why keybind `i` is marked as conflicting: `Conflicts with: ` and the
/// actions of all others with its key combination, joined by `, `; none when
/// no other keybind has it.
pub open spec fn conflict_reason(ks: Seq<KeybindView>, i: int) -> Option<Seq<char>> {
    let o = collisions(ks, i, ks.len() as int);
    if o.len() > 0 {
        Some("Conflicts with: "@ + join(o, ", "@))
    } else {
        None
    }
}

/// Some keybind among the first `n`, other than `i`, shares keybind `i`'s
/// combination exactly when the collisions among them are not empty.
proof fn lemma_collisions_nonempty(ks: Seq<KeybindView>, i: int, n: int)
    requires
        0 <= n <= ks.len(),
    ensures
        collisions(ks, i, n).len() > 0 <==> exists|j: int|
            0 <= j < n && j != i && conflict_key(#[trigger] ks[j]) == conflict_key(ks[i]),
    decreases n,
{
    if n > 0 {
        lemma_collisions_nonempty(ks, i, n - 1);
        if n - 1 != i && conflict_key(ks[n - 1]) == conflict_key(ks[i]) {
            assert(collisions(ks, i, n).len() > 0);
        } else {
            assert(collisions(ks, i, n) =~= collisions(ks, i, n - 1));
            assert forall|j: int| 0 <= j < n && j != i && conflict_key(#[trigger] ks[j]) == conflict_key(ks[i])
                implies j < n - 1 by {}
        }
    }
}

/// A keybind is marked as conflicting exactly when another keybind has its
/// key combination (canonical modifiers, key and submap); so whenever one is
/// marked, the keybind it collides with is marked too.
pub proof fn lemma_conflicts_come_in_pairs(ks: Seq<KeybindView>, i: int)
    requires
        0 <= i < ks.len(),
    ensures
        conflict_reason(ks, i) is Some <==> exists|j: int|
            0 <= j < ks.len() && j != i && conflict_key(#[trigger] ks[j]) == conflict_key(ks[i]),
        conflict_reason(ks, i) is Some ==> exists|j: int|
            0 <= j < ks.len() && j != i && (#[trigger] conflict_reason(ks, j)) is Some,
{
    lemma_collisions_nonempty(ks, i, ks.len() as int);
    if conflict_reason(ks, i) is Some {
        let j = choose|j: int| 0 <= j < ks.len() && j != i && conflict_key(#[trigger] ks[j]) == conflict_key(ks[i]);
        lemma_collisions_nonempty(ks, j, ks.len() as int);
        assert(conflict_key(ks[i]) == conflict_key(ks[j]));
        assert(conflict_reason(ks, j) is Some);
    }
}

fn action_text_exec(k: &Keybind) -> (r: Vec<char>)
    ensures
        r@ == action_text(k@),
{
    let d = chars_of(k.dispatcher.as_str());
    let a = chars_of(k.args.as_str());
    if trim_chars(&a).len() == 0 {
        d
    } else {
        let sp = vec![' '];
        assert(sp@ == seq![' ']);
        concat(&concat(&d, &sp), &a)
    }
}

/// For each keybind, why it conflicts with others, if it does.
pub fn detect_conflicts(keybinds: &[Keybind]) -> (r: Vec<Option<String>>)
    ensures
        r@.len() == keybinds@.len(),
        forall|i: int|
            0 <= i < r@.len() ==> opt_view(#[trigger] r@[i]) == conflict_reason(keybind_views(keybinds@), i),
{
    let ghost ks = keybind_views(keybinds@);
    let mut mods: Vec<Vec<char>> = Vec::new();
    let mut keys: Vec<Vec<char>> = Vec::new();
    let mut subs: Vec<Vec<char>> = Vec::new();
    let mut n: usize = 0;
    while n < keybinds.len()
        invariant
            n <= keybinds@.len(),
            ks == keybind_views(keybinds@),
            mods@.len() == n && keys@.len() == n && subs@.len() == n,
            forall|j: int|
                0 <= j < n ==> (#[trigger] mods@[j])@ == conflict_key(ks[j]).0 && keys@[j]@
                    == conflict_key(ks[j]).1 && subs@[j]@ == conflict_key(ks[j]).2,
        decreases keybinds@.len() - n,
    {
        let kb = &keybinds[n];
        assert(ks[n as int] == kb@);
        let (m, k) = normalize(kb.clean_mods.as_str(), kb.key.as_str());
        mods.push(chars_of(m.as_str()));
        keys.push(chars_of(k.as_str()));
        let s = match &kb.submap {
            Some(s) => chars_of(s.as_str()),
            None => Vec::new(),
        };
        assert(s@ == conflict_key(ks[n as int]).2);
        subs.push(s);
        n = n + 1;
    }
    let mut r: Vec<Option<String>> = Vec::new();
    let mut i: usize = 0;
    while i < keybinds.len()
        invariant
            i <= keybinds@.len(),
            ks == keybind_views(keybinds@),
            mods@.len() == keybinds@.len() && keys@.len() == keybinds@.len() && subs@.len()
                == keybinds@.len(),
            forall|j: int|
                0 <= j < keybinds@.len() ==> (#[trigger] mods@[j])@ == conflict_key(ks[j]).0
                    && keys@[j]@ == conflict_key(ks[j]).1 && subs@[j]@ == conflict_key(ks[j]).2,
            r@.len() == i,
            forall|j: int| 0 <= j < i ==> opt_view(#[trigger] r@[j]) == conflict_reason(ks, j),
        decreases keybinds@.len() - i,
    {
        let mut others: Vec<Vec<char>> = Vec::new();
        let mut j: usize = 0;
        assert(mods@[i as int]@ == conflict_key(ks[i as int]).0);
        while j < keybinds.len()
            invariant
                j <= keybinds@.len(),
                i < keybinds@.len(),
                ks == keybind_views(keybinds@),
                mods@.len() == keybinds@.len() && keys@.len() == keybinds@.len() && subs@.len()
                    == keybinds@.len(),
                forall|t: int|
                    0 <= t < keybinds@.len() ==> (#[trigger] mods@[t])@ == conflict_key(ks[t]).0
                        && keys@[t]@ == conflict_key(ks[t]).1 && subs@[t]@ == conflict_key(ks[t]).2,
                views(others@) == collisions(ks, i as int, j as int),
            decreases keybinds@.len() - j,
        {
            assert(mods@[j as int]@ == conflict_key(ks[j as int]).0);
            let same = eq_chars(&mods[j], &mods[i]) && eq_chars(&keys[j], &keys[i]) && eq_chars(
                &subs[j],
                &subs[i],
            );
            if j != i && same {
                let kb = &keybinds[j];
                assert(ks[j as int] == kb@);
                let a = action_text_exec(kb);
                let ghost old_o = views(others@);
                others.push(a);
                assert(views(others@) =~= old_o + seq![a@]);
            } else {
                assert(collisions(ks, i as int, j + 1) =~= collisions(ks, i as int, j as int));
            }
            j = j + 1;
        }
        if others.len() > 0 {
            let mut msg = chars_of("Conflicts with: ");
            append(&mut msg, &join_exec(&others, &chars_of(", ")));
            r.push(Some(string_of(&msg)));
        } else {
            r.push(None);
        }
        i = i + 1;
    }
    r
}

// ---------------------------------------------------------------------------
// Missing programs
// ---------------------------------------------------------------------------

/// The command an `exec` or `execr` keybind runs (the dispatcher compared
/// after lowercasing), when its arguments are not blank.
pub open spec fn exec_command(k: KeybindView) -> Option<Seq<char>> {
    let d = lowercase(k.dispatcher);
    if (d == "exec"@ || d == "execr"@) && trim(k.args).len() > 0 {
        Some(trim(k.args))
    } else {
        None
    }
}

/// The message for a command whose program was not found: its first word.
pub open spec fn missing_program_reason(cmd: Seq<char>) -> Seq<char> {
    "Executable not found: "@ + (if words(cmd).len() > 0 {
        words(cmd)[0]
    } else {
        seq![]
    })
}

/// The command that keybind `kb` runs and whose program should exist.
pub fn command_of(kb: &Keybind) -> (r: Option<String>)
    ensures
        opt_view(r) == exec_command(kb@),
{
    let d = lower_chars(&chars_of(kb.dispatcher.as_str()));
    let cmd = trim_chars(&chars_of(kb.args.as_str()));
    if (eq_chars(&d, &chars_of("exec")) || eq_chars(&d, &chars_of("execr"))) && cmd.len() > 0 {
        Some(string_of(&cmd))
    } else {
        None
    }
}

/// For each keybind, the message that marks it broken: an `exec` keybind
/// whose program `exists` says is missing. `exists[i]` is whether the
/// program of keybind `i`'s command was found; it is not read for other
/// keybinds.
pub fn detect_broken(keybinds: &[Keybind], exists: &[bool]) -> (r: Vec<Option<String>>)
    requires
        exists@.len() == keybinds@.len(),
    ensures
        r@.len() == keybinds@.len(),
        forall|i: int|
            0 <= i < r@.len() ==> opt_view(#[trigger] r@[i]) == match exec_command(keybinds@[i]@) {
                Some(c) => if exists@[i] {
                    None
                } else {
                    Some(missing_program_reason(c))
                },
                None => None,
            },
{
    let mut r: Vec<Option<String>> = Vec::new();
    let mut i: usize = 0;
    while i < keybinds.len()
        invariant
            i <= keybinds@.len(),
            exists@.len() == keybinds@.len(),
            r@.len() == i,
            forall|j: int|
                0 <= j < i ==> opt_view(#[trigger] r@[j]) == match exec_command(keybinds@[j]@) {
                    Some(c) => if exists@[j] {
                        None
                    } else {
                        Some(missing_program_reason(c))
                    },
                    None => None,
                },
        decreases keybinds@.len() - i,
    {
        match command_of(&keybinds[i]) {
            Some(c) => {
                if exists[i] {
                    r.push(None);
                } else {
                    let ws = words_exec(&chars_of(c.as_str()));
                    let mut msg = chars_of("Executable not found: ");
                    if ws.len() > 0 {
                        append(&mut msg, &ws[0]);
                    } else {
                        assert(msg@ =~= msg@ + Seq::<char>::empty());
                    }
                    r.push(Some(string_of(&msg)));
                }
            },
            None => {
                r.push(None);
            },
        }
        i = i + 1;
    }
    r
}

} // verus!
