//! References to variables in a configuration file's text: renaming them,
//! counting them, replacing them by their value, and turning literal values
//! in keybinds into references.
use crate::text::{
    append, chars_of, lead_from, lines, lines_exec, occurs_at, occurs_at_exec, skip_ws,
    starts_with, starts_with_exec, string_of, trim, trim_chars, trim_start_char,
    trim_start_char_exec, alphanumeric, is_alphanumeric, views,
};
use crate::vars::string_views;
use vstd::prelude::*;

verus! {

broadcast use vstd::string::group_string_axioms;

/// A character that may continue a variable name.
pub open spec fn name_char(c: char) -> bool {
    alphanumeric(c) || c == '_'
}

/// Nothing that continues a name follows index `e`.
pub open spec fn ends_name(s: Seq<char>, e: int) -> bool {
    e >= s.len() || !name_char(s[e])
}

/// The first character at or after `e` that is not whitespace is `=`: the
/// reference is the name of a definition.
pub open spec fn defined_at(s: Seq<char>, e: int) -> bool {
    lead_from(s, e) < s.len() && s[lead_from(s, e)] == '='
}

/// A reference to `pat` at `i` (ending at `e`) that counts: it ends a name,
/// and, when definitions are skipped, it is not a definition's name.
pub open spec fn counts(s: Seq<char>, e: int, skip_defs: bool) -> bool {
    ends_name(s, e) && !(skip_defs && defined_at(s, e))
}

/// `s[i..]` with the references to `pat` (occurrences found left to right,
/// without overlap) that count replaced by `rep`.
pub open spec fn subst_refs(s: Seq<char>, pat: Seq<char>, rep: Seq<char>, i: int, skip_defs: bool) -> Seq<
    char,
>
    decreases s.len() - i,
{
    if i < 0 || i >= s.len() {
        seq![]
    } else if pat.len() > 0 && occurs_at(s, pat, i) {
        (if counts(s, i + pat.len(), skip_defs) {
            rep
        } else {
            pat
        }) + subst_refs(s, pat, rep, i + pat.len(), skip_defs)
    } else {
        seq![s[i]] + subst_refs(s, pat, rep, i + 1, skip_defs)
    }
}

/// How many references to `pat` in `s[i..]` count.
pub open spec fn count_refs(s: Seq<char>, pat: Seq<char>, i: int, skip_defs: bool) -> nat
    decreases s.len() - i,
{
    if i < 0 || i >= s.len() {
        0
    } else if pat.len() > 0 && occurs_at(s, pat, i) {
        (if counts(s, i + pat.len(), skip_defs) {
            1nat
        } else {
            0nat
        }) + count_refs(s, pat, i + pat.len(), skip_defs)
    } else {
        count_refs(s, pat, i + 1, skip_defs)
    }
}

/// A reference to variable `name` (with or without its `$`).
pub open spec fn reference(name: Seq<char>) -> Seq<char> {
    "$"@ + trim_start_char(name, '$')
}

fn name_char_exec(c: char) -> (r: bool)
    ensures
        r == name_char(c),
{
    is_alphanumeric(c) || c == '_'
}

fn ends_name_exec(s: &[char], e: usize) -> (r: bool)
    ensures
        r == ends_name(s@, e as int),
{
    e >= s.len() || !name_char_exec(s[e])
}

fn defined_at_exec(s: &[char], e: usize) -> (r: bool)
    requires
        e <= s@.len(),
    ensures
        r == defined_at(s@, e as int),
{
    let k = skip_ws(s, e);
    k < s.len() && s[k] == '='
}

/// Substitutes and counts the references to `pat` in `s`.
fn subst_refs_exec(s: &[char], pat: &[char], rep: &[char], skip_defs: bool) -> (r: (Vec<char>, usize))
    ensures
        r.0@ == subst_refs(s@, pat@, rep@, 0, skip_defs),
        r.1 == count_refs(s@, pat@, 0, skip_defs),
{
    let mut out: Vec<char> = Vec::new();
    let mut n: usize = 0;
    let mut i: usize = 0;
    while i < s.len()
        invariant
            i <= s@.len(),
            n <= i,
            out@ + subst_refs(s@, pat@, rep@, i as int, skip_defs) == subst_refs(s@, pat@, rep@, 0, skip_defs),
            n + count_refs(s@, pat@, i as int, skip_defs) == count_refs(s@, pat@, 0, skip_defs),
        decreases s@.len() - i,
    {
        if pat.len() > 0 && occurs_at_exec(s, pat, i) {
            let e = i + pat.len();
            if ends_name_exec(s, e) && !(skip_defs && defined_at_exec(s, e)) {
                append(&mut out, rep);
                n = n + 1;
            } else {
                append(&mut out, pat);
            }
            assert(out@ + subst_refs(s@, pat@, rep@, e as int, skip_defs) =~= subst_refs(s@, pat@, rep@, 0, skip_defs));
            i = e;
        } else {
            out.push(s[i]);
            assert(out@ + subst_refs(s@, pat@, rep@, i + 1, skip_defs) =~= subst_refs(s@, pat@, rep@, 0, skip_defs));
            i = i + 1;
        }
    }
    assert(out@ + subst_refs(s@, pat@, rep@, i as int, skip_defs) =~= out@);
    (out, n)
}

/// Renames the references `$old_name` in `content` to `$new_name` (a
/// reference must end where its name ends), and tells whether any was renamed.
pub fn replace_variable_in_content(content: &str, old_name: &str, new_name: &str) -> (r: (String, bool))
    ensures
        r.0@ == subst_refs(content@, "$"@ + old_name@, "$"@ + new_name@, 0, false),
        r.1 == (count_refs(content@, "$"@ + old_name@, 0, false) > 0),
{
    let s = chars_of(content);
    let mut pat = chars_of("$");
    append(&mut pat, &chars_of(old_name));
    let mut rep = chars_of("$");
    append(&mut rep, &chars_of(new_name));
    let (out, n) = subst_refs_exec(&s, &pat, &rep, false);
    (string_of(&out), n > 0)
}

/// How many references to variable `name` `content` holds, definitions of it
/// not counted.
pub fn count_references_in_content(content: &str, name: &str) -> (r: usize)
    ensures
        r == count_refs(content@, reference(name@), 0, true),
{
    let s = chars_of(content);
    let mut pat = chars_of("$");
    append(&mut pat, &trim_start_char_exec(&chars_of(name), '$'));
    let (_, n) = subst_refs_exec(&s, &pat, &pat, true);
    n
}

/// Replaces the references to variable `name` in `content` by `value`
/// (definitions of it stay), and tells whether any was replaced.
pub fn inline_references_in_content(content: &str, name: &str, value: &str) -> (r: (String, bool))
    ensures
        r.0@ == subst_refs(content@, reference(name@), value@, 0, true),
        r.1 == (count_refs(content@, reference(name@), 0, true) > 0),
{
    let s = chars_of(content);
    let mut pat = chars_of("$");
    append(&mut pat, &trim_start_char_exec(&chars_of(name), '$'));
    let (out, n) = subst_refs_exec(&s, &pat, &chars_of(value), true);
    (string_of(&out), n > 0)
}

// ---------------------------------------------------------------------------
// Literal values in keybinds
// ---------------------------------------------------------------------------

/// A character that joins a literal value to its surroundings.
pub open spec fn word_char(c: char) -> bool {
    alphanumeric(c) || c == '_' || c == '-'
}

/// An occurrence of a literal value from `i` to `e` stands as a word of its own.
pub open spec fn stands_alone(s: Seq<char>, i: int, e: int) -> bool {
    (i == 0 || !(word_char(s[i - 1]) || s[i - 1] == '$')) && (e >= s.len() || !word_char(s[e]))
}

/// `s[i..]` with each occurrence of `v` (found left to right without overlap;
/// an empty `v` occurs at every position) that stands alone replaced by
/// `rep`, and how many were replaced.
pub open spec fn replace_literal(s: Seq<char>, v: Seq<char>, rep: Seq<char>, i: int) -> (Seq<char>, nat)
    decreases s.len() + 1 - i,
{
    if i < 0 || i > s.len() {
        (seq![], 0)
    } else if occurs_at(s, v, i) {
        let hit = stands_alone(s, i, i + v.len());
        let out = if hit {
            rep
        } else {
            v
        };
        let n: nat = if hit {
            1
        } else {
            0
        };
        if v.len() > 0 {
            let r = replace_literal(s, v, rep, i + v.len());
            (out + r.0, n + r.1)
        } else {
            let r = replace_literal(s, v, rep, i + 1);
            (out + (if i < s.len() {
                seq![s[i]]
            } else {
                seq![]
            }) + r.0, n + r.1)
        }
    } else if i < s.len() {
        let r = replace_literal(s, v, rep, i + 1);
        (seq![s[i]] + r.0, r.1)
    } else {
        (seq![], 0)
    }
}

/// The lines with the literal `v` replaced by `rep` in keybind lines (lines
/// that, trimmed, begin with `bind`), and how many were replaced.
pub open spec fn refactor_lines(ls: Seq<Seq<char>>, v: Seq<char>, rep: Seq<char>) -> (Seq<Seq<char>>, nat)
    decreases ls.len(),
{
    if ls.len() == 0 {
        (seq![], 0)
    } else {
        let r = refactor_lines(ls.drop_last(), v, rep);
        let l = ls.last();
        if starts_with(trim(l), "bind"@) {
            let x = replace_literal(l, v, rep, 0);
            (r.0.push(x.0), r.1 + x.1)
        } else {
            (r.0.push(l), r.1)
        }
    }
}

proof fn lemma_replace_literal_count(s: Seq<char>, v: Seq<char>, rep: Seq<char>, i: int)
    requires
        0 <= i <= s.len() + 1,
    ensures
        replace_literal(s, v, rep, i).1 <= s.len() + 1 - i,
    decreases s.len() + 1 - i,
{
    if i <= s.len() {
        if occurs_at(s, v, i) {
            if v.len() > 0 {
                lemma_replace_literal_count(s, v, rep, i + v.len());
            } else {
                lemma_replace_literal_count(s, v, rep, i + 1);
            }
        } else if i < s.len() {
            lemma_replace_literal_count(s, v, rep, i + 1);
        }
    }
}

fn replace_literal_exec(s: &[char], v: &[char], rep: &[char]) -> (r: (Vec<char>, usize))
    requires
        s@.len() < usize::MAX,
    ensures
        (r.0@, r.1 as nat) == replace_literal(s@, v@, rep@, 0),
{
    proof {
        lemma_replace_literal_count(s@, v@, rep@, 0);
    }
    let mut out: Vec<char> = Vec::new();
    let mut n: usize = 0;
    let mut i: usize = 0;
    while i <= s.len()
        invariant
            i <= s@.len() + 1,
            s@.len() < usize::MAX,
            n <= i,
            ({
                let whole = replace_literal(s@, v@, rep@, 0);
                let rest = replace_literal(s@, v@, rep@, i as int);
                whole.0 == out@ + rest.0 && whole.1 == n + rest.1
            }),
        decreases s@.len() + 1 - i,
    {
        if occurs_at_exec(s, v, i) {
            let e = i + v.len();
            let hit = (i == 0 || !(is_alphanumeric(s[i - 1]) || s[i - 1] == '_' || s[i - 1] == '-'
                || s[i - 1] == '$')) && (e >= s.len() || !(is_alphanumeric(s[e]) || s[e] == '_'
                || s[e] == '-'));
            if hit {
                append(&mut out, rep);
                n = n + 1;
            } else {
                append(&mut out, v);
            }
            if v.len() > 0 {
                i = e;
            } else {
                if i < s.len() {
                    out.push(s[i]);
                }
                i = i + 1;
            }
        } else if i < s.len() {
            out.push(s[i]);
            i = i + 1;
        } else {
            i = i + 1;
        }
        assert(replace_literal(s@, v@, rep@, 0).0 =~= out@ + replace_literal(s@, v@, rep@, i as int).0);
    }
    assert(out@ + replace_literal(s@, v@, rep@, i as int).0 =~= out@);
    (out, n)
}

/// The lines of `content` with the literal `value` turned into a reference
/// to `variable_name` wherever it stands alone in a keybind line, and how
/// many were turned.
pub fn refactor_references_in_content(content: &str, value: &str, variable_name: &str) -> (r: (
    Vec<String>,
    usize,
))
    requires
        content@.len() <= isize::MAX,
    ensures
        (string_views(r.0@), r.1 as nat) == refactor_lines(lines(content@), value@, reference(variable_name@)),
{
    let s = chars_of(content);
    let ls = lines_exec(&s);
    let v = chars_of(value);
    let mut rep = chars_of("$");
    append(&mut rep, &trim_start_char_exec(&chars_of(variable_name), '$'));
    let mut out: Vec<String> = Vec::new();
    let mut n: usize = 0;
    let mut i: usize = 0;
    let ghost lv = views(ls@);
    proof {
        lemma_lines_from_total(s@, 0);
        assert(lv.skip(0) == lv);
        assert(string_views(out@) =~= Seq::<Seq<char>>::empty());
        assert(lv.take(0) =~= Seq::<Seq<char>>::empty());
    }
    while i < ls.len()
        invariant
            i <= ls@.len(),
            lv == views(ls@),
            lv == lines(s@),
            s@ == content@,
            content@.len() <= isize::MAX,
            lines_total(lv) + lv.len() <= s@.len() + 1,
            n + lines_total(lv.skip(i as int)) + (lv.len() - i) <= lines_total(lv) + lv.len(),
            (string_views(out@), n as nat) == refactor_lines(lv.take(i as int), v@, rep@),
        decreases ls@.len() - i,
    {
        let l = &ls[i];
        assert(lv.take(i + 1).drop_last() == lv.take(i as int));
        assert(lv[i as int] == l@);
        assert(lv.skip(i as int)[0] == l@);
        assert(lv.skip(i as int).drop_first() == lv.skip(i + 1));
        let ghost old_out = out@;
        if starts_with_exec(&trim_chars(l), &chars_of("bind")) {
            proof {
                lemma_replace_literal_count(l@, v@, rep@, 0);
            }
            let (x, k) = replace_literal_exec(l, &v, &rep);
            out.push(string_of(&x));
            n = n + k;
        } else {
            out.push(string_of(l));
        }
        assert(string_views(out@) =~= string_views(old_out).push(string_views(out@).last()));
        i = i + 1;
    }
    assert(lv.take(ls@.len() as int) == lv);
    (out, n)
}

/// The total length of some lines.
pub open spec fn lines_total(ls: Seq<Seq<char>>) -> nat
    decreases ls.len(),
{
    if ls.len() == 0 {
        0
    } else {
        ls[0].len() + lines_total(ls.drop_first())
    }
}

proof fn lemma_lines_from_total(s: Seq<char>, i: int)
    requires
        0 <= i,
    ensures
        lines_total(crate::text::lines_from(s, i)) + crate::text::lines_from(s, i).len() <= if i
            <= s.len() {
            s.len() - i + 1
        } else {
            1
        },
    decreases s.len() - i,
{
    if i < s.len() {
        crate::text::lemma_find_from(s, seq!['\n'], i);
        match crate::text::find_from(s, seq!['\n'], i) {
            Some(k) => {
                lemma_lines_from_total(s, k + 1);
                let ls = crate::text::lines_from(s, i);
                let rest = crate::text::lines_from(s, k + 1);
                assert(ls[0] == crate::text::strip_cr(s.subrange(i, k)));
                assert(ls[0].len() <= k - i);
                assert(ls.drop_first() == rest);
                assert(lines_total(ls) == ls[0].len() + lines_total(rest));
            },
            None => {
                let ls = crate::text::lines_from(s, i);
                assert(ls.drop_first() =~= Seq::<Seq<char>>::empty());
                assert(lines_total(ls.drop_first()) == 0);
                assert(lines_total(ls) == ls[0].len());
            },
        }
    }
}

/// Where no reference counts, substituting changes nothing: a file with no
/// reference to a variable is left as it is.
pub proof fn lemma_no_reference_unchanged(s: Seq<char>, pat: Seq<char>, rep: Seq<char>, i: int, skip_defs: bool)
    requires
        0 <= i <= s.len(),
        count_refs(s, pat, i, skip_defs) == 0,
    ensures
        subst_refs(s, pat, rep, i, skip_defs) == s.skip(i),
    decreases s.len() - i,
{
    if i < s.len() {
        if pat.len() > 0 && occurs_at(s, pat, i) {
            lemma_no_reference_unchanged(s, pat, rep, i + pat.len(), skip_defs);
            assert(s.subrange(i, i + pat.len()) + s.skip(i + pat.len()) =~= s.skip(i));
        } else {
            lemma_no_reference_unchanged(s, pat, rep, i + 1, skip_defs);
            assert(seq![s[i]] + s.skip(i + 1) =~= s.skip(i));
        }
    } else {
        assert(s.skip(i) =~= Seq::<char>::empty());
    }
}

/// Counting from a place in the second of two joined texts is counting in
/// that text alone.
proof fn lemma_count_refs_shift(x: Seq<char>, y: Seq<char>, pat: Seq<char>, k: int)
    requires
        0 <= k <= y.len(),
    ensures
        count_refs(x + y, pat, x.len() + k, false) == count_refs(y, pat, k, false),
    decreases y.len() - k,
{
    let s = x + y;
    let a = x.len() + k;
    if k < y.len() {
        if pat.len() > 0 && a + pat.len() <= s.len() {
            assert(s.subrange(a, a + pat.len()) =~= y.subrange(k, k + pat.len()));
        }
        let e = k + pat.len();
        if e < y.len() {
            assert(s[x.len() + e] == y[e]);
        }
        if pat.len() > 0 && occurs_at(y, pat, k) {
            lemma_count_refs_shift(x, y, pat, k + pat.len());
        } else {
            lemma_count_refs_shift(x, y, pat, k + 1);
        }
    }
}

/// A stretch without `$` holds no reference that begins with `$`.
proof fn lemma_count_refs_skip(s: Seq<char>, pat: Seq<char>, k: int, n: int)
    requires
        pat.len() > 0,
        pat[0] == '$',
        0 <= k <= n <= s.len(),
        forall|m: int| k <= m < n ==> s[m] != '$',
    ensures
        count_refs(s, pat, k, false) == count_refs(s, pat, n, false),
    decreases n - k,
{
    if k < n {
        if occurs_at(s, pat, k) {
            assert(s.subrange(k, k + pat.len())[0] == s[k]);
        }
        lemma_count_refs_skip(s, pat, k + 1, n);
    }
}

/// What replacing gives from a place on begins with the character there.
proof fn lemma_subst_first(s: Seq<char>, pat: Seq<char>, rep: Seq<char>, i: int)
    requires
        0 <= i < s.len(),
        pat.len() > 0,
        rep.len() > 0,
        rep[0] == pat[0],
    ensures
        subst_refs(s, pat, rep, i, false).len() > 0,
        subst_refs(s, pat, rep, i, false)[0] == s[i],
{
    if occurs_at(s, pat, i) {
        assert(s.subrange(i, i + pat.len())[0] == s[i]);
    }
}

/// A beginning without `$` of what replacing gives is the text there.
proof fn lemma_subst_plain_prefix(s: Seq<char>, pat: Seq<char>, rep: Seq<char>, j: int, l: int)
    requires
        0 <= j <= s.len(),
        0 <= l,
        pat.len() > 0,
        pat[0] == '$',
        rep.len() > 0,
        rep[0] == '$',
        subst_refs(s, pat, rep, j, false).len() >= l,
        forall|m: int| 0 <= m < l ==> subst_refs(s, pat, rep, j, false)[m] != '$',
    ensures
        j + l <= s.len(),
        s.subrange(j, j + l) == subst_refs(s, pat, rep, j, false).take(l),
    decreases l,
{
    let t = subst_refs(s, pat, rep, j, false);
    if l > 0 {
        assert(j < s.len());
        lemma_subst_first(s, pat, rep, j);
        assert(!occurs_at(s, pat, j)) by {
            if occurs_at(s, pat, j) {
                assert(s.subrange(j, j + pat.len())[0] == s[j]);
            }
        }
        let u = subst_refs(s, pat, rep, j + 1, false);
        assert(t == seq![s[j]] + u);
        assert forall|m: int| 0 <= m < l - 1 implies u[m] != '$' by {
            assert(t[m + 1] == u[m]);
        }
        lemma_subst_plain_prefix(s, pat, rep, j + 1, l - 1);
        assert(s.subrange(j, j + l) =~= seq![s[j]] + s.subrange(j + 1, j + l));
        assert(t.take(l) =~= seq![s[j]] + u.take(l - 1));
    } else {
        assert(s.subrange(j, j) =~= t.take(0));
    }
}

/// Renaming from index `i` on leaves no reference to the old name.
#[verifier::spinoff_prover]
#[verifier::rlimit(40)]
proof fn lemma_renamed_from(s: Seq<char>, old: Seq<char>, new: Seq<char>, i: int)
    requires
        0 <= i <= s.len(),
        old.len() > 0,
        forall|m: int| 0 <= m < old.len() ==> name_char(#[trigger] old[m]) && old[m] != '$',
        forall|m: int| 0 <= m < new.len() ==> name_char(#[trigger] new[m]) && new[m] != '$',
        new != old,
    ensures
        count_refs(subst_refs(s, seq!['$'] + old, seq!['$'] + new, i, false), seq!['$'] + old, 0, false) == 0,
    decreases s.len() - i,
{
    let pat = seq!['$'] + old;
    let rep = seq!['$'] + new;
    let t = subst_refs(s, pat, rep, i, false);
    if i >= s.len() {
        return;
    }
    if occurs_at(s, pat, i) {
        let e = i + pat.len();
        let y = subst_refs(s, pat, rep, e, false);
        lemma_renamed_from(s, old, new, e);
        if e < s.len() {
            lemma_subst_first(s, pat, rep, e);
        }
        if ends_name(s, e) {
            let x = rep;
            assert(t == x + y);
            let z = x + y;
            if occurs_at(z, pat, 0) {
                if rep.len() >= pat.len() {
                    assert(z.subrange(0, pat.len() as int) =~= rep.take(pat.len() as int));
                    if rep.len() == pat.len() {
                        assert(rep =~= pat);
                        assert(new =~= old) by {
                            assert forall|m: int| 0 <= m < new.len() implies new[m] == old[m] by {
                                assert(rep[m + 1] == pat[m + 1]);
                            }
                        }
                    } else {
                        assert(z[pat.len() as int] == new[old.len() as int]);
                        assert(name_char(new[old.len() as int]));
                    }
                    lemma_count_refs_skip(z, pat, pat.len() as int, x.len() as int);
                } else {
                    assert(z.subrange(0, pat.len() as int)[rep.len() as int] == z[rep.len() as int]);
                    assert(pat[rep.len() as int] == old[new.len() as int]);
                    assert(name_char(old[new.len() as int]));
                    assert(z[rep.len() as int] == y[0]);
                }
            } else {
                lemma_count_refs_skip(z, pat, 1, x.len() as int);
            }
            lemma_count_refs_shift(x, y, pat, 0);
        } else {
            let x = pat;
            assert(s.subrange(i, i + pat.len()) == pat);
            assert(t == x + y);
            let z = x + y;
            assert(z.subrange(0, pat.len() as int) =~= pat);
            assert(z[pat.len() as int] == y[0]);
            lemma_count_refs_shift(x, y, pat, 0);
        }
    } else {
        let y = subst_refs(s, pat, rep, i + 1, false);
        lemma_renamed_from(s, old, new, i + 1);
        let x = seq![s[i]];
        assert(t == x + y);
        let z = x + y;
        if occurs_at(z, pat, 0) {
            assert(z.subrange(0, pat.len() as int)[0] == z[0]);
            assert(s[i] == '$');
            let l = old.len() as int;
            assert forall|m: int| 0 <= m < l implies y[m] != '$' by {
                assert(z.subrange(0, pat.len() as int)[m + 1] == z[m + 1]);
                assert(z[m + 1] == y[m]);
                assert(pat[m + 1] == old[m]);
            }
            lemma_subst_plain_prefix(s, pat, rep, i + 1, l);
            assert(y.take(l) =~= old) by {
                assert forall|m: int| 0 <= m < l implies y.take(l)[m] == old[m] by {
                    assert(z.subrange(0, pat.len() as int)[m + 1] == z[m + 1]);
                    assert(z[m + 1] == y[m]);
                }
            }
            assert(s.subrange(i, i + pat.len()) =~= pat) by {
                assert(s.subrange(i, i + pat.len()) =~= seq![s[i]] + s.subrange(i + 1, i + 1 + l));
            }
        }
        lemma_count_refs_shift(x, y, pat, 0);
    }
}

/// Renaming a variable to another name (both made of name characters)
/// leaves no reference to the old name.
pub proof fn lemma_renamed_leaves_no_reference(content: Seq<char>, old: Seq<char>, new: Seq<char>)
    requires
        old.len() > 0,
        forall|m: int| 0 <= m < old.len() ==> name_char(#[trigger] old[m]) && old[m] != '$',
        forall|m: int| 0 <= m < new.len() ==> name_char(#[trigger] new[m]) && new[m] != '$',
        new != old,
    ensures
        count_refs(subst_refs(content, "$"@ + old, "$"@ + new, 0, false), "$"@ + old, 0, false) == 0,
{
    reveal_strlit("$");
    assert("$"@ =~= seq!['$']);
    lemma_renamed_from(content, old, new, 0);
}

/// Replacing from a place in the second of two joined texts is replacing
/// in that text alone.
proof fn lemma_subst_refs_shift(x: Seq<char>, y: Seq<char>, pat: Seq<char>, rep: Seq<char>, k: int)
    requires
        0 <= k <= y.len(),
    ensures
        subst_refs(x + y, pat, rep, x.len() + k, false) == subst_refs(y, pat, rep, k, false),
    decreases y.len() - k,
{
    let s = x + y;
    let a = x.len() + k;
    if k < y.len() {
        if pat.len() > 0 && a + pat.len() <= s.len() {
            assert(s.subrange(a, a + pat.len()) =~= y.subrange(k, k + pat.len()));
        }
        let e = k + pat.len();
        if e < y.len() {
            assert(s[x.len() + e] == y[e]);
        }
        assert(s[a] == y[k]);
        if pat.len() > 0 && occurs_at(y, pat, k) {
            lemma_subst_refs_shift(x, y, pat, rep, k + pat.len());
        } else {
            lemma_subst_refs_shift(x, y, pat, rep, k + 1);
        }
    }
}

/// Over a stretch without `$`, replacing references that begin with `$`
/// copies the stretch.
proof fn lemma_subst_plain_run(s: Seq<char>, pat: Seq<char>, rep: Seq<char>, j: int, l: int)
    requires
        pat.len() > 0,
        pat[0] == '$',
        0 <= j,
        0 <= l,
        j + l <= s.len(),
        forall|m: int| j <= m < j + l ==> s[m] != '$',
    ensures
        subst_refs(s, pat, rep, j, false) == s.subrange(j, j + l) + subst_refs(s, pat, rep, j + l, false),
    decreases l,
{
    if l > 0 {
        assert(!occurs_at(s, pat, j)) by {
            if occurs_at(s, pat, j) {
                assert(s.subrange(j, j + pat.len())[0] == s[j]);
            }
        }
        lemma_subst_plain_run(s, pat, rep, j + 1, l - 1);
        assert(s.subrange(j, j + l) =~= seq![s[j]] + s.subrange(j + 1, j + l));
    } else {
        assert(s.subrange(j, j) =~= Seq::<char>::empty());
    }
}

/// Renaming back from index `i` on gives the text from `i` on, when the
/// text holds no reference to the new name.
#[verifier::spinoff_prover]
#[verifier::rlimit(40)]
proof fn lemma_renamed_back_from(s: Seq<char>, old: Seq<char>, new: Seq<char>, i: int)
    requires
        0 <= i <= s.len(),
        old.len() > 0,
        new.len() > 0,
        forall|m: int| 0 <= m < old.len() ==> name_char(#[trigger] old[m]) && old[m] != '$',
        forall|m: int| 0 <= m < new.len() ==> name_char(#[trigger] new[m]) && new[m] != '$',
        forall|m: int|
            occurs_at(s, seq!['$'] + new, m) ==> !ends_name(s, m + new.len() + 1),
    ensures
        subst_refs(subst_refs(s, seq!['$'] + old, seq!['$'] + new, i, false), seq!['$'] + new, seq!['$'] + old, 0, false)
            == s.skip(i),
    decreases s.len() - i,
{
    let p = seq!['$'] + old;
    let r = seq!['$'] + new;
    let t = subst_refs(s, p, r, i, false);
    if i >= s.len() {
        assert(s.skip(i) =~= Seq::<char>::empty());
        return;
    }
    if occurs_at(s, p, i) && ends_name(s, i + p.len()) {
        let e = i + p.len();
        let y = subst_refs(s, p, r, e, false);
        lemma_renamed_back_from(s, old, new, e);
        assert(t == r + y);
        if e < s.len() {
            lemma_subst_first(s, p, r, e);
            assert((r + y)[r.len() as int] == y[0]);
        }
        assert((r + y).subrange(0, r.len() as int) =~= r);
        lemma_subst_refs_shift(r, y, r, p, 0);
        assert(s.subrange(i, e) == p);
        assert(s.skip(i) =~= p + s.skip(e));
    } else {
        let y = subst_refs(s, p, r, i + 1, false);
        // The first character is copied, whether or not a reference begins there.
        if occurs_at(s, p, i) {
            let e = i + p.len();
            assert(s.subrange(i, e) == p);
            assert forall|m: int| i + 1 <= m < i + 1 + old.len() implies s[m] != '$' by {
                assert(s.subrange(i, e)[m - i] == s[m]);
                assert(p[m - i] == old[m - i - 1]);
            }
            lemma_subst_plain_run(s, p, r, i + 1, old.len() as int);
            assert(s.subrange(i + 1, e) =~= old) by {
                assert forall|m: int| 0 <= m < old.len() implies s.subrange(i + 1, e)[m] == old[m] by {
                    assert(s.subrange(i, e)[m + 1] == s[i + 1 + m]);
                }
            }
            assert(s[i] == '$') by {
                assert(s.subrange(i, e)[0] == s[i]);
            }
            assert(t =~= seq![s[i]] + y);
        } else {
            assert(t == seq![s[i]] + y);
        }
        let z = seq![s[i]] + y;
        if occurs_at(z, r, 0) {
            let l = new.len() as int;
            assert(z.subrange(0, r.len() as int)[0] == z[0]);
            assert(s[i] == '$');
            assert forall|m: int| 0 <= m < l implies y[m] != '$' by {
                assert(z.subrange(0, r.len() as int)[m + 1] == z[m + 1]);
                assert(z[m + 1] == y[m]);
            }
            lemma_subst_plain_prefix(s, p, r, i + 1, l);
            assert(y.take(l) =~= new) by {
                assert forall|m: int| 0 <= m < l implies y.take(l)[m] == new[m] by {
                    assert(z.subrange(0, r.len() as int)[m + 1] == z[m + 1]);
                    assert(z[m + 1] == y[m]);
                }
            }
            assert(s.subrange(i, i + r.len()) =~= r) by {
                assert(s.subrange(i, i + r.len()) =~= seq![s[i]] + s.subrange(i + 1, i + 1 + l));
            }
            assert(occurs_at(s, r, i));
            let q = i + r.len();
            assert forall|m: int| i + 1 <= m < q implies s[m] != '$' by {
                assert(s.subrange(i, q)[m - i] == s[m]);
            }
            lemma_subst_plain_run(s, p, r, i + 1, l);
            let w = subst_refs(s, p, r, q, false);
            assert(z =~= r + w);
            if q < s.len() {
                lemma_subst_first(s, p, r, q);
                assert(z[r.len() as int] == w[0]);
            }
            assert(!ends_name(z, r.len() as int));
            lemma_renamed_back_from(s, old, new, q);
            lemma_subst_refs_shift(r, w, r, p, 0);
            assert(z.subrange(0, r.len() as int) =~= r);
            assert(s.skip(i) =~= r + s.skip(q));
        } else {
            lemma_renamed_back_from(s, old, new, i + 1);
            lemma_subst_refs_shift(seq![s[i]], y, r, p, 0);
            assert(s.skip(i) =~= seq![s[i]] + s.skip(i + 1));
        }
    }
}

/// Renaming a variable to a name that the text does not reference, and
/// renaming it back, gives the text again (both names made of name
/// characters).
pub proof fn lemma_rename_round_trip(content: Seq<char>, old: Seq<char>, new: Seq<char>)
    requires
        old.len() > 0,
        new.len() > 0,
        forall|m: int| 0 <= m < old.len() ==> name_char(#[trigger] old[m]) && old[m] != '$',
        forall|m: int| 0 <= m < new.len() ==> name_char(#[trigger] new[m]) && new[m] != '$',
        count_refs(content, "$"@ + new, 0, false) == 0,
    ensures
        subst_refs(subst_refs(content, "$"@ + old, "$"@ + new, 0, false), "$"@ + new, "$"@ + old, 0, false)
            == content,
{
    reveal_strlit("$");
    assert("$"@ =~= seq!['$']);
    let r = seq!['$'] + new;
    lemma_no_counted_reference(content, r, 0);
    lemma_renamed_back_from(content, old, new, 0);
    assert(content.skip(0) =~= content);
}

/// Where no reference to a name that begins with `$` (and holds no other)
/// counts from the start, none counts anywhere.
proof fn lemma_no_counted_reference(s: Seq<char>, r: Seq<char>, i: int)
    requires
        r.len() > 0,
        r[0] == '$',
        forall|m: int| 1 <= m < r.len() ==> r[m] != '$',
        0 <= i <= s.len(),
        count_refs(s, r, i, false) == 0,
    ensures
        forall|m: int| i <= m && occurs_at(s, r, m) ==> !ends_name(s, m + r.len()),
    decreases s.len() - i,
{
    if i < s.len() {
        if occurs_at(s, r, i) {
            let e = i + r.len();
            lemma_no_counted_reference(s, r, e);
            assert forall|m: int| i <= m && occurs_at(s, r, m) implies !ends_name(s, m + r.len()) by {
                if i < m < e {
                    assert(s.subrange(m, m + r.len())[0] == s[m]);
                    assert(s.subrange(i, e)[m - i] == s[m]);
                }
            }
        } else {
            lemma_no_counted_reference(s, r, i + 1);
        }
    } else {
        assert forall|m: int| i <= m && occurs_at(s, r, m) implies !ends_name(s, m + r.len()) by {}
    }
}

} // verus!
