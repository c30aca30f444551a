//! Laws of the canonical forms of key combinations: taking the canonical
//! form again changes nothing, and the case of a modifier list does not
//! matter.
use crate::keybinds::{
    canonical_key, canonical_mod, lemma_normalized_mods_by_names, lemma_sorted_mods, mod_names, mod_sep,
    mod_tokens, names_token, normalized_key, normalized_mods, sorted_mods, tokens_acc,
};
use crate::text::{
    all_ascii, ascii_to_lower, ascii_to_upper, is_ascii_char, is_ws, join, lemma_join_cons, lowercase, trim,
    uppercase,
};
use vstd::prelude::*;

verus! {

/// A canonical modifier name: not empty, of ASCII characters that are no
/// separators and no lowercase letters.
pub open spec fn plain_name(x: Seq<char>) -> bool {
    &&& x.len() > 0
    &&& forall|i: int|
        0 <= i < x.len() ==> is_ascii_char(#[trigger] x[i]) && !mod_sep(x[i]) && !('a' <= x[i] && x[i] <= 'z')
}

/// ASCII characters that are no separators.
pub open spec fn plain_chars(x: Seq<char>) -> bool {
    forall|i: int| 0 <= i < x.len() ==> is_ascii_char(#[trigger] x[i]) && !mod_sep(x[i])
}

/// A run without separators joins the token being read.
proof fn lemma_tokens_word(x: Seq<char>, t: Seq<char>, cur: Seq<char>)
    requires
        forall|i: int| 0 <= i < x.len() ==> !mod_sep(#[trigger] x[i]),
    ensures
        tokens_acc(x + t, cur) == tokens_acc(t, cur + x),
    decreases x.len(),
{
    if x.len() > 0 {
        let y = x.drop_first();
        assert((x + t)[0] == x[0]);
        assert((x + t).drop_first() =~= y + t);
        assert forall|i: int| 0 <= i < y.len() implies !mod_sep(#[trigger] y[i]) by {
            assert(y[i] == x[i + 1]);
        }
        lemma_tokens_word(y, t, cur.push(x[0]));
        assert(cur.push(x[0]) + y =~= cur + x);
    } else {
        assert(x + t =~= t);
        assert(cur + x =~= cur);
    }
}

/// The tokens of names joined by spaces are the names.
proof fn lemma_tokens_of_join(ns: Seq<Seq<char>>)
    requires
        forall|i: int| 0 <= i < ns.len() ==> plain_name(#[trigger] ns[i]),
    ensures
        mod_tokens(join(ns, seq![' '])) == ns,
    decreases ns.len(),
{
    let e = Seq::<char>::empty();
    if ns.len() == 0 {
        assert(join(ns, seq![' ']) =~= e);
        assert(mod_tokens(e) =~= ns);
    } else {
        let x = ns[0];
        assert(plain_name(x));
        assert forall|i: int| 0 <= i < x.len() implies !mod_sep(#[trigger] x[i]) by {}
        if ns.len() == 1 {
            assert(join(ns, seq![' ']) == x);
            lemma_tokens_word(x, e, e);
            assert(x + e =~= x);
            assert(e + x =~= x);
            assert(tokens_acc(e, x) =~= seq![x]);
            assert(ns =~= seq![x]);
        } else {
            let rest = ns.drop_first();
            assert(ns =~= seq![x] + rest);
            lemma_join_cons(x, rest, seq![' ']);
            let j = join(rest, seq![' ']);
            assert forall|i: int| 0 <= i < rest.len() implies plain_name(#[trigger] rest[i]) by {
                assert(rest[i] == ns[i + 1]);
            }
            lemma_tokens_of_join(rest);
            let t = seq![' '] + j;
            assert(x + seq![' '] + j =~= x + t);
            lemma_tokens_word(x, t, e);
            assert(e + x =~= x);
            assert(t[0] == ' ');
            assert(is_ws(' '));
            assert(t.drop_first() =~= j);
            assert(tokens_acc(t, x) == seq![x] + tokens_acc(j, e));
        }
    }
}

/// The tokens of an ASCII text are not empty and hold ASCII characters
/// that are no separators.
proof fn lemma_tokens_plain(s: Seq<char>, cur: Seq<char>)
    requires
        all_ascii(s),
        plain_chars(cur),
    ensures
        forall|i: int|
            0 <= i < tokens_acc(s, cur).len() ==> (#[trigger] tokens_acc(s, cur)[i]).len() > 0 && plain_chars(
                tokens_acc(s, cur)[i],
            ),
    decreases s.len(),
{
    if s.len() > 0 {
        let y = s.drop_first();
        assert(all_ascii(y)) by {
            assert forall|i: int| 0 <= i < y.len() implies is_ascii_char(#[trigger] y[i]) by {
                assert(y[i] == s[i + 1]);
            }
        }
        if mod_sep(s[0]) {
            lemma_tokens_plain(y, Seq::<char>::empty());
            let head: Seq<Seq<char>> = if cur.len() > 0 {
                seq![cur]
            } else {
                seq![]
            };
            let tail = tokens_acc(y, Seq::<char>::empty());
            assert(tokens_acc(s, cur) == head + tail);
            let r = tokens_acc(s, cur);
            assert forall|i: int| 0 <= i < r.len() implies (#[trigger] r[i]).len() > 0 && plain_chars(r[i]) by {
                if i >= head.len() {
                    assert(r[i] == tail[i - head.len()]);
                } else {
                    assert(r[i] == cur);
                }
            }
        } else {
            assert(is_ascii_char(s[0]));
            let c2 = cur.push(s[0]);
            assert(plain_chars(c2)) by {
                assert forall|i: int| 0 <= i < c2.len() implies is_ascii_char(#[trigger] c2[i]) && !mod_sep(c2[i]) by {
                    if i < cur.len() {
                        assert(c2[i] == cur[i]);
                    }
                }
            }
            lemma_tokens_plain(y, c2);
            assert(tokens_acc(s, cur) == tokens_acc(y, c2));
            let r = tokens_acc(s, cur);
            assert forall|i: int| 0 <= i < r.len() implies (#[trigger] r[i]).len() > 0 && plain_chars(r[i]) by {
                assert(r[i] == tokens_acc(y, c2)[i]);
            }
        }
    } else {
        let r = tokens_acc(s, cur);
        assert forall|i: int| 0 <= i < r.len() implies (#[trigger] r[i]).len() > 0 && plain_chars(r[i]) by {
            assert(r[i] == cur);
        }
    }
}

/// The uppercase form of ASCII characters that are no separators holds no
/// lowercase letter.
proof fn lemma_upper_plain(t: Seq<char>)
    requires
        t.len() > 0,
        plain_chars(t),
    ensures
        uppercase(t) == t.map_values(|c: char| ascii_to_upper(c)),
        plain_name(uppercase(t)),
{
    assert(all_ascii(t)) by {
        assert forall|i: int| 0 <= i < t.len() implies is_ascii_char(#[trigger] t[i]) by {}
    }
    let u = t.map_values(|c: char| ascii_to_upper(c));
    assert forall|i: int| 0 <= i < u.len() implies is_ascii_char(#[trigger] u[i]) && !mod_sep(u[i]) && !('a' <= u[i]
        && u[i] <= 'z') by {
        assert(u[i] == ascii_to_upper(t[i]));
        assert(is_ascii_char(t[i]) && !mod_sep(t[i]));
    }
}

/// A canonical name read again is itself.
proof fn lemma_name_fixed(x: Seq<char>, u: Seq<char>)
    requires
        plain_name(x),
        x == canonical_mod(u),
    ensures
        uppercase(x).len() > 0,
        canonical_mod(uppercase(x)) == x,
{
    assert(all_ascii(x)) by {
        assert forall|i: int| 0 <= i < x.len() implies is_ascii_char(#[trigger] x[i]) by {}
    }
    assert(x.map_values(|c: char| ascii_to_upper(c)) =~= x) by {
        assert forall|i: int| 0 <= i < x.len() implies #[trigger] ascii_to_upper(x[i]) == x[i] by {
            assert(!('a' <= x[i] && x[i] <= 'z'));
        }
    }
    reveal_strlit("MOD4");
    reveal_strlit("SUPER");
    reveal_strlit("LOGO");
    reveal_strlit("WIN");
    reveal_strlit("MOD1");
    reveal_strlit("ALT");
    reveal_strlit("CONTROL");
    reveal_strlit("CTRL");
    reveal_strlit("SHIFT");
    assert(uppercase(x) == x);
    assert("ALT"@[0] != "WIN"@[0]);
    assert("CTRL"@[0] != "MOD4"@[0] && "CTRL"@[0] != "LOGO"@[0] && "CTRL"@[0] != "MOD1"@[0]);
    assert("SHIFT"@[1] != "SUPER"@[1]);
}

/// The names of an ASCII modifier list are canonical names.
proof fn lemma_names_plain(m: Seq<char>, x: Seq<char>)
    requires
        all_ascii(m),
        mod_names(m).contains(x),
    ensures
        plain_name(x),
        uppercase(x).len() > 0,
        canonical_mod(uppercase(x)) == x,
{
    let toks = mod_tokens(m);
    assert(plain_chars(Seq::<char>::empty()));
    lemma_tokens_plain(m, Seq::<char>::empty());
    assert(names_token(toks, toks.len() as int, x));
    let i = choose|i: int|
        0 <= i < toks.len() && uppercase(#[trigger] toks[i]).len() > 0 && canonical_mod(uppercase(toks[i])) == x;
    let t = toks[i];
    lemma_upper_plain(t);
    let u = uppercase(t);
    reveal_strlit("MOD4");
    reveal_strlit("SUPER");
    reveal_strlit("LOGO");
    reveal_strlit("WIN");
    reveal_strlit("MOD1");
    reveal_strlit("ALT");
    reveal_strlit("CONTROL");
    reveal_strlit("CTRL");
    reveal_strlit("SHIFT");
    assert(plain_name(x));
    lemma_name_fixed(x, u);
}

/// Taking the canonical form of a canonical modifier list (of an ASCII
/// one) gives it again.
pub proof fn lemma_normalized_mods_idempotent(m: Seq<char>)
    requires
        all_ascii(m),
    ensures
        normalized_mods(normalized_mods(m)) == normalized_mods(m),
{
    let ns = sorted_mods(m);
    lemma_sorted_mods(m);
    assert forall|i: int| 0 <= i < ns.len() implies plain_name(#[trigger] ns[i]) by {
        assert(ns.contains(ns[i]));
        lemma_names_plain(m, ns[i]);
    }
    let n = normalized_mods(m);
    lemma_tokens_of_join(ns);
    assert(mod_tokens(n) == ns);
    assert(mod_names(n) =~= mod_names(m)) by {
        assert forall|x: Seq<char>| mod_names(n).contains(x) <==> mod_names(m).contains(x) by {
            if mod_names(m).contains(x) {
                assert(ns.contains(x));
                let i = choose|i: int| 0 <= i < ns.len() && ns[i] == x;
                lemma_names_plain(m, x);
                assert(names_token(ns, ns.len() as int, x));
            }
            if mod_names(n).contains(x) {
                assert(names_token(ns, ns.len() as int, x));
                let i = choose|i: int|
                    0 <= i < ns.len() && uppercase(#[trigger] ns[i]).len() > 0 && canonical_mod(uppercase(ns[i])) == x;
                assert(ns.contains(ns[i]));
                lemma_names_plain(m, ns[i]);
                assert(ns.contains(x));
            }
        }
    }
    lemma_normalized_mods_by_names(n, m);
}

/// Lowercase ASCII letters.
pub open spec fn lower_word(x: Seq<char>) -> bool {
    x.len() > 0 && forall|i: int| 0 <= i < x.len() ==> 'a' <= #[trigger] x[i] && x[i] <= 'z'
}

/// Lowercase letters are their own trim and their own lowercase form.
proof fn lemma_lower_word(x: Seq<char>)
    requires
        lower_word(x),
    ensures
        trim(x) == x,
        lowercase(x) == x,
{
    assert('a' <= x[0] && x[0] <= 'z');
    assert('a' <= x.last() && x.last() <= 'z');
    crate::text::lemma_trim_fixed(x);
    assert(all_ascii(x)) by {
        assert forall|i: int| 0 <= i < x.len() implies is_ascii_char(#[trigger] x[i]) by {
            assert('a' <= x[i] && x[i] <= 'z');
        }
    }
    assert(x.map_values(|c: char| ascii_to_lower(c)) =~= x) by {
        assert forall|i: int| 0 <= i < x.len() implies #[trigger] ascii_to_lower(x[i]) == x[i] by {
            assert('a' <= x[i] && x[i] <= 'z');
        }
    }
}

/// The named keys: a key other than the punctuation that is named is left
/// as it is, and the names are lowercase words left as they are.
proof fn lemma_canonical_key(x: Seq<char>)
    ensures
        canonical_key(x) == x || (x.len() == 1 && lower_word(canonical_key(x)) && canonical_key(canonical_key(x))
            == canonical_key(x)),
{
    reveal_strlit(" ");
    reveal_strlit("space");
    reveal_strlit("\\");
    reveal_strlit("backslash");
    reveal_strlit("|");
    reveal_strlit("bar");
    reveal_strlit("[");
    reveal_strlit("bracketleft");
    reveal_strlit("]");
    reveal_strlit("bracketright");
    reveal_strlit("{");
    reveal_strlit("braceleft");
    reveal_strlit("}");
    reveal_strlit("braceright");
    reveal_strlit(";");
    reveal_strlit("semicolon");
    reveal_strlit(":");
    reveal_strlit("colon");
    reveal_strlit("'");
    reveal_strlit("apostrophe");
    reveal_strlit("\"");
    reveal_strlit("quotedbl");
    reveal_strlit(",");
    reveal_strlit("comma");
    reveal_strlit("<");
    reveal_strlit("less");
    reveal_strlit(".");
    reveal_strlit("period");
    reveal_strlit(">");
    reveal_strlit("greater");
    reveal_strlit("/");
    reveal_strlit("slash");
    reveal_strlit("?");
    reveal_strlit("question");
    reveal_strlit("-");
    reveal_strlit("minus");
    reveal_strlit("_");
    reveal_strlit("underscore");
    reveal_strlit("=");
    reveal_strlit("equal");
    reveal_strlit("+");
    reveal_strlit("plus");
    reveal_strlit("`");
    reveal_strlit("grave");
    reveal_strlit("~");
    reveal_strlit("asciitilde");
}

/// Taking the canonical form of a canonical key (of an ASCII one) gives it
/// again.
pub proof fn lemma_normalized_key_idempotent(k: Seq<char>)
    requires
        all_ascii(k),
    ensures
        normalized_key(normalized_key(k)) == normalized_key(k),
{
    let t = trim(k);
    let a = crate::text::lead_from(k, 0);
    crate::text::lemma_lead_from_bounds(k, 0);
    crate::text::lemma_trail_down_bounds(k, k.len() as int, a);
    assert(all_ascii(t)) by {
        assert forall|i: int| 0 <= i < t.len() implies is_ascii_char(#[trigger] t[i]) by {
            assert(t[i] == k[a + i]);
        }
    }
    let l = t.map_values(|c: char| ascii_to_lower(c));
    assert(lowercase(t) == l);
    crate::text::lemma_trim_ends(k);
    assert(all_ascii(l)) by {
        assert forall|i: int| 0 <= i < l.len() implies is_ascii_char(#[trigger] l[i]) by {
            assert(l[i] == ascii_to_lower(t[i]));
            assert(is_ascii_char(t[i]));
        }
    }
    if l.len() > 0 {
        assert(l[0] == ascii_to_lower(t[0]));
        assert(l.last() == ascii_to_lower(t.last()));
        assert(!is_ws(l[0]) && !is_ws(l.last()));
    }
    crate::text::lemma_trim_fixed(l);
    assert(l.map_values(|c: char| ascii_to_lower(c)) =~= l) by {
        assert forall|i: int| 0 <= i < l.len() implies #[trigger] ascii_to_lower(l[i]) == l[i] by {
            assert(l[i] == ascii_to_lower(t[i]));
        }
    }
    assert(lowercase(l) == l);
    let nk = canonical_key(l);
    lemma_canonical_key(l);
    if nk == l {
        assert(normalized_key(nk) == canonical_key(l));
    } else {
        lemma_lower_word(nk);
        assert(normalized_key(nk) == canonical_key(nk));
    }
}

/// Canonical forms of a key combination, taken again, are themselves (for
/// ASCII modifiers and keys).
pub proof fn lemma_normalize_idempotent(mods: Seq<char>, key: Seq<char>)
    requires
        all_ascii(mods),
        all_ascii(key),
    ensures
        normalized_mods(normalized_mods(mods)) == normalized_mods(mods),
        normalized_key(normalized_key(key)) == normalized_key(key),
{
    lemma_normalized_mods_idempotent(mods);
    lemma_normalized_key_idempotent(key);
}

/// Two texts that differ only in the case of ASCII letters.
pub open spec fn same_but_case(x: Seq<char>, y: Seq<char>) -> bool {
    &&& x.len() == y.len()
    &&& forall|i: int| 0 <= i < x.len() ==> ascii_to_upper(#[trigger] x[i]) == ascii_to_upper(y[i])
}

/// Texts that differ only in case split into tokens that differ only in
/// case.
proof fn lemma_tokens_case(a: Seq<char>, b: Seq<char>, ca: Seq<char>, cb: Seq<char>)
    requires
        all_ascii(a),
        all_ascii(b),
        same_but_case(a, b),
        same_but_case(ca, cb),
    ensures
        tokens_acc(a, ca).len() == tokens_acc(b, cb).len(),
        forall|i: int|
            0 <= i < tokens_acc(a, ca).len() ==> same_but_case(#[trigger] tokens_acc(a, ca)[i], tokens_acc(b, cb)[i]),
    decreases a.len(),
{
    if a.len() > 0 {
        let ya = a.drop_first();
        let yb = b.drop_first();
        assert(all_ascii(ya) && all_ascii(yb)) by {
            assert forall|i: int| 0 <= i < ya.len() implies is_ascii_char(#[trigger] ya[i]) by {
                assert(ya[i] == a[i + 1]);
            }
            assert forall|i: int| 0 <= i < yb.len() implies is_ascii_char(#[trigger] yb[i]) by {
                assert(yb[i] == b[i + 1]);
            }
        }
        assert(same_but_case(ya, yb)) by {
            assert forall|i: int| 0 <= i < ya.len() implies ascii_to_upper(#[trigger] ya[i]) == ascii_to_upper(yb[i]) by {
                assert(ya[i] == a[i + 1] && yb[i] == b[i + 1]);
            }
        }
        assert(ascii_to_upper(a[0]) == ascii_to_upper(b[0]));
        assert(is_ascii_char(a[0]) && is_ascii_char(b[0]));
        assert(mod_sep(a[0]) == mod_sep(b[0]));
        let e = Seq::<char>::empty();
        if mod_sep(a[0]) {
            lemma_tokens_case(ya, yb, e, e);
            let ha: Seq<Seq<char>> = if ca.len() > 0 {
                seq![ca]
            } else {
                seq![]
            };
            let hb: Seq<Seq<char>> = if cb.len() > 0 {
                seq![cb]
            } else {
                seq![]
            };
            let ta = tokens_acc(ya, e);
            let tb = tokens_acc(yb, e);
            assert(tokens_acc(a, ca) == ha + ta);
            assert(tokens_acc(b, cb) == hb + tb);
            assert forall|i: int| 0 <= i < (ha + ta).len() implies same_but_case(#[trigger] (ha + ta)[i], (hb + tb)[i]) by {
                if i >= ha.len() {
                    assert((ha + ta)[i] == ta[i - ha.len()]);
                    assert((hb + tb)[i] == tb[i - hb.len()]);
                }
            }
        } else {
            let na = ca.push(a[0]);
            let nb = cb.push(b[0]);
            assert(same_but_case(na, nb)) by {
                assert forall|i: int| 0 <= i < na.len() implies ascii_to_upper(#[trigger] na[i]) == ascii_to_upper(nb[i]) by {
                    if i < ca.len() {
                        assert(na[i] == ca[i] && nb[i] == cb[i]);
                    }
                }
            }
            lemma_tokens_case(ya, yb, na, nb);
            assert(tokens_acc(a, ca) == tokens_acc(ya, na));
            assert(tokens_acc(b, cb) == tokens_acc(yb, nb));
        }
    } else {
        assert(b.len() == 0);
        let ra = tokens_acc(a, ca);
        let rb = tokens_acc(b, cb);
        assert forall|i: int| 0 <= i < ra.len() implies same_but_case(#[trigger] ra[i], rb[i]) by {
            assert(ra[i] == ca && rb[i] == cb);
        }
    }
}

/// The case of the letters of a modifier list does not change its
/// canonical form (for ASCII lists).
pub proof fn lemma_normalized_mods_ignore_case(a: Seq<char>, b: Seq<char>)
    requires
        all_ascii(a),
        all_ascii(b),
        same_but_case(a, b),
    ensures
        normalized_mods(a) == normalized_mods(b),
{
    let e = Seq::<char>::empty();
    lemma_tokens_case(a, b, e, e);
    assert(plain_chars(e));
    lemma_tokens_plain(a, e);
    lemma_tokens_plain(b, e);
    let ta = mod_tokens(a);
    let tb = mod_tokens(b);
    assert forall|i: int| 0 <= i < ta.len() implies #[trigger] uppercase(ta[i]) == uppercase(tb[i]) by {
        assert(same_but_case(ta[i], tb[i]));
        lemma_upper_plain(ta[i]);
        lemma_upper_plain(tb[i]);
        assert(ta[i].map_values(|c: char| ascii_to_upper(c)) =~= tb[i].map_values(|c: char| ascii_to_upper(c)));
    }
    assert(mod_names(a) =~= mod_names(b)) by {
        assert forall|x: Seq<char>| mod_names(a).contains(x) <==> mod_names(b).contains(x) by {
            if names_token(ta, ta.len() as int, x) {
                let i = choose|i: int|
                    0 <= i < ta.len() && uppercase(#[trigger] ta[i]).len() > 0 && canonical_mod(uppercase(ta[i])) == x;
                assert(uppercase(ta[i]) == uppercase(tb[i]));
                assert(names_token(tb, tb.len() as int, x));
            }
            if names_token(tb, tb.len() as int, x) {
                let i = choose|i: int|
                    0 <= i < tb.len() && uppercase(#[trigger] tb[i]).len() > 0 && canonical_mod(uppercase(tb[i])) == x;
                assert(uppercase(ta[i]) == uppercase(tb[i]));
                assert(names_token(ta, ta.len() as int, x));
            }
        }
    }
    lemma_normalized_mods_by_names(a, b);
}

} // verus!
