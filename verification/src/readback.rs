//! The lines the editor writes, as the parser reads them back.
use crate::edit::{add_line_spec, bind_text, new_bind_line, update_line_spec, with_comment};
use crate::parser::{
    all_alphabetic, bind_fields, bind_meaning, description_of, keybind_of, line_meaning, prev_line,
    scan_from, split_fields, split_state, BindFields, KeybindView, LineMeaning, ScanView, SplitState,
};
use crate::text::{
    before_char, find_char, is_ws, lead_from, lemma_find_char_absent, lemma_find_first, lemma_find_from,
    lemma_lead_from_bounds, lemma_trail_down_bounds, lemma_trim_after_space, lemma_trim_fixed, lemma_trim_pad,
    lemma_trimmed_ends, occurs_at, starts_with, trail_down, trim, trim_start,
};
use crate::vars::{resolve_longest, resolve_longest_from};
use vstd::prelude::*;

verus! {

broadcast use vstd::string::group_string_axioms;

/// A field written between commas: already trimmed, and without a comma, a
/// double quote or a comment sign.
pub open spec fn plain_field(s: Seq<char>) -> bool {
    &&& trim(s) == s
    &&& !s.contains(',')
    &&& !s.contains('"')
    &&& !s.contains('#')
}

/// No variable that `m` defines is named in the first `n` characters of
/// `c`: no `$` among them begins a name that `m` defines (such a name may
/// run on past those characters).
pub open spec fn names_no_variable(c: Seq<char>, n: int, m: Map<Seq<char>, Seq<char>>) -> bool {
    forall|i: int, l: int|
        0 <= i < n && 0 < l && i + l <= c.len() && c[i] == '$' ==> !m.contains_key(#[trigger] c.subrange(i, i + l))
}

/// The content of a `bind` line names no variable that `m` defines in its
/// first `n` characters.
pub open spec fn bind_names_no_variable(line: Seq<char>, n: int, m: Map<Seq<char>, Seq<char>>) -> bool {
    match line_meaning(line) {
        LineMeaning::Bind(_, c) => names_no_variable(c, n, m),
        _ => true,
    }
}

/// Flags made of the lowercase ASCII letters.
pub open spec fn lower_letters(s: Seq<char>) -> bool {
    forall|i: int| 0 <= i < s.len() ==> 'a' <= #[trigger] s[i] <= 'z'
}

/// Lowercase ASCII letters are alphabetic.
proof fn lemma_lower_letters_alphabetic(s: Seq<char>)
    requires
        lower_letters(s),
    ensures
        all_alphabetic(s),
{
    reveal(crate::text::alphabetic);
    assert forall|i: int| 0 <= i < s.len() implies crate::text::alphabetic(#[trigger] s[i]) by {
        assert('a' <= s[i] <= 'z');
    }
}

/// Reading characters that are neither a comma nor a quote, or reading
/// after the last field has begun, only extends the field being read.
proof fn lemma_split_plain(a: Seq<char>, seg: Seq<char>, limit: nat)
    requires
        split_state(a, limit).count >= limit || (!seg.contains(',') && !seg.contains('"')),
    ensures
        split_state(a + seg, limit) == (SplitState {
            cur: split_state(a, limit).cur + seg,
            ..split_state(a, limit)
        }),
    decreases seg.len(),
{
    let st = split_state(a, limit);
    if seg.len() == 0 {
        assert(a + seg =~= a);
        assert(st.cur + seg =~= st.cur);
    } else {
        let sp = seg.drop_last();
        let c = seg.last();
        assert(!sp.contains(',') && !sp.contains('"') || st.count >= limit) by {
            if sp.contains(',') {
                let k = choose|k: int| 0 <= k < sp.len() && sp[k] == ',';
                assert(seg[k] == ',');
            }
            if sp.contains('"') {
                let k = choose|k: int| 0 <= k < sp.len() && sp[k] == '"';
                assert(seg[k] == '"');
            }
        }
        lemma_split_plain(a, sp, limit);
        assert((a + seg).drop_last() =~= a + sp);
        assert((a + seg).last() == c);
        if st.count < limit {
            assert(seg[seg.len() - 1] == c);
            assert(c != ',' && c != '"');
        }
        assert(st.cur + sp.push(c) =~= st.cur + seg);
        assert((st.cur + sp).push(c) =~= st.cur + seg);
    }
}

/// A comma outside quotes, while fields are still being closed, closes the
/// field being read.
proof fn lemma_split_comma(a: Seq<char>, limit: nat)
    requires
        split_state(a, limit).count < limit,
        !split_state(a, limit).in_quote,
    ensures
        split_state(a.push(','), limit) == (SplitState {
            parts: split_state(a, limit).parts.push(trim(split_state(a, limit).cur)),
            cur: seq![],
            in_quote: false,
            count: split_state(a, limit).count + 1,
        }),
{
    assert(a.push(',').drop_last() =~= a);
}

/// Trimming a space put before a trimmed text gives the text.
proof fn lemma_trim_space_prefix(s: Seq<char>)
    requires
        trim(s) == s,
    ensures
        trim(seq![' '] + s) == s,
{
    if s.len() > 0 {
        lemma_trimmed_ends(s);
        lemma_trim_after_space(s);
    } else {
        let t = seq![' '] + s;
        assert(t.len() == 1 && t[0] == ' ');
        assert(lead_from(t, 1) == 1);
        assert(lead_from(t, 0) == 1);
        assert(t.subrange(1, 1) =~= s);
    }
}

/// Neither part holds `c`, so their concatenation does not.
proof fn lemma_concat_lacks(a: Seq<char>, b: Seq<char>, c: char)
    requires
        !a.contains(c),
        !b.contains(c),
    ensures
        !(a + b).contains(c),
{
    if (a + b).contains(c) {
        let k = choose|k: int| 0 <= k < (a + b).len() && (a + b)[k] == c;
        if k < a.len() {
            assert(a[k] == c);
        } else {
            assert(b[k - a.len()] == c);
        }
    }
}

/// The keybind fields as the editor writes them: modifiers, key and
/// dispatcher, then the arguments unless they are empty.
pub open spec fn written_fields(mods: Seq<char>, key: Seq<char>, dispatcher: Seq<char>, args: Seq<char>) -> Seq<
    char,
> {
    let body = mods + ", "@ + key + ", "@ + dispatcher;
    if args.len() == 0 {
        body
    } else {
        body + ", "@ + args
    }
}

/// Written fields split back into modifiers, key, dispatcher and arguments.
#[verifier::spinoff_prover]
proof fn lemma_fields_split(mods: Seq<char>, key: Seq<char>, dispatcher: Seq<char>, args: Seq<char>)
    requires
        plain_field(mods),
        plain_field(key),
        plain_field(dispatcher),
        dispatcher.len() > 0,
        trim(args) == args,
    ensures
        split_fields(written_fields(mods, key, dispatcher, args), 3) == (if args.len() == 0 {
            seq![mods, key, dispatcher]
        } else {
            seq![mods, key, dispatcher, args]
        }),
{
    reveal_strlit(", ");
    let e = Seq::<char>::empty();
    assert(split_state(e, 3) == (SplitState { parts: seq![], cur: seq![], in_quote: false, count: 0 }));
    lemma_split_plain(e, mods, 3);
    assert(e + mods =~= mods);
    lemma_split_comma(mods, 3);
    let s1 = mods.push(',');
    let sk = seq![' '] + key;
    assert(!sk.contains(',') && !sk.contains('"')) by {
        lemma_concat_lacks(seq![' '], key, ',');
        lemma_concat_lacks(seq![' '], key, '"');
    }
    lemma_split_plain(s1, sk, 3);
    let s2 = (s1 + sk).push(',');
    lemma_split_comma(s1 + sk, 3);
    lemma_trim_space_prefix(key);
    let sd = seq![' '] + dispatcher;
    assert(!sd.contains(',') && !sd.contains('"')) by {
        lemma_concat_lacks(seq![' '], dispatcher, ',');
        lemma_concat_lacks(seq![' '], dispatcher, '"');
    }
    lemma_split_plain(s2, sd, 3);
    lemma_trim_space_prefix(dispatcher);
    let body = mods + ", "@ + key + ", "@ + dispatcher;
    assert(body =~= s2 + sd);
    let st = split_state(s2 + sd, 3);
    assert(st.parts =~= seq![mods, key]);
    assert(st.count == 2);
    if args.len() == 0 {
        assert(written_fields(mods, key, dispatcher, args) == body);
        assert(trim(st.cur) == dispatcher);
        assert(split_fields(body, 3) =~= seq![mods, key, dispatcher]);
    } else {
        lemma_split_comma(s2 + sd, 3);
        let s3 = (s2 + sd).push(',');
        let sa = seq![' '] + args;
        lemma_split_plain(s3, sa, 3);
        lemma_trim_space_prefix(args);
        assert(written_fields(mods, key, dispatcher, args) =~= s3 + sa);
        assert(split_fields(s3 + sa, 3) =~= seq![mods, key, dispatcher, args]);
    }
}

/// The written fields hold no comment sign, and are their own trim, ending
/// in the dispatcher or the arguments.
#[verifier::spinoff_prover]
proof fn lemma_written_plain(mods: Seq<char>, key: Seq<char>, dispatcher: Seq<char>, args: Seq<char>)
    requires
        plain_field(mods),
        plain_field(key),
        plain_field(dispatcher),
        dispatcher.len() > 0,
        trim(args) == args,
        !args.contains('#'),
    ensures
        ({
            let w = written_fields(mods, key, dispatcher, args);
            &&& !w.contains('#')
            &&& w.len() > 0
            &&& trim(w) == w
        }),
{
    reveal_strlit(", ");
    let w = written_fields(mods, key, dispatcher, args);
    let sep = ", "@;
    assert(!sep.contains('#'));
    lemma_concat_lacks(mods, sep, '#');
    lemma_concat_lacks(mods + sep, key, '#');
    lemma_concat_lacks(mods + sep + key, sep, '#');
    lemma_concat_lacks(mods + sep + key + sep, dispatcher, '#');
    let body = mods + sep + key + sep + dispatcher;
    if args.len() > 0 {
        lemma_concat_lacks(body, sep, '#');
        lemma_concat_lacks(body + sep, args, '#');
    }
    lemma_trimmed_ends(dispatcher);
    if args.len() > 0 {
        lemma_trimmed_ends(args);
        assert(w.last() == args.last());
    } else {
        assert(w.last() == dispatcher.last());
    }
    if mods.len() > 0 {
        lemma_trimmed_ends(mods);
        assert(w[0] == mods[0]);
    } else {
        assert(w[0] == ',');
    }
    lemma_trim_fixed(w);
}

/// After `bind`, lowercase flags and ` = ` come before the content.
#[verifier::spinoff_prover]
proof fn lemma_after_bind(flags: Seq<char>, w: Seq<char>)
    requires
        lower_letters(flags),
        all_alphabetic(flags),
        trim(w) == w,
        w.len() > 0,
    ensures
        bind_meaning("bind"@ + flags + " = "@ + w) == LineMeaning::Bind(flags, w),
{
    reveal_strlit(" = ");
    reveal_strlit("bind");
    let line = "bind"@ + flags + " = "@ + w;
    let tail = flags + " = "@ + w;
    assert(line.skip(4) =~= tail);
    let rest = trim_start(tail);
    let sp_w = seq![' '] + w;
    let fl = flags.len() as int;
    if fl > 0 {
        assert(!crate::text::is_ws(tail[0])) by {
            assert(tail[0] == flags[0]);
            assert('a' <= flags[0] <= 'z');
        }
        assert(lead_from(tail, 0) == 0);
        assert(rest =~= tail);
        assert(occurs_at(rest, seq!['='], fl + 1)) by {
            assert(rest.subrange(fl + 1, fl + 2) =~= seq!['=']);
        }
        assert forall|k: int| 0 <= k < fl + 1 implies !occurs_at(rest, seq!['='], k) by {
            if k < fl {
                assert('a' <= flags[k] <= 'z');
                assert(rest.subrange(k, k + 1)[0] == flags[k]);
            } else {
                assert(rest.subrange(k, k + 1)[0] == ' ');
            }
        }
        lemma_find_first(rest, seq!['='], 0, fl + 1);
        assert(rest.take(fl + 1) =~= flags + seq![' ']);
        assert(trim(flags + seq![' ']) == flags) by {
            let t = flags + seq![' '];
            assert(!crate::text::is_ws(flags.last())) by {
                assert('a' <= flags[fl - 1] <= 'z');
            }
            assert(!crate::text::is_ws(flags[0])) by {
                assert('a' <= flags[0] <= 'z');
            }
            assert(lead_from(t, 0) == 0);
            assert(crate::text::trail_down(t, t.len() as int, 0) == crate::text::trail_down(t, t.len() - 1, 0));
            assert(crate::text::trail_down(t, t.len() - 1, 0) == t.len() - 1);
            assert(t.subrange(0, t.len() - 1) =~= flags);
        }
        assert(rest.skip(fl + 2) =~= sp_w);
    } else {
        assert(tail =~= " = "@ + w);
        assert(lead_from(tail, 1) == 1);
        assert(lead_from(tail, 0) == 1);
        assert(rest =~= seq!['='] + sp_w);
        assert(occurs_at(rest, seq!['='], 0)) by {
            assert(rest.subrange(0, 1) =~= seq!['=']);
        }
        lemma_find_first(rest, seq!['='], 0, 0);
        assert(rest.take(0) =~= flags);
        lemma_trim_fixed(flags);
        assert(rest.skip(1) =~= sp_w);
    }
    lemma_trim_space_prefix(w);
}

/// Whether a description is written after the fields: it is given and
/// not blank.
pub open spec fn described(description: Option<Seq<char>>) -> bool {
    description matches Some(d) && trim(d).len() > 0
}

/// What follows `bind<flags> = ` on a written line: the fields, then
/// ` # description` when there is one.
pub open spec fn written_content(
    mods: Seq<char>,
    key: Seq<char>,
    dispatcher: Seq<char>,
    args: Seq<char>,
    description: Option<Seq<char>>,
) -> Seq<char> {
    match description {
        Some(d) => if trim(d).len() > 0 {
            written_fields(mods, key, dispatcher, args) + " # "@ + trim(d)
        } else {
            written_fields(mods, key, dispatcher, args)
        },
        None => written_fields(mods, key, dispatcher, args),
    }
}

/// The trim of a text is its own trim.
proof fn lemma_trim_twice(s: Seq<char>)
    ensures
        trim(trim(s)) == trim(s),
{
    crate::text::lemma_trim_ends(s);
    lemma_trim_fixed(trim(s));
}

/// Variable substitution copies a stretch that names no variable.
proof fn lemma_resolve_prefix(s: Seq<char>, i: int, n: int, m: Map<Seq<char>, Seq<char>>)
    requires
        0 <= i <= n <= s.len(),
        names_no_variable(s, n, m),
    ensures
        resolve_longest_from(s, i, m) == s.subrange(i, n) + resolve_longest_from(s, n, m),
    decreases n - i,
{
    if i < n {
        if s[i] == '$' {
            crate::vars::lemma_longest_name(s.skip(i), m, s.len() - i);
            if let Some(k) = crate::vars::longest_name(s.skip(i), m, s.len() - i) {
                assert(s.skip(i).take(k.len() as int) =~= s.subrange(i, i + k.len()));
                assert(!m.contains_key(s.subrange(i, i + k.len())));
            }
        }
        lemma_resolve_prefix(s, i + 1, n, m);
        assert(seq![s[i]] + s.subrange(i + 1, n) =~= s.subrange(i, n));
        assert(seq![s[i]] + (s.subrange(i + 1, n) + resolve_longest_from(s, n, m)) =~= (seq![s[i]]
            + s.subrange(i + 1, n)) + resolve_longest_from(s, n, m));
    } else {
        assert(s.subrange(i, n) =~= Seq::<char>::empty());
        assert(Seq::<char>::empty() + resolve_longest_from(s, n, m) =~= resolve_longest_from(s, n, m));
    }
}

/// The first `#` of a text whose first `n` characters hold none is at `n`,
/// when one stands there.
pub(crate) proof fn lemma_first_hash(s: Seq<char>, n: int)
    requires
        0 <= n < s.len(),
        s[n] == '#',
        forall|k: int| 0 <= k < n ==> s[k] != '#',
    ensures
        find_char(s, '#') == Some(n),
{
    assert(occurs_at(s, seq!['#'], n)) by {
        assert(s.subrange(n, n + 1) =~= seq!['#']);
    }
    assert forall|k: int| 0 <= k < n implies !occurs_at(s, seq!['#'], k) by {
        assert(s.subrange(k, k + 1)[0] == s[k]);
    }
    lemma_find_first(s, seq!['#'], 0, n);
}

/// The line written for a keybind is a `bind` line with its flags and
/// content.
#[verifier::spinoff_prover]
proof fn lemma_new_bind_line_meaning(
    mods: Seq<char>,
    key: Seq<char>,
    dispatcher: Seq<char>,
    args: Seq<char>,
    description: Option<Seq<char>>,
    flags: Seq<char>,
)
    requires
        plain_field(mods),
        plain_field(key),
        plain_field(dispatcher),
        dispatcher.len() > 0,
        trim(args) == args,
        !args.contains('#'),
        lower_letters(flags),
        all_alphabetic(flags),
        flags != "d"@,
    ensures
        new_bind_line(mods, key, dispatcher, args, description, flags) == "bind"@ + flags + " = "@
            + written_content(mods, key, dispatcher, args, description),
        line_meaning(new_bind_line(mods, key, dispatcher, args, description, flags)) == LineMeaning::Bind(
            flags,
            written_content(mods, key, dispatcher, args, description),
        ),
{
    reveal_strlit(", ");
    reveal_strlit(" = ");
    reveal_strlit(" # ");
    reveal_strlit("bind");
    reveal_strlit("submap");
    reveal_strlit("d");
    let w = written_fields(mods, key, dispatcher, args);
    let c = written_content(mods, key, dispatcher, args, description);
    let line = new_bind_line(mods, key, dispatcher, args, description, flags);
    lemma_find_char_absent(Seq::<char>::empty(), '#');
    assert(trim(args).len() == 0 <==> args.len() == 0);
    lemma_written_plain(mods, key, dispatcher, args);
    lemma_trimmed_ends(w);
    if described(description) {
        let td = trim(description->0);
        crate::text::lemma_trim_ends(description->0);
        assert(line =~= "bind"@ + flags + " = "@ + w + " # "@ + td);
        assert(c =~= w + " # "@ + td);
        assert(c[0] == w[0]);
        assert(c.last() == td.last());
        lemma_trim_fixed(c);
    } else {
        assert(c == w);
    }
    assert(line =~= "bind"@ + flags + " = "@ + c);
    assert(line[0] == 'b');
    assert(line.last() == c.last());
    lemma_trim_fixed(line);
    assert(!starts_with(line, "submap"@)) by {
        if starts_with(line, "submap"@) {
            assert(line.take(6)[0] == line[0]);
        }
    }
    assert(starts_with(line, "bind"@)) by {
        assert(line.take(4) =~= "bind"@);
    }
    lemma_after_bind(flags, c);
}

/// The fields and the description read from written content.
#[verifier::spinoff_prover]
proof fn lemma_content_fields(
    mods: Seq<char>,
    key: Seq<char>,
    dispatcher: Seq<char>,
    args: Seq<char>,
    description: Option<Seq<char>>,
    m: Map<Seq<char>, Seq<char>>,
)
    requires
        plain_field(mods),
        plain_field(key),
        plain_field(dispatcher),
        dispatcher.len() > 0,
        trim(args) == args,
        !args.contains('#'),
        names_no_variable(
            written_content(mods, key, dispatcher, args, description),
            written_fields(mods, key, dispatcher, args).len() as int,
            m,
        ),
    ensures
        trim(before_char(resolve_longest(written_content(mods, key, dispatcher, args, description), m), '#'))
            == written_fields(mods, key, dispatcher, args),
{
    reveal_strlit(" # ");
    let w = written_fields(mods, key, dispatcher, args);
    let c = written_content(mods, key, dispatcher, args, description);
    lemma_written_plain(mods, key, dispatcher, args);
    if described(description) {
        let td = trim(description->0);
        let n = w.len() as int + 1;
        assert(c =~= w + " # "@ + td);
        assert(c[n] == '#');
        assert forall|k: int| 0 <= k < n implies c[k] != '#' by {
            if k < w.len() {
                assert(c[k] == w[k]);
            }
        }
        assert(names_no_variable(c, n, m)) by {
            assert(c[n - 1] == ' ');
        }
        lemma_resolve_prefix(c, 0, n, m);
        let r = resolve_longest(c, m);
        assert(resolve_longest_from(c, n, m) == seq!['#'] + resolve_longest_from(c, n + 1, m));
        assert(r =~= c.subrange(0, n) + (seq!['#'] + resolve_longest_from(c, n + 1, m)));
        assert forall|k: int| 0 <= k < n implies r[k] != '#' by {
            assert(r[k] == c[k]);
        }
        assert(r[n] == '#');
        lemma_first_hash(r, n);
        assert(r.take(n) =~= w + seq![' ']);
        lemma_trimmed_ends(w);
        assert(trim(w + seq![' ']) == w) by {
            let t = w + seq![' '];
            assert(lead_from(t, 0) == 0);
            assert(crate::text::trail_down(t, t.len() as int, 0) == crate::text::trail_down(t, t.len() - 1, 0));
            assert(crate::text::trail_down(t, t.len() - 1, 0) == t.len() - 1);
            assert(t.subrange(0, t.len() - 1) =~= w);
        }
    } else {
        assert(c == w);
        lemma_resolve_prefix(w, 0, w.len() as int, m);
        assert(w.subrange(0, w.len() as int) =~= w);
        assert(resolve_longest_from(w, w.len() as int, m) =~= Seq::<char>::empty());
        assert(w + Seq::<char>::empty() =~= w);
        lemma_find_char_absent(w, '#');
    }
}

/// The description read from a written line: the one written, when it is
/// not blank.
#[verifier::spinoff_prover]
#[verifier::rlimit(40)]
proof fn lemma_written_description(
    mods: Seq<char>,
    key: Seq<char>,
    dispatcher: Seq<char>,
    args: Seq<char>,
    description: Option<Seq<char>>,
    flags: Seq<char>,
    prev: Option<Seq<char>>,
)
    requires
        plain_field(mods),
        plain_field(key),
        plain_field(dispatcher),
        dispatcher.len() > 0,
        trim(args) == args,
        !args.contains('#'),
        lower_letters(flags),
        all_alphabetic(flags),
        flags != "d"@,
        described(description),
    ensures
        description_of(new_bind_line(mods, key, dispatcher, args, description, flags), prev) == Some(
            trim(description->0),
        ),
{
    reveal_strlit(" # ");
    reveal_strlit(" = ");
    reveal_strlit("bind");
    let w = written_fields(mods, key, dispatcher, args);
    let td = trim(description->0);
    lemma_new_bind_line_meaning(mods, key, dispatcher, args, description, flags);
    lemma_written_plain(mods, key, dispatcher, args);
    let line = new_bind_line(mods, key, dispatcher, args, description, flags);
    let fl = flags.len() as int;
    let n = 4 + fl + 3 + w.len() as int + 1;
    assert(line =~= "bind"@ + flags + " = "@ + w + " # "@ + td);
    assert(line[n] == '#');
    assert forall|k: int| 0 <= k < n implies line[k] != '#' by {
        if 4 <= k < 4 + fl {
            assert(line[k] == flags[k - 4]);
            assert('a' <= flags[k - 4] <= 'z');
        } else if 4 + fl + 3 <= k < 4 + fl + 3 + w.len() {
            assert(line[k] == w[k - (4 + fl + 3)]);
        }
    }
    lemma_first_hash(line, n);
    assert(line.skip(n + 1) =~= seq![' '] + td);
    lemma_trim_twice(description->0);
    lemma_trim_space_prefix(td);
}

/// A keybind line the editor writes for new fields is read back as those
/// fields: the parser sees a `bind` line with the flags, its modifiers,
/// key, dispatcher and arguments are the ones written, and a description
/// written with it (not blank) is its description. This holds of fields the
/// format carries as they are: the modifiers, key and dispatcher trimmed and
/// free of commas, quotes and `#`, the dispatcher not blank, the arguments
/// trimmed and free of `#`, flags of lowercase letters other than `d`, and
/// fields in which no variable that `m` defines is named (a `$` that begins
/// no defined name is kept as it is).
#[verifier::spinoff_prover]
pub proof fn lemma_new_bind_line_reads_back(
    mods: Seq<char>,
    key: Seq<char>,
    dispatcher: Seq<char>,
    args: Seq<char>,
    description: Option<Seq<char>>,
    flags: Seq<char>,
    prev: Option<Seq<char>>,
    m: Map<Seq<char>, Seq<char>>,
)
    requires
        plain_field(mods),
        plain_field(key),
        plain_field(dispatcher),
        dispatcher.len() > 0,
        trim(args) == args,
        !args.contains('#'),
        names_no_variable(
            written_content(mods, key, dispatcher, args, description),
            written_fields(mods, key, dispatcher, args).len() as int,
            m,
        ),
        lower_letters(flags),
        flags != "d"@,
    ensures
        ({
            let line = new_bind_line(mods, key, dispatcher, args, description, flags);
            match line_meaning(line) {
                LineMeaning::Bind(f, content) => f == flags && bind_fields(f, content, line, prev, m) == Some(
                    BindFields {
                        flags,
                        mods,
                        key,
                        dispatcher,
                        args,
                        description: if described(description) {
                            Some(trim(description->0))
                        } else {
                            description_of(line, prev)
                        },
                    },
                ),
                _ => false,
            }
        }),
{
    lemma_lower_letters_alphabetic(flags);
    reveal_strlit("d");
    let w = written_fields(mods, key, dispatcher, args);
    let c = written_content(mods, key, dispatcher, args, description);
    let line = new_bind_line(mods, key, dispatcher, args, description, flags);
    lemma_new_bind_line_meaning(mods, key, dispatcher, args, description, flags);
    lemma_content_fields(mods, key, dispatcher, args, description, m);
    lemma_fields_split(mods, key, dispatcher, args);
    if described(description) {
        lemma_written_description(mods, key, dispatcher, args, description, flags, prev);
    }
    let parts = split_fields(w, 3);
    assert(parts.len() >= 3);
    assert(parts[0] == mods && parts[1] == key && parts[2] == dispatcher);
    assert(crate::parser::field_or_empty(parts, 3) == args);
    assert(bind_fields(flags, c, line, prev, m) == Some(
        BindFields {
            flags,
            mods,
            key,
            dispatcher,
            args,
            description: if described(description) {
                Some(trim(description->0))
            } else {
                description_of(line, prev)
            },
        },
    ));
}

/// Reading lines with one more line at the end reads the same up to the
/// old end (the new line's neighbour above is the old last line), then
/// the new line.
proof fn lemma_scan_append(
    lines: Seq<Seq<char>>,
    line: Seq<char>,
    i: int,
    submap: Option<Seq<char>>,
    m: Map<Seq<char>, Seq<char>>,
    file: Seq<char>,
)
    requires
        0 <= i <= lines.len(),
        scan_from(lines, i, submap, m, file).source is None,
    ensures
        ({
            let before = scan_from(lines, i, submap, m, file);
            let last = scan_from(lines.push(line), lines.len() as int, before.submap, m, file);
            scan_from(lines.push(line), i, submap, m, file) == ScanView {
                binds: before.binds + last.binds,
                ..last
            }
        }),
    decreases lines.len() - i,
{
    let ls = lines.push(line);
    if i < lines.len() {
        assert(ls[i] == lines[i]);
        assert(prev_line(ls, i) == prev_line(lines, i)) by {
            if i > 0 {
                assert(ls[i - 1] == lines[i - 1]);
            }
        }
        match line_meaning(lines[i]) {
            LineMeaning::Nothing => {
                lemma_scan_append(lines, line, i + 1, submap, m, file);
            },
            LineMeaning::Submap(s) => {
                lemma_scan_append(lines, line, i + 1, s, m, file);
            },
            LineMeaning::Bind(f, c) => {
                lemma_scan_append(lines, line, i + 1, submap, m, file);
                match bind_fields(f, c, lines[i], prev_line(lines, i), m) {
                    Some(b) => {
                        let k = keybind_of(b, submap, i, file);
                        let rest = scan_from(lines, i + 1, submap, m, file);
                        let last = scan_from(ls, lines.len() as int, rest.submap, m, file);
                        assert(seq![k] + (rest.binds + last.binds) =~= (seq![k] + rest.binds) + last.binds);
                    },
                    None => {},
                }
            },
            LineMeaning::Source(p) => {},
        }
    } else {
        let before = scan_from(lines, i, submap, m, file);
        assert(before.binds =~= Seq::<KeybindView>::empty());
        let last = scan_from(ls, lines.len() as int, before.submap, m, file);
        assert(before.binds + last.binds =~= last.binds);
    }
}

/// Adding a keybind outside submaps and reading the lines again gives the
/// keybinds read before and then the new one: its fields as written (see
/// `lemma_new_bind_line_reads_back` for the fields the format carries), on
/// the new last line, in the submap open at the end of the lines. This
/// holds of a run of lines that reaches the end (no `source = ` line stops
/// it).
#[verifier::spinoff_prover]
pub proof fn lemma_added_keybind_is_read(
    lines: Seq<Seq<char>>,
    mods: Seq<char>,
    key: Seq<char>,
    dispatcher: Seq<char>,
    args: Seq<char>,
    description: Option<Seq<char>>,
    flags: Seq<char>,
    start: int,
    submap: Option<Seq<char>>,
    m: Map<Seq<char>, Seq<char>>,
    file: Seq<char>,
)
    requires
        plain_field(mods),
        plain_field(key),
        plain_field(dispatcher),
        dispatcher.len() > 0,
        trim(args) == args,
        !args.contains('#'),
        names_no_variable(
            written_content(mods, key, dispatcher, args, description),
            written_fields(mods, key, dispatcher, args).len() as int,
            m,
        ),
        lower_letters(flags),
        flags != "d"@,
        0 <= start <= lines.len(),
        scan_from(lines, start, submap, m, file).source is None,
    ensures
        ({
            let line = new_bind_line(mods, key, dispatcher, args, description, flags);
            let (added, idx) = add_line_spec(lines, line, None);
            let before = scan_from(lines, start, submap, m, file);
            let after = scan_from(added, start, submap, m, file);
            &&& idx == lines.len()
            &&& after.source is None
            &&& after.submap == before.submap
            &&& after.binds == before.binds.push(
                KeybindView {
                    mods,
                    clean_mods: mods,
                    flags,
                    key,
                    dispatcher,
                    args,
                    description: if described(description) {
                        Some(trim(description->0))
                    } else {
                        description_of(line, prev_line(added, idx))
                    },
                    submap: before.submap,
                    line_number: idx,
                    file_path: file,
                },
            )
        }),
{
    lemma_lower_letters_alphabetic(flags);
    let line = new_bind_line(mods, key, dispatcher, args, description, flags);
    let added = lines.push(line);
    let n = lines.len() as int;
    assert(add_line_spec(lines, line, None) == (added, n));
    let before = scan_from(lines, start, submap, m, file);
    lemma_scan_append(lines, line, start, submap, m, file);
    lemma_new_bind_line_reads_back(mods, key, dispatcher, args, description, flags, prev_line(added, n), m);
    assert(added[n] == line);
    let last = scan_from(added, n, before.submap, m, file);
    assert(scan_from(added, n + 1, before.submap, m, file).binds =~= Seq::<KeybindView>::empty());
    assert(last.binds.len() == 1);
    assert(before.binds + last.binds =~= before.binds.push(last.binds[0]));
}

/// A `submap = name` line, for a name that is its own trim, not empty, and
/// holds no `#`, sets the submap (`reset` ends it).
proof fn lemma_submap_line(name: Seq<char>)
    requires
        name.len() > 0,
        trim(name) == name,
        !name.contains('#'),
    ensures
        line_meaning("submap = "@ + name) == LineMeaning::Submap(
            if name == "reset"@ {
                None
            } else {
                Some(name)
            },
        ),
{
    reveal_strlit("submap = ");
    reveal_strlit("submap");
    let t = "submap = "@ + name;
    lemma_trimmed_ends(name);
    assert(t =~= Seq::<char>::empty() + t + Seq::<char>::empty());
    assert(t.last() == name.last());
    lemma_trim_pad(Seq::<char>::empty(), t, Seq::<char>::empty());
    assert(trim(t) == t);
    assert(t.take(6) =~= "submap"@);
    let r = t.skip(6);
    assert(r[0] == ' ' && r[1] == '=');
    assert(lead_from(r, 0) == 1) by {
        assert(lead_from(r, 1) == 1);
    }
    assert(trim_start(r) =~= r.skip(1));
    let v = r.skip(1).skip(1);
    assert(v =~= seq![' '] + name);
    assert(!v.contains('#')) by {
        if v.contains('#') {
            let k = choose|k: int| 0 <= k < v.len() && v[k] == '#';
            assert(v[k] == name[k - 1]);
        }
    }
    lemma_find_char_absent(v, '#');
    assert(before_char(v, '#') == v);
    lemma_trim_after_space(name);
}

/// A keybind added into a submap that the file does not have yet is read
/// as a keybind of that submap: the file gets a blank line, the submap's
/// opening line, the keybind and the line that resets the submap, and
/// reading the file gives the keybinds it gave before and then the new one
/// in the submap, outside any submap after it. This holds of fields as for
/// a new line, and of a submap name that is its own trim, not empty, free
/// of `#` and not `reset`.
pub proof fn lemma_added_keybind_in_new_submap_is_read(
    lines: Seq<Seq<char>>,
    mods: Seq<char>,
    key: Seq<char>,
    dispatcher: Seq<char>,
    args: Seq<char>,
    description: Option<Seq<char>>,
    flags: Seq<char>,
    name: Seq<char>,
    start: int,
    submap: Option<Seq<char>>,
    m: Map<Seq<char>, Seq<char>>,
    file: Seq<char>,
)
    requires
        plain_field(mods),
        plain_field(key),
        plain_field(dispatcher),
        dispatcher.len() > 0,
        trim(args) == args,
        !args.contains('#'),
        names_no_variable(
            written_content(mods, key, dispatcher, args, description),
            written_fields(mods, key, dispatcher, args).len() as int,
            m,
        ),
        lower_letters(flags),
        flags != "d"@,
        name.len() > 0,
        trim(name) == name,
        !name.contains('#'),
        name != "reset"@,
        crate::edit::first_trimmed_eq(lines, "submap = "@ + name, 0) is None,
        0 <= start <= lines.len(),
        scan_from(lines, start, submap, m, file).source is None,
    ensures
        ({
            let line = new_bind_line(mods, key, dispatcher, args, description, flags);
            let (added, idx) = add_line_spec(lines, line, Some(name));
            let before = scan_from(lines, start, submap, m, file);
            let after = scan_from(added, start, submap, m, file);
            &&& idx == lines.len() + 2
            &&& after.source is None
            &&& after.submap is None
            &&& after.binds == before.binds.push(
                KeybindView {
                    mods,
                    clean_mods: mods,
                    flags,
                    key,
                    dispatcher,
                    args,
                    description: if described(description) {
                        Some(trim(description->0))
                    } else {
                        description_of(line, prev_line(added, idx))
                    },
                    submap: Some(name),
                    line_number: idx,
                    file_path: file,
                },
            )
        }),
{
    reveal_strlit("submap = reset");
    reveal_strlit("reset");
    reveal_strlit("submap = ");
    lemma_lower_letters_alphabetic(flags);
    let line = new_bind_line(mods, key, dispatcher, args, description, flags);
    let decl = "submap = "@ + name;
    let reset = "submap = reset"@;
    let e = Seq::<char>::empty();
    let n = lines.len() as int;
    let l1 = lines.push(e);
    let l2 = l1.push(decl);
    let l3 = l2.push(line);
    let l4 = l3.push(reset);
    assert(add_line_spec(lines, line, Some(name)) == (lines + seq![e, decl, line, reset], n + 2));
    assert(lines + seq![e, decl, line, reset] =~= l4);
    lemma_submap_line(name);
    assert(reset =~= "submap = "@ + "reset"@);
    lemma_trim_fixed("reset"@);
    assert(!"reset"@.contains('#')) by {
        if "reset"@.contains('#') {
            let k = choose|k: int| 0 <= k < "reset"@.len() && "reset"@[k] == '#';
        }
    }
    lemma_submap_line("reset"@);
    assert(trim(e) =~= e) by {
        lemma_trim_fixed(e);
    }
    let before = scan_from(lines, start, submap, m, file);
    lemma_scan_append(lines, e, start, submap, m, file);
    assert(l1[n] == e);
    assert(scan_from(l1, n + 1, before.submap, m, file).binds =~= Seq::<KeybindView>::empty());
    let s1 = scan_from(l1, start, submap, m, file);
    assert(s1.binds =~= before.binds);
    lemma_scan_append(l1, decl, start, submap, m, file);
    assert(l2[n + 1] == decl);
    assert(line_meaning(l2[n + 1]) == LineMeaning::Submap(Some(name)));
    assert(scan_from(l2, n + 2, Some(name), m, file) == (ScanView { binds: seq![], submap: Some(name), source: None }));
    assert(scan_from(l2, n + 1, s1.submap, m, file) == scan_from(l2, n + 2, Some(name), m, file));
    let s2 = scan_from(l2, start, submap, m, file);
    assert(s2.binds =~= before.binds);
    assert(s2.submap == Some(name));
    lemma_scan_append(l2, line, start, submap, m, file);
    lemma_new_bind_line_reads_back(mods, key, dispatcher, args, description, flags, prev_line(l3, n + 2), m);
    assert(l3[n + 2] == line);
    let last3 = scan_from(l3, n + 2, Some(name), m, file);
    assert(scan_from(l3, n + 3, Some(name), m, file).binds =~= Seq::<KeybindView>::empty());
    assert(last3.binds.len() == 1);
    let s3 = scan_from(l3, start, submap, m, file);
    assert(s3.binds =~= before.binds.push(last3.binds[0]));
    lemma_scan_append(l3, reset, start, submap, m, file);
    assert(l4[n + 3] == reset);
    assert(line_meaning(l4[n + 3]) == LineMeaning::Submap(None));
    assert(scan_from(l4, n + 4, None, m, file) == (ScanView { binds: seq![], submap: None, source: None }));
    assert(scan_from(l4, n + 4, None, m, file).binds =~= Seq::<KeybindView>::empty());
    let s4 = scan_from(l4, start, submap, m, file);
    assert(s4.binds =~= s3.binds);
    assert(prev_line(l4, n + 2) == prev_line(l3, n + 2));
}

/// A keybind line as the editor writes it: indentation, `bind`, the flags,
/// ` = `, the fields, then a comment (empty, or a space and `#` and more,
/// ending in something other than whitespace), then trailing whitespace.
spec fn shaped_line(
    indent: Seq<char>,
    flags: Seq<char>,
    w: Seq<char>,
    comment: Seq<char>,
    trailing: Seq<char>,
) -> Seq<char> {
    indent + ("bind"@ + flags + " = "@ + w + comment) + trailing
}

/// The comment part of a shaped line.
spec fn comment_shape(comment: Seq<char>) -> bool {
    comment.len() == 0 || (comment.len() >= 2 && comment[0] == ' ' && comment[1] == '#' && !is_ws(comment.last()))
}

/// All whitespace.
spec fn all_ws(s: Seq<char>) -> bool {
    forall|k: int| 0 <= k < s.len() ==> is_ws(#[trigger] s[k])
}

/// A shaped line is read as a `bind` line whose fields are those written.
#[verifier::spinoff_prover]
proof fn lemma_shaped_line_reads_back(
    indent: Seq<char>,
    flags: Seq<char>,
    mods: Seq<char>,
    key: Seq<char>,
    dispatcher: Seq<char>,
    args: Seq<char>,
    comment: Seq<char>,
    trailing: Seq<char>,
    prev: Option<Seq<char>>,
    m: Map<Seq<char>, Seq<char>>,
)
    requires
        plain_field(mods),
        plain_field(key),
        plain_field(dispatcher),
        dispatcher.len() > 0,
        trim(args) == args,
        !args.contains('#'),
        lower_letters(flags),
        all_alphabetic(flags),
        flags != "d"@,
        all_ws(indent),
        all_ws(trailing),
        comment_shape(comment),
    ensures
        ({
            let line = shaped_line(indent, flags, written_fields(mods, key, dispatcher, args), comment, trailing);
            let c = written_fields(mods, key, dispatcher, args) + comment;
            &&& line_meaning(line) == LineMeaning::Bind(flags, c)
            &&& names_no_variable(c, written_fields(mods, key, dispatcher, args).len() as int, m) ==> bind_fields(
                flags,
                c,
                line,
                prev,
                m,
            ) == Some(BindFields { flags, mods, key, dispatcher, args, description: description_of(line, prev) })
        }),
{
    reveal_strlit(" = ");
    reveal_strlit("bind");
    reveal_strlit("submap");
    reveal_strlit("d");
    let w = written_fields(mods, key, dispatcher, args);
    let c = w + comment;
    let u = "bind"@ + flags + " = "@ + c;
    let line = shaped_line(indent, flags, w, comment, trailing);
    lemma_written_plain(mods, key, dispatcher, args);
    lemma_trimmed_ends(w);
    assert(u =~= "bind"@ + flags + " = "@ + w + comment);
    assert(line =~= indent + u + trailing);
    assert(u[0] == 'b');
    if comment.len() > 0 {
        assert(u.last() == comment.last());
        assert(c.last() == comment.last());
    } else {
        assert(u.last() == w.last());
        assert(c =~= w);
    }
    assert(c[0] == w[0]);
    lemma_trim_pad(indent, u, trailing);
    lemma_trim_fixed(c);
    assert(!starts_with(u, "submap"@)) by {
        if starts_with(u, "submap"@) {
            assert(u.take(6)[0] == u[0]);
        }
    }
    assert(starts_with(u, "bind"@)) by {
        assert(u.take(4) =~= "bind"@);
    }
    lemma_after_bind(flags, c);
    assert(line_meaning(line) == LineMeaning::Bind(flags, c));
    // The fields: the comment is cut off at its `#`.
    if names_no_variable(c, w.len() as int, m) {
        if comment.len() > 0 {
            let n = w.len() as int + 1;
            assert(c[n] == '#');
            assert(c[n - 1] == ' ');
            assert forall|k: int| 0 <= k < n implies c[k] != '#' by {
                if k < w.len() {
                    assert(c[k] == w[k]);
                }
            }
            assert(names_no_variable(c, n, m)) by {
                assert(c[n - 1] == ' ');
            }
            lemma_resolve_prefix(c, 0, n, m);
            let r = resolve_longest(c, m);
            assert(resolve_longest_from(c, n, m) == seq!['#'] + resolve_longest_from(c, n + 1, m));
            assert(r =~= c.subrange(0, n) + (seq!['#'] + resolve_longest_from(c, n + 1, m)));
            assert forall|k: int| 0 <= k < n implies r[k] != '#' by {
                assert(r[k] == c[k]);
            }
            assert(r[n] == '#');
            lemma_first_hash(r, n);
            assert(r.take(n) =~= w + seq![' ']);
            assert(trim(w + seq![' ']) == w) by {
                lemma_trim_pad(Seq::<char>::empty(), w, seq![' ']);
                assert(Seq::<char>::empty() + w + seq![' '] =~= w + seq![' ']);
            }
        } else {
            assert(c =~= w);
            lemma_resolve_prefix(w, 0, w.len() as int, m);
            assert(w.subrange(0, w.len() as int) =~= w);
            assert(resolve_longest_from(w, w.len() as int, m) =~= Seq::<char>::empty());
            assert(w + Seq::<char>::empty() =~= w);
            lemma_find_char_absent(w, '#');
        }
        assert(trim(before_char(resolve_longest(c, m), '#')) == w);
        lemma_fields_split(mods, key, dispatcher, args);
        let parts = split_fields(w, 3);
        assert(parts.len() >= 3);
        assert(parts[0] == mods && parts[1] == key && parts[2] == dispatcher);
        assert(crate::parser::field_or_empty(parts, 3) == args);
    }
}

/// The flags a rewritten keybind line gets: the new ones when given, else
/// those of the line it replaces.
pub open spec fn flags_in_effect(orig: Seq<char>, new_flags: Option<Seq<char>>) -> Seq<char> {
    match new_flags {
        Some(f) => f,
        None => {
            let after = orig.skip(lead_from(orig, 0)).skip(4);
            match find_char(after, '=') {
                Some(e) => trim(after.take(e)),
                None => seq![],
            }
        },
    }
}

/// A comment kept from a line, as a shaped line's comment and trailing
/// whitespace.
#[verifier::spinoff_prover]
proof fn lemma_kept_comment(orig: Seq<char>, i: int)
    requires
        0 <= i < orig.len(),
        orig[i] == '#',
    ensures
        ({
            let tail = " "@ + orig.skip(i);
            let j = trail_down(tail, tail.len() as int, 0);
            &&& 2 <= j <= tail.len()
            &&& comment_shape(tail.take(j))
            &&& all_ws(tail.skip(j))
            &&& tail == tail.take(j) + tail.skip(j)
        }),
{
    reveal_strlit(" ");
    let tail = " "@ + orig.skip(i);
    assert(tail[1] == '#');
    lemma_trail_down_bounds(tail, tail.len() as int, 0);
    let j = trail_down(tail, tail.len() as int, 0);
    if j < 2 {
        assert(is_ws(tail[1]));
    }
    assert(tail.take(j)[0] == ' ' && tail.take(j)[1] == '#');
    assert(tail.take(j).last() == tail[j - 1]);
    assert forall|k: int| 0 <= k < tail.skip(j).len() implies is_ws(#[trigger] tail.skip(j)[k]) by {
        assert(tail.skip(j)[k] == tail[j + k]);
    }
    assert(tail =~= tail.take(j) + tail.skip(j));
}

/// What a keybind's fields read back as on the line written for them:
/// those fields with the flags, and the description written with them when
/// it is not blank, else the one the line and its neighbour give.
pub open spec fn reads_back(
    line: Seq<char>,
    flags: Seq<char>,
    mods: Seq<char>,
    key: Seq<char>,
    dispatcher: Seq<char>,
    args: Seq<char>,
    description: Option<Seq<char>>,
    prev: Option<Seq<char>>,
    m: Map<Seq<char>, Seq<char>>,
) -> bool {
    match line_meaning(line) {
        LineMeaning::Bind(f, c) => f == flags && bind_fields(f, c, line, prev, m) == Some(
            BindFields {
                flags,
                mods,
                key,
                dispatcher,
                args,
                description: if described(description) {
                    Some(trim(description->0))
                } else {
                    description_of(line, prev)
                },
            },
        ),
        _ => false,
    }
}

/// The line a keybind line `orig` is rewritten as.
spec fn rewritten(
    orig: Seq<char>,
    flags: Seq<char>,
    mods: Seq<char>,
    key: Seq<char>,
    dispatcher: Seq<char>,
    args: Seq<char>,
    description: Option<Seq<char>>,
) -> Seq<char> {
    with_comment(
        bind_text(orig.take(lead_from(orig, 0)), flags, mods, key, dispatcher, args, description),
        flags,
        description,
        orig,
    )
}

/// A rewritten line with a description that is not blank.
#[verifier::spinoff_prover]
proof fn lemma_rewritten_described(
    orig: Seq<char>,
    flags: Seq<char>,
    mods: Seq<char>,
    key: Seq<char>,
    dispatcher: Seq<char>,
    args: Seq<char>,
    description: Option<Seq<char>>,
    prev: Option<Seq<char>>,
    m: Map<Seq<char>, Seq<char>>,
)
    requires
        plain_field(mods),
        plain_field(key),
        plain_field(dispatcher),
        dispatcher.len() > 0,
        trim(args) == args,
        !args.contains('#'),
        lower_letters(flags),
        all_alphabetic(flags),
        flags != "d"@,
        all_ws(orig.take(lead_from(orig, 0))),
        described(description),
    ensures
        bind_names_no_variable(
            rewritten(orig, flags, mods, key, dispatcher, args, description),
            written_fields(mods, key, dispatcher, args).len() as int,
            m,
        ) ==> reads_back(rewritten(orig, flags, mods, key, dispatcher, args, description), flags, mods, key,
            dispatcher, args, description, prev, m),
{
    reveal_strlit(", ");
    reveal_strlit(" = ");
    reveal_strlit(" # ");
    reveal_strlit("bind");
    reveal_strlit("d");
    let indent = orig.take(lead_from(orig, 0));
    let w = written_fields(mods, key, dispatcher, args);
    assert(trim(args).len() == 0 <==> args.len() == 0);
    let line = rewritten(orig, flags, mods, key, dispatcher, args, description);
    let td = trim(description->0);
    crate::text::lemma_trim_ends(description->0);
    let comment = " # "@ + td;
    assert(comment_shape(comment)) by {
        assert(comment.last() == td.last());
    }
    assert(line =~= shaped_line(indent, flags, w, comment, Seq::<char>::empty()));
    lemma_shaped_line_reads_back(indent, flags, mods, key, dispatcher, args, comment, Seq::<char>::empty(), prev, m);
    let fl = flags.len() as int;
    let p = indent.len() + 4 + fl + 3 + w.len() as int + 1;
    lemma_written_plain(mods, key, dispatcher, args);
    assert(line[p] == '#');
    assert forall|q: int| 0 <= q < p implies line[q] != '#' by {
        if q < indent.len() {
            assert(line[q] == indent[q]);
            assert(is_ws(indent[q]));
        } else if indent.len() + 4 <= q < indent.len() + 4 + fl {
            assert(line[q] == flags[q - indent.len() - 4]);
            assert('a' <= flags[q - indent.len() - 4] <= 'z');
        } else if indent.len() + 4 + fl + 3 <= q < indent.len() + 4 + fl + 3 + w.len() {
            assert(line[q] == w[q - (indent.len() + 4 + fl + 3)]);
        }
    }
    lemma_first_hash(line, p);
    assert(line.skip(p + 1) =~= seq![' '] + td);
    lemma_trim_twice(description->0);
    lemma_trim_space_prefix(td);
}

/// A rewritten line without a description that is not blank.
#[verifier::spinoff_prover]
proof fn lemma_rewritten_plain(
    orig: Seq<char>,
    flags: Seq<char>,
    mods: Seq<char>,
    key: Seq<char>,
    dispatcher: Seq<char>,
    args: Seq<char>,
    description: Option<Seq<char>>,
    prev: Option<Seq<char>>,
    m: Map<Seq<char>, Seq<char>>,
)
    requires
        plain_field(mods),
        plain_field(key),
        plain_field(dispatcher),
        dispatcher.len() > 0,
        trim(args) == args,
        !args.contains('#'),
        lower_letters(flags),
        all_alphabetic(flags),
        flags != "d"@,
        all_ws(orig.take(lead_from(orig, 0))),
        !described(description),
    ensures
        bind_names_no_variable(
            rewritten(orig, flags, mods, key, dispatcher, args, description),
            written_fields(mods, key, dispatcher, args).len() as int,
            m,
        ) ==> reads_back(rewritten(orig, flags, mods, key, dispatcher, args, description), flags, mods, key,
            dispatcher, args, description, prev, m),
{
    reveal_strlit(", ");
    reveal_strlit(" = ");
    reveal_strlit(" ");
    reveal_strlit("bind");
    reveal_strlit("d");
    let indent = orig.take(lead_from(orig, 0));
    let w = written_fields(mods, key, dispatcher, args);
    assert(trim(args).len() == 0 <==> args.len() == 0);
    let text = bind_text(indent, flags, mods, key, dispatcher, args, description);
    assert(text =~= indent + ("bind"@ + flags + " = "@ + w));
    let line = rewritten(orig, flags, mods, key, dispatcher, args, description);
    let e = Seq::<char>::empty();
    if description is Some {
        assert(line =~= shaped_line(indent, flags, w, e, e));
        lemma_shaped_line_reads_back(indent, flags, mods, key, dispatcher, args, e, e, prev, m);
    } else {
        match find_char(orig, '#') {
            Some(i) => {
                lemma_find_from(orig, seq!['#'], 0);
                assert(orig.subrange(i, i + 1)[0] == orig[i]);
                lemma_kept_comment(orig, i);
                let tail = " "@ + orig.skip(i);
                let j = trail_down(tail, tail.len() as int, 0);
                assert(line =~= shaped_line(indent, flags, w, tail.take(j), tail.skip(j)));
                lemma_shaped_line_reads_back(indent, flags, mods, key, dispatcher, args, tail.take(j), tail.skip(j),
                    prev, m);
            },
            None => {
                assert(line =~= shaped_line(indent, flags, w, e, e));
                lemma_shaped_line_reads_back(indent, flags, mods, key, dispatcher, args, e, e, prev, m);
            },
        }
    }
}

/// Rewriting a keybind line with new fields and reading it again gives
/// those fields, with the flags in effect (the new ones, or the line's
/// own), when the rewritten line's fields name no variable that `m`
/// defines; a description given with them (not blank) is its description.
/// This holds of fields the format carries as they are (as for a new line)
/// and flags of lowercase letters other than `d`.
#[verifier::spinoff_prover]
pub proof fn lemma_updated_line_reads_back(
    lines: Seq<Seq<char>>,
    n: int,
    mods: Seq<char>,
    key: Seq<char>,
    dispatcher: Seq<char>,
    args: Seq<char>,
    description: Option<Seq<char>>,
    new_flags: Option<Seq<char>>,
    prev: Option<Seq<char>>,
    m: Map<Seq<char>, Seq<char>>,
)
    requires
        plain_field(mods),
        plain_field(key),
        plain_field(dispatcher),
        dispatcher.len() > 0,
        trim(args) == args,
        !args.contains('#'),
        0 <= n < lines.len(),
        lower_letters(flags_in_effect(lines[n], new_flags)),
        flags_in_effect(lines[n], new_flags) != "d"@,
    ensures
        match update_line_spec(lines, n, mods, key, dispatcher, args, description, new_flags) {
            Ok(ls) => bind_names_no_variable(ls[n], written_fields(mods, key, dispatcher, args).len() as int, m)
                ==> reads_back(ls[n], flags_in_effect(lines[n], new_flags), mods, key, dispatcher, args,
                description, prev, m),
            Err(_) => true,
        },
{
    lemma_lower_letters_alphabetic(flags_in_effect(lines[n], new_flags));
    reveal_strlit("bind");
    let orig = lines[n];
    let k = lead_from(orig, 0);
    lemma_lead_from_bounds(orig, 0);
    let indent = orig.take(k);
    assert(all_ws(indent)) by {
        assert forall|q: int| 0 <= q < indent.len() implies is_ws(#[trigger] indent[q]) by {
            assert(indent[q] == orig[q]);
        }
    }
    let flags = flags_in_effect(orig, new_flags);
    match update_line_spec(lines, n, mods, key, dispatcher, args, description, new_flags) {
        Ok(ls) => {
            crate::edit::lemma_boundary_bound(orig, k, 0);
            if let Some(j) = crate::edit::indent_split(orig) {
                if j < k {
                    assert(is_ws(orig[j]));
                    assert(orig.skip(j).take(4)[0] == orig[j]);
                    assert(false);
                }
            }
            assert(ls[n] == rewritten(orig, flags, mods, key, dispatcher, args, description));
            if described(description) {
                lemma_rewritten_described(orig, flags, mods, key, dispatcher, args, description, prev, m);
            } else {
                lemma_rewritten_plain(orig, flags, mods, key, dispatcher, args, description, prev, m);
            }
        },
        Err(_) => {},
    }
}

/// A keybind added without a description below a comment line is read
/// with the comment's text as its description: the comment line is
/// indentation, one or more `#`, spacing, the text (beginning with neither
/// whitespace nor `#`, not ending in whitespace) and trailing whitespace.
/// This holds of fields as for `lemma_added_keybind_is_read`.
#[verifier::spinoff_prover]
pub proof fn lemma_comment_above_added_keybind(
    lines: Seq<Seq<char>>,
    mods: Seq<char>,
    key: Seq<char>,
    dispatcher: Seq<char>,
    args: Seq<char>,
    flags: Seq<char>,
    indent: Seq<char>,
    hashes: Seq<char>,
    gap: Seq<char>,
    text: Seq<char>,
    trail: Seq<char>,
    start: int,
    submap: Option<Seq<char>>,
    m: Map<Seq<char>, Seq<char>>,
    file: Seq<char>,
)
    requires
        plain_field(mods),
        plain_field(key),
        plain_field(dispatcher),
        dispatcher.len() > 0,
        trim(args) == args,
        !args.contains('#'),
        names_no_variable(
            written_content(mods, key, dispatcher, args, None),
            written_fields(mods, key, dispatcher, args).len() as int,
            m,
        ),
        lower_letters(flags),
        flags != "d"@,
        0 <= start <= lines.len(),
        scan_from(lines, start, submap, m, file).source is None,
        lines.len() > 0,
        lines.last() == indent + hashes + gap + text + trail,
        crate::parser::blank(indent),
        crate::parser::blank(gap),
        crate::parser::blank(trail),
        hashes.len() > 0,
        forall|k: int| 0 <= k < hashes.len() ==> #[trigger] hashes[k] == '#',
        text.len() > 0,
        !is_ws(text[0]),
        text[0] != '#',
        !is_ws(text.last()),
    ensures
        ({
            let line = new_bind_line(mods, key, dispatcher, args, None, flags);
            let (added, idx) = add_line_spec(lines, line, None);
            let after = scan_from(added, start, submap, m, file);
            &&& after.binds.len() == scan_from(lines, start, submap, m, file).binds.len() + 1
            &&& after.binds.last().line_number == idx
            &&& after.binds.last().description == Some(text)
        }),
{
    reveal_strlit(" = ");
    reveal_strlit("bind");
    lemma_lower_letters_alphabetic(flags);
    lemma_added_keybind_is_read(lines, mods, key, dispatcher, args, None, flags, start, submap, m, file);
    let line = new_bind_line(mods, key, dispatcher, args, None, flags);
    let n = lines.len() as int;
    let added = lines.push(line);
    assert(prev_line(added, n) == Some(lines.last()));
    lemma_new_bind_line_meaning(mods, key, dispatcher, args, None, flags);
    lemma_written_plain(mods, key, dispatcher, args);
    let w = written_fields(mods, key, dispatcher, args);
    assert(written_content(mods, key, dispatcher, args, None) == w);
    assert(!line.contains('#')) by {
        if line.contains('#') {
            let k = choose|k: int| 0 <= k < line.len() && line[k] == '#';
            let fl = flags.len() as int;
            if 4 <= k < 4 + fl {
                assert(line[k] == flags[k - 4]);
                assert('a' <= flags[k - 4] <= 'z');
            } else if k >= 4 + fl + 3 {
                assert(line[k] == w[k - (4 + fl + 3)]);
            }
        }
    }
    crate::parser::lemma_comment_above_describes(line, indent, hashes, gap, text, trail);
}

} // verus!
