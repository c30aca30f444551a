//! Backups of the configuration directory: which old backups to remove, the
//! order they are listed in, and the report of what differs from a backup.
use crate::order::{insert_sorted, lemma_sorted_unique, strictly_sorted};
use crate::text::{append, chars_of, eq_chars, ends_with, string_of, views};
use crate::vars::string_views;
use similar::{ChangeTag, TextDiff};
use vstd::prelude::*;

verus! {

broadcast use vstd::string::group_string_axioms;

// ---------------------------------------------------------------------------
// Which backups to keep
// ---------------------------------------------------------------------------

/// `r` lists the names of `names` in order, each once.
pub open spec fn is_sorted_names_of(r: Seq<Seq<char>>, names: Seq<Seq<char>>) -> bool {
    strictly_sorted(r) && (forall|x: Seq<char>| r.contains(x) <==> names.contains(x))
}

/// The names in order (backups are named by their time, so oldest first).
pub open spec fn sorted_names(names: Seq<Seq<char>>) -> Seq<Seq<char>> {
    choose|r: Seq<Seq<char>>| is_sorted_names_of(r, names)
}

fn sort_names(names: &[String]) -> (r: Vec<Vec<char>>)
    requires
        string_views(names@).no_duplicates(),
    ensures
        views(r@) == sorted_names(string_views(names@)),
        is_sorted_names_of(views(r@), string_views(names@)),
        r@.len() == names@.len(),
{
    let ghost nv = string_views(names@);
    let mut acc: Vec<Vec<char>> = Vec::new();
    let mut i: usize = 0;
    while i < names.len()
        invariant
            i <= names@.len(),
            nv == string_views(names@),
            strictly_sorted(views(acc@)),
            forall|x: Seq<char>| views(acc@).contains(x) <==> nv.take(i as int).contains(x),
        decreases names@.len() - i,
    {
        let ghost before = views(acc@);
        insert_sorted(&mut acc, chars_of(names[i].as_str()));
        assert forall|x: Seq<char>| views(acc@).contains(x) <==> nv.take(i + 1).contains(x) by {
            let t1 = nv.take(i + 1);
            let t0 = nv.take(i as int);
            assert(t1 =~= t0.push(nv[i as int]));
            if t1.contains(x) {
                let j = choose|j: int| 0 <= j < t1.len() && t1[j] == x;
                if j < i {
                    assert(t0[j] == x);
                }
            }
            if t0.contains(x) {
                let j = choose|j: int| 0 <= j < t0.len() && t0[j] == x;
                assert(t1[j] == x);
            }
            if x == nv[i as int] {
                assert(t1[i as int] == x);
            }
        }
        i = i + 1;
    }
    proof {
        assert(nv.take(i as int) =~= nv);
        assert(is_sorted_names_of(views(acc@), nv));
        lemma_sorted_unique(sorted_names(nv), views(acc@));
        lemma_sorted_len(views(acc@), nv);
    }
    acc
}

/// A strictly sorted list of the names of a list without repeats is as long
/// as that list.
proof fn lemma_sorted_len(r: Seq<Seq<char>>, names: Seq<Seq<char>>)
    requires
        strictly_sorted(r),
        names.no_duplicates(),
        forall|x: Seq<char>| r.contains(x) <==> names.contains(x),
    ensures
        r.len() == names.len(),
{
    assert(r.no_duplicates()) by {
        assert forall|a: int, b: int| 0 <= a < r.len() && 0 <= b < r.len() && a != b implies r[a]
            != r[b] by {
            if a < b {
                crate::order::lemma_lex_irreflexive(r[a]);
            } else {
                crate::order::lemma_lex_irreflexive(r[b]);
            }
        }
    }
    r.unique_seq_to_set();
    names.unique_seq_to_set();
    assert(r.to_set() =~= names.to_set());
}

/// The backups that pruning removes so that at most `max_count` are kept:
/// the oldest ones.
pub open spec fn backups_to_remove(names: Seq<Seq<char>>, max_count: int) -> Seq<Seq<char>> {
    let s = sorted_names(names);
    if names.len() > max_count {
        s.take(names.len() - max_count)
    } else {
        seq![]
    }
}

/// The names of the backups (directory names, each once) that pruning to
/// `max_count` backups removes: as many as there are backups beyond
/// `max_count`, each older (earlier by name) than every backup kept.
pub fn prune_backups(names: &[String], max_count: usize) -> (r: Vec<String>)
    requires
        string_views(names@).no_duplicates(),
    ensures
        string_views(r@) == backups_to_remove(string_views(names@), max_count as int),
        r@.len() == (if names@.len() > max_count {
            names@.len() - max_count
        } else {
            0
        }),
        forall|x: Seq<char>, y: Seq<char>|
            string_views(r@).contains(x) && string_views(names@).contains(y) && !string_views(r@).contains(y)
                ==> crate::order::lex_lt(x, y),
{
    let sorted = sort_names(names);
    let ghost sv = views(sorted@);
    let mut r: Vec<String> = Vec::new();
    if names.len() > max_count {
        let n = names.len() - max_count;
        let mut i: usize = 0;
        while i < n
            invariant
                i <= n,
                n <= sorted@.len(),
                string_views(r@) == views(sorted@).take(i as int),
            decreases n - i,
        {
            let ghost before = string_views(r@);
            r.push(string_of(&sorted[i]));
            assert(string_views(r@) =~= before.push(sorted@[i as int]@));
            assert(views(sorted@).take(i + 1) =~= views(sorted@).take(i as int).push(sorted@[i as int]@));
            i = i + 1;
        }
    } else {
        assert(string_views(r@) =~= Seq::<Seq<char>>::empty());
    }
    proof {
        let k = if names@.len() > max_count { names@.len() - max_count } else { 0 };
        let removed = string_views(r@);
        assert(removed =~= sv.take(k as int));
        assert forall|x: Seq<char>, y: Seq<char>|
            removed.contains(x) && string_views(names@).contains(y) && !removed.contains(y) implies crate::order::lex_lt(x, y) by {
            let a = choose|a: int| 0 <= a < removed.len() && removed[a] == x;
            assert(sv.contains(y));
            let b = choose|b: int| 0 <= b < sv.len() && sv[b] == y;
            if b < k {
                assert(removed[b] == y);
            }
            assert(sv[a] == x);
        }
    }
    r
}

/// The backups as listed: newest first.
pub open spec fn backups_listed(names: Seq<Seq<char>>) -> Seq<Seq<char>> {
    sorted_names(names).reverse()
}

/// The names of the backups (each once) in the order they are listed.
pub fn list_backups(names: &[String]) -> (r: Vec<String>)
    requires
        string_views(names@).no_duplicates(),
    ensures
        string_views(r@) == backups_listed(string_views(names@)),
{
    let sorted = sort_names(names);
    let ghost sv = views(sorted@);
    let mut r: Vec<String> = Vec::new();
    let mut i: usize = sorted.len();
    while i > 0
        invariant
            i <= sorted@.len(),
            sv == views(sorted@),
            string_views(r@) == sv.skip(i as int).reverse(),
        decreases i,
    {
        i = i - 1;
        let ghost before = string_views(r@);
        r.push(string_of(&sorted[i]));
        assert(string_views(r@) =~= before.push(sv[i as int]));
        assert(sv.skip(i as int).reverse() =~= sv.skip(i + 1).reverse().push(sv[i as int]));
    }
    assert(sv.skip(0) =~= sv);
    r
}

// ---------------------------------------------------------------------------
// What differs from a backup
// ---------------------------------------------------------------------------

/// The line changes that `similar`'s `TextDiff::from_lines` finds from `old`
/// to `new`, each as its sign (` `, `-` or `+`) and its line.
pub uninterp spec fn line_diff(old: Seq<char>, new: Seq<char>) -> Seq<(char, Seq<char>)>;

/// `similar::TextDiff::from_lines(old, new).iter_all_changes()`, each change
/// as its tag's sign and its value. The changes are named, not stated: they
/// are the result of the crate's Myers diff (with no deadline), a function
/// of the two texts alone.
#[verifier::external_body]
fn line_changes(old: &str, new: &str) -> (r: Vec<(char, String)>)
    ensures
        r@.map_values(|c: (char, String)| (c.0, c.1@)) == line_diff(old@, new@),
{
    let diff = TextDiff::from_lines(old, new);
    let mut out = Vec::new();
    for c in diff.iter_all_changes() {
        let sign = match c.tag() {
            ChangeTag::Delete => '-',
            ChangeTag::Insert => '+',
            ChangeTag::Equal => ' ',
        };
        out.push((sign, c.value().to_string()));
    }
    out
}

/// How `{:?}` writes a path: quoted, with special characters escaped.
pub uninterp spec fn path_debug(p: Seq<char>) -> Seq<char>;

/// `format!("{:?}", Path::new(p))`; the text std's `Debug` writes is
/// named, not stated.
#[verifier::external_body]
fn debug_path(p: &str) -> (r: String)
    ensures
        r@ == path_debug(p@),
{
    format!("{:?}", std::path::Path::new(p))
}

/// How one change is shown: its sign and its line, with a line break added
/// when the line has none (no final `\n` or `\r`).
pub open spec fn change_text(c: (char, Seq<char>)) -> Seq<char> {
    seq![c.0] + c.1 + (if ends_with(c.1, seq!['\n']) || ends_with(c.1, seq!['\r']) {
        seq![]
    } else {
        seq!['\n']
    })
}

/// The changes shown one after the other.
pub open spec fn changes_text(cs: Seq<(char, Seq<char>)>) -> Seq<char>
    decreases cs.len(),
{
    if cs.len() == 0 {
        seq![]
    } else {
        changes_text(cs.drop_last()) + change_text(cs.last())
    }
}

/// The report of one file: nothing when the backup and the current text are
/// equal, else `---` and `+++` lines with the path, the line changes from
/// the current text to the backup, and an empty line.
pub open spec fn file_diff_text(rel: Seq<char>, current: Seq<char>, backup: Seq<char>) -> Seq<char> {
    if backup == current {
        seq![]
    } else {
        "--- "@ + path_debug(rel) + seq!['\n'] + "+++ "@ + path_debug(rel) + seq!['\n'] + changes_text(
            line_diff(current, backup),
        ) + seq!['\n']
    }
}

/// The report of how the file at `rel` differs between its current text
/// and its text in a backup.
pub fn file_diff(rel: &str, current: &str, backup: &str) -> (r: String)
    ensures
        r@ == file_diff_text(rel@, current@, backup@),
{
    if eq_chars(&chars_of(backup), &chars_of(current)) {
        return String::new();
    }
    let dbg = chars_of(debug_path(rel).as_str());
    let mut out = chars_of("--- ");
    append(&mut out, &dbg);
    out.push('\n');
    append(&mut out, &chars_of("+++ "));
    append(&mut out, &dbg);
    out.push('\n');
    let changes = line_changes(current, backup);
    let ghost cs = changes@.map_values(|c: (char, String)| (c.0, c.1@));
    let ghost head = out@;
    let mut i: usize = 0;
    while i < changes.len()
        invariant
            i <= changes@.len(),
            cs == changes@.map_values(|c: (char, String)| (c.0, c.1@)),
            out@ == head + changes_text(cs.take(i as int)),
        decreases changes@.len() - i,
    {
        let (sign, value) = &changes[i];
        assert(cs.take(i + 1).drop_last() =~= cs.take(i as int));
        assert(cs.take(i + 1).last() == (*sign, value@));
        let v = chars_of(value.as_str());
        let ghost before = out@;
        out.push(*sign);
        append(&mut out, &v);
        let nl = vec!['\n'];
        let cr = vec!['\r'];
        assert(nl@ == seq!['\n'] && cr@ == seq!['\r']);
        if !(crate::text::ends_with_exec(&v, &nl) || crate::text::ends_with_exec(&v, &cr)) {
            out.push('\n');
        }
        assert(out@ =~= before + change_text((*sign, value@)));
        i = i + 1;
    }
    assert(cs.take(i as int) =~= cs);
    out.push('\n');
    string_of(&out)
}

/// The whole report: the files' reports one after the other, or a note that
/// nothing differs.
pub open spec fn diff_report_text(sections: Seq<Seq<char>>) -> Seq<char> {
    let all = crate::text::join(sections, seq![]);
    if all.len() == 0 {
        "No differences found."@
    } else {
        all
    }
}

/// The report of a backup from the reports of its files.
pub fn diff_report(sections: &[String]) -> (r: String)
    ensures
        r@ == diff_report_text(string_views(sections@)),
{
    let mut parts: Vec<Vec<char>> = Vec::new();
    let mut i: usize = 0;
    while i < sections.len()
        invariant
            i <= sections@.len(),
            views(parts@) == string_views(sections@).take(i as int),
        decreases sections@.len() - i,
    {
        let ghost before = views(parts@);
        parts.push(chars_of(sections[i].as_str()));
        assert(views(parts@) =~= before.push(sections@[i as int]@));
        assert(string_views(sections@).take(i + 1) =~= string_views(sections@).take(i as int).push(
            sections@[i as int]@,
        ));
        i = i + 1;
    }
    assert(string_views(sections@).take(i as int) =~= string_views(sections@));
    let e: Vec<char> = Vec::new();
    assert(e@ =~= Seq::<char>::empty());
    let all = crate::text::join_exec(&parts, &e);
    if all.len() == 0 {
        string_of(&chars_of("No differences found."))
    } else {
        string_of(&all)
    }
}

} // verus!
