//! The command line: its options, the filter of `--search`, and the column
//! widths of the printed table.

use crate::parser::{keybind_views, opt_view, Keybind, KeybindView};
use crate::search::{fuzzy_accepts, fuzzy_matches, SearchQuery, SearchQueryView};
use crate::text::{chars_of, contains, contains_exec, eq_chars, lower_chars, string_of, lowercase};
use vstd::prelude::*;

verus! {

broadcast use vstd::string::group_string_axioms;

/// The options of a run.
pub struct Args {
    pub config: Option<String>,
    pub print: bool,
    pub search: Option<String>,
    pub doctor: bool,
    pub hud: bool,
}

/// The options as plain values.
pub ghost struct ArgsView {
    pub config: Option<Seq<char>>,
    pub print: bool,
    pub search: Option<Seq<char>>,
    pub doctor: bool,
    pub hud: bool,
}

impl View for Args {
    type V = ArgsView;

    open spec fn view(&self) -> ArgsView {
        ArgsView {
            config: opt_view(self.config),
            print: self.print,
            search: opt_view(self.search),
            doctor: self.doctor,
            hud: self.hud,
        }
    }
}

/// What the command line asks for: a run with options, the help text, or
/// the version.
pub enum CliRequest {
    Run(Args),
    Help,
    Version,
}

/// What the command line asks for, as plain values.
pub ghost enum CliRequestView {
    Run(ArgsView),
    Help,
    Version,
}

impl View for CliRequest {
    type V = CliRequestView;

    open spec fn view(&self) -> CliRequestView {
        match self {
            CliRequest::Run(a) => CliRequestView::Run(a@),
            CliRequest::Help => CliRequestView::Help,
            CliRequest::Version => CliRequestView::Version,
        }
    }
}

/// The options read from the arguments `rest`, those read before being
/// `acc`: `-c`/`--config` and `-s`/`--search` take the next argument (a
/// later one wins), `-p`/`--print`, `--doctor` and `--hud` switch on, help
/// and version stop the reading, anything else is passed over.
pub open spec fn read_args(rest: Seq<Seq<char>>, acc: ArgsView) -> CliRequestView
    decreases rest.len(),
{
    if rest.len() == 0 {
        CliRequestView::Run(acc)
    } else {
        let a = rest[0];
        if a == "-c"@ || a == "--config"@ {
            if rest.len() > 1 {
                read_args(rest.skip(2), ArgsView { config: Some(rest[1]), ..acc })
            } else {
                CliRequestView::Run(acc)
            }
        } else if a == "-p"@ || a == "--print"@ {
            read_args(rest.drop_first(), ArgsView { print: true, ..acc })
        } else if a == "-s"@ || a == "--search"@ {
            if rest.len() > 1 {
                read_args(rest.skip(2), ArgsView { search: Some(rest[1]), ..acc })
            } else {
                CliRequestView::Run(acc)
            }
        } else if a == "--doctor"@ {
            read_args(rest.drop_first(), ArgsView { doctor: true, ..acc })
        } else if a == "--hud"@ {
            read_args(rest.drop_first(), ArgsView { hud: true, ..acc })
        } else if a == "-h"@ || a == "--help"@ {
            CliRequestView::Help
        } else if a == "-v"@ || a == "--version"@ || a == "-V"@ {
            CliRequestView::Version
        } else {
            read_args(rest.drop_first(), acc)
        }
    }
}

/// The request of a command line whose first argument is the program.
pub open spec fn cli_request(args: Seq<Seq<char>>) -> CliRequestView {
    read_args(
        if args.len() > 0 {
            args.drop_first()
        } else {
            args
        },
        ArgsView { config: None, print: false, search: None, doctor: false, hud: false },
    )
}

/// The characters of each argument.
pub open spec fn arg_views(v: Seq<String>) -> Seq<Seq<char>> {
    v.map_values(|s: String| s@)
}

fn is_arg(a: &String, lit: &str) -> (r: bool)
    ensures
        r == (a@ == lit@),
{
    eq_chars(&chars_of(a.as_str()), &chars_of(lit))
}

impl Args {
    /// Reads the command line (program name first).
    pub fn parse_from(args: &[String]) -> (r: CliRequest)
        ensures
            r@ == cli_request(arg_views(args@)),
    {
        let ghost all = arg_views(args@);
        let mut config: Option<String> = None;
        let mut print = false;
        let mut search: Option<String> = None;
        let mut doctor = false;
        let mut hud = false;
        let mut i: usize = if args.len() > 0 {
            1
        } else {
            0
        };
        assert(all.skip(i as int) =~= (if all.len() > 0 {
            all.drop_first()
        } else {
            all
        }));
        while i < args.len()
            invariant
                i <= args@.len(),
                all == arg_views(args@),
                read_args(
                    all.skip(i as int),
                    ArgsView {
                        config: opt_view(config),
                        print: print,
                        search: opt_view(search),
                        doctor: doctor,
                        hud: hud,
                    },
                ) == cli_request(all),
            decreases args@.len() - i,
        {
            let a = &args[i];
            let ghost rest = all.skip(i as int);
            assert(rest[0] == a@);
            assert(rest.drop_first() =~= all.skip(i + 1));
            if is_arg(a, "-c") || is_arg(a, "--config") {
                if i + 1 < args.len() {
                    assert(rest[1] == args@[i + 1]@);
                    assert(rest.skip(2) =~= all.skip(i + 2));
                    config = Some(args[i + 1].clone());
                    i = i + 2;
                } else {
                    i = args.len();
                    assert(all.skip(i as int) =~= Seq::<Seq<char>>::empty());
                }
            } else if is_arg(a, "-p") || is_arg(a, "--print") {
                print = true;
                i = i + 1;
            } else if is_arg(a, "-s") || is_arg(a, "--search") {
                if i + 1 < args.len() {
                    assert(rest[1] == args@[i + 1]@);
                    assert(rest.skip(2) =~= all.skip(i + 2));
                    search = Some(args[i + 1].clone());
                    i = i + 2;
                } else {
                    i = args.len();
                    assert(all.skip(i as int) =~= Seq::<Seq<char>>::empty());
                }
            } else if is_arg(a, "--doctor") {
                doctor = true;
                i = i + 1;
            } else if is_arg(a, "--hud") {
                hud = true;
                i = i + 1;
            } else if is_arg(a, "-h") || is_arg(a, "--help") {
                return CliRequest::Help;
            } else if is_arg(a, "-v") || is_arg(a, "--version") || is_arg(a, "-V") {
                return CliRequest::Version;
            } else {
                i = i + 1;
            }
        }
        assert(all.skip(i as int) =~= Seq::<Seq<char>>::empty());
        CliRequest::Run(Args { config, print, search, doctor, hud })
    }
}

// ---------------------------------------------------------------------------
// Printing keybinds
// ---------------------------------------------------------------------------

/// Whether a keybind is printed for the search `q`: its fields, lowercased,
/// meet the field filters (a missing description counting as empty), and
/// the free text, if any, fuzzily matches its modifiers, key, dispatcher
/// or arguments.
pub open spec fn printed_for(kb: KeybindView, q: SearchQueryView) -> bool {
    let mods = lowercase(kb.mods);
    let key = lowercase(kb.key);
    let disp = lowercase(kb.dispatcher);
    let args = lowercase(kb.args);
    let desc = match kb.description {
        Some(d) => lowercase(d),
        None => seq![],
    };
    &&& (q.mods matches Some(m) ==> contains(mods, m))
    &&& (q.key matches Some(k) ==> contains(key, k))
    &&& (q.action matches Some(a) ==> contains(disp, a))
    &&& (q.args matches Some(a) ==> contains(args, a))
    &&& (q.description matches Some(s) ==> contains(desc, s))
    &&& (q.general_query.len() == 0 || fuzzy_accepts(mods, q.general_query) || fuzzy_accepts(
        key,
        q.general_query,
    ) || fuzzy_accepts(disp, q.general_query) || fuzzy_accepts(args, q.general_query))
}

fn lower_string(s: &str) -> (r: String)
    ensures
        r@ == lowercase(s@),
{
    string_of(&lower_chars(&chars_of(s)))
}

fn contains_str(s: &String, p: &String) -> (r: bool)
    ensures
        r == contains(s@, p@),
{
    contains_exec(&chars_of(s.as_str()), &chars_of(p.as_str()))
}

/// Whether the command line's search prints the keybind `kb`.
pub fn search_matches(kb: &Keybind, query: &SearchQuery) -> (r: bool)
    ensures
        r == printed_for(kb@, query@),
{
    let mods = lower_string(kb.mods.as_str());
    let key = lower_string(kb.key.as_str());
    let disp = lower_string(kb.dispatcher.as_str());
    let args = lower_string(kb.args.as_str());
    let desc = match &kb.description {
        Some(d) => lower_string(d.as_str()),
        None => String::new(),
    };
    if let Some(m) = &query.mods {
        if !contains_str(&mods, m) {
            return false;
        }
    }
    if let Some(k) = &query.key {
        if !contains_str(&key, k) {
            return false;
        }
    }
    if let Some(a) = &query.action {
        if !contains_str(&disp, a) {
            return false;
        }
    }
    if let Some(a) = &query.args {
        if !contains_str(&args, a) {
            return false;
        }
    }
    if let Some(s) = &query.description {
        if !contains_str(&desc, s) {
            return false;
        }
    }
    let t = query.general_query.as_str();
    if chars_of(t).len() == 0 {
        return true;
    }
    fuzzy_matches(mods.as_str(), t) || fuzzy_matches(key.as_str(), t) || fuzzy_matches(
        disp.as_str(),
        t,
    ) || fuzzy_matches(args.as_str(), t)
}

/// The length in bytes of a text.
pub open spec fn byte_len(s: Seq<char>) -> int {
    vstd::utf8::encode_utf8(s).len() as int
}

/// The largest of `init` and the byte lengths of the field `f` of the
/// keybinds.
pub open spec fn widest(ks: Seq<KeybindView>, f: spec_fn(KeybindView) -> Seq<char>, init: int) -> int
    decreases ks.len(),
{
    if ks.len() == 0 {
        init
    } else {
        let w = widest(ks.drop_last(), f, init);
        let l = byte_len(f(ks.last()));
        if l > w {
            l
        } else {
            w
        }
    }
}

/// The widths of the printed table's columns (modifiers, key, action): the
/// widest entry or heading in bytes, plus two.
pub open spec fn table_widths(ks: Seq<KeybindView>) -> (int, int, int) {
    (
        widest(ks, |k: KeybindView| k.mods, 9) + 2,
        widest(ks, |k: KeybindView| k.key, 3) + 2,
        widest(ks, |k: KeybindView| k.dispatcher, 6) + 2,
    )
}

/// The column widths of the printed table of `binds`.
pub fn column_widths(binds: &[Keybind]) -> (r: (usize, usize, usize))
    requires
        binds@.len() < usize::MAX,
        forall|i: int|
            0 <= i < binds@.len() ==> byte_len(#[trigger] binds@[i].mods@) < usize::MAX - 2
                && byte_len(binds@[i].key@) < usize::MAX - 2 && byte_len(binds@[i].dispatcher@)
                < usize::MAX - 2,
    ensures
        (r.0 as int, r.1 as int, r.2 as int) == table_widths(keybind_views(binds@)),
{
    let ghost ks = keybind_views(binds@);
    let mut wm: usize = 9;
    let mut wk: usize = 3;
    let mut wd: usize = 6;
    let mut i: usize = 0;
    while i < binds.len()
        invariant
            i <= binds@.len(),
            ks == keybind_views(binds@),
            forall|j: int|
                0 <= j < binds@.len() ==> byte_len(#[trigger] binds@[j].mods@) < usize::MAX - 2
                    && byte_len(binds@[j].key@) < usize::MAX - 2 && byte_len(binds@[j].dispatcher@)
                    < usize::MAX - 2,
            wm as int == widest(ks.take(i as int), |k: KeybindView| k.mods, 9),
            wk as int == widest(ks.take(i as int), |k: KeybindView| k.key, 3),
            wd as int == widest(ks.take(i as int), |k: KeybindView| k.dispatcher, 6),
            wm < usize::MAX - 2 && wk < usize::MAX - 2 && wd < usize::MAX - 2,
        decreases binds@.len() - i,
    {
        let b = &binds[i];
        assert(ks.take(i + 1).drop_last() =~= ks.take(i as int));
        assert(ks.take(i + 1).last() == b@);
        let lm = b.mods.as_str().len();
        let lk = b.key.as_str().len();
        let ld = b.dispatcher.as_str().len();
        assert(lm as int == byte_len(b.mods@));
        if lm > wm {
            wm = lm;
        }
        if lk > wk {
            wk = lk;
        }
        if ld > wd {
            wd = ld;
        }
        i = i + 1;
    }
    assert(ks.take(i as int) =~= ks);
    (wm + 2, wk + 2, wd + 2)
}

// ---------------------------------------------------------------------------
// What the switches do
// ---------------------------------------------------------------------------

/// An option that takes the next argument as its value.
pub open spec fn takes_value(a: Seq<char>) -> bool {
    a == "-c"@ || a == "--config"@ || a == "-s"@ || a == "--search"@
}

/// An option that asks for the help text or the version.
pub open spec fn stops_reading(a: Seq<char>) -> bool {
    a == "-h"@ || a == "--help"@ || a == "-v"@ || a == "--version"@ || a == "-V"@
}

/// A switch that is on stays on: whatever is read after it, a run request
/// has it on.
pub proof fn lemma_switches_stay_on(rest: Seq<Seq<char>>, acc: ArgsView)
    ensures
        read_args(rest, acc) matches CliRequestView::Run(r) ==> (acc.doctor ==> r.doctor) && (acc.print
            ==> r.print) && (acc.hud ==> r.hud),
    decreases rest.len(),
{
    if rest.len() > 0 {
        let a = rest[0];
        if a == "-c"@ || a == "--config"@ {
            if rest.len() > 1 {
                lemma_switches_stay_on(rest.skip(2), ArgsView { config: Some(rest[1]), ..acc });
            }
        } else if a == "-p"@ || a == "--print"@ {
            lemma_switches_stay_on(rest.drop_first(), ArgsView { print: true, ..acc });
        } else if a == "-s"@ || a == "--search"@ {
            if rest.len() > 1 {
                lemma_switches_stay_on(rest.skip(2), ArgsView { search: Some(rest[1]), ..acc });
            }
        } else if a == "--doctor"@ {
            lemma_switches_stay_on(rest.drop_first(), ArgsView { doctor: true, ..acc });
        } else if a == "--hud"@ {
            lemma_switches_stay_on(rest.drop_first(), ArgsView { hud: true, ..acc });
        } else if a == "-h"@ || a == "--help"@ {
        } else if a == "-v"@ || a == "--version"@ || a == "-V"@ {
        } else {
            lemma_switches_stay_on(rest.drop_first(), acc);
        }
    }
}

/// Without a help or version option, the command line asks for a run.
pub proof fn lemma_runs_without_stop(rest: Seq<Seq<char>>, acc: ArgsView)
    requires
        forall|i: int| 0 <= i < rest.len() ==> !stops_reading(#[trigger] rest[i]),
    ensures
        read_args(rest, acc) is Run,
    decreases rest.len(),
{
    if rest.len() > 0 {
        let a = rest[0];
        assert(!stops_reading(rest[0]));
        let r2 = rest.skip(2);
        let r1 = rest.drop_first();
        assert forall|i: int| 0 <= i < r1.len() implies !stops_reading(#[trigger] r1[i]) by {
            assert(r1[i] == rest[i + 1]);
        }
        if rest.len() > 1 {
            assert forall|i: int| 0 <= i < r2.len() implies !stops_reading(#[trigger] r2[i]) by {
                assert(r2[i] == rest[i + 2]);
            }
        }
        if a == "-c"@ || a == "--config"@ {
            if rest.len() > 1 {
                lemma_runs_without_stop(r2, ArgsView { config: Some(rest[1]), ..acc });
            }
        } else if a == "-p"@ || a == "--print"@ {
            lemma_runs_without_stop(r1, ArgsView { print: true, ..acc });
        } else if a == "-s"@ || a == "--search"@ {
            if rest.len() > 1 {
                lemma_runs_without_stop(r2, ArgsView { search: Some(rest[1]), ..acc });
            }
        } else if a == "--doctor"@ {
            lemma_runs_without_stop(r1, ArgsView { doctor: true, ..acc });
        } else if a == "--hud"@ {
            lemma_runs_without_stop(r1, ArgsView { hud: true, ..acc });
        } else {
            lemma_runs_without_stop(r1, acc);
        }
    }
}

/// Reading arguments none of which takes a value or stops the reading
/// only switches options on: it reads on from what follows them.
proof fn lemma_read_past(pre: Seq<Seq<char>>, rest: Seq<Seq<char>>, acc: ArgsView) -> (acc2: ArgsView)
    requires
        forall|i: int| 0 <= i < pre.len() ==> !takes_value(#[trigger] pre[i]) && !stops_reading(pre[i]),
    ensures
        read_args(pre + rest, acc) == read_args(rest, acc2),
    decreases pre.len(),
{
    if pre.len() == 0 {
        assert(pre + rest =~= rest);
        acc
    } else {
        let a = pre[0];
        assert(!takes_value(pre[0]) && !stops_reading(pre[0]));
        let all = pre + rest;
        assert(all[0] == a);
        assert(all.drop_first() =~= pre.drop_first() + rest);
        let p2 = pre.drop_first();
        assert forall|i: int| 0 <= i < p2.len() implies !takes_value(#[trigger] p2[i]) && !stops_reading(p2[i]) by {
            assert(p2[i] == pre[i + 1]);
        }
        let next = if a == "-p"@ || a == "--print"@ {
            ArgsView { print: true, ..acc }
        } else if a == "--doctor"@ {
            ArgsView { doctor: true, ..acc }
        } else if a == "--hud"@ {
            ArgsView { hud: true, ..acc }
        } else {
            acc
        };
        assert(read_args(all, acc) == read_args(all.drop_first(), next));
        lemma_read_past(p2, rest, next)
    }
}

/// `--doctor` asks for the report: a command line whose arguments after
/// the program hold `--doctor` where an option is read (no option before it
/// takes a value or stops the reading) asks, if for a run, for a run with
/// the report; it asks for a run when no help or version option follows.
pub proof fn lemma_doctor_switch(prog: Seq<char>, pre: Seq<Seq<char>>, post: Seq<Seq<char>>)
    requires
        forall|i: int| 0 <= i < pre.len() ==> !takes_value(#[trigger] pre[i]) && !stops_reading(pre[i]),
    ensures
        cli_request(seq![prog] + pre + seq!["--doctor"@] + post) matches CliRequestView::Run(r) ==> r.doctor,
        (forall|i: int| 0 <= i < post.len() ==> !stops_reading(#[trigger] post[i])) ==> cli_request(
            seq![prog] + pre + seq!["--doctor"@] + post,
        ) is Run,
{
    reveal_strlit("--doctor");
    reveal_strlit("-c");
    reveal_strlit("--config");
    reveal_strlit("-p");
    reveal_strlit("--print");
    reveal_strlit("-s");
    reveal_strlit("--search");
    reveal_strlit("--hud");
    reveal_strlit("-h");
    reveal_strlit("--help");
    reveal_strlit("-v");
    reveal_strlit("--version");
    reveal_strlit("-V");
    let all = seq![prog] + pre + seq!["--doctor"@] + post;
    let rest = seq!["--doctor"@] + post;
    assert(all.drop_first() =~= pre + rest);
    let acc0 = ArgsView { config: None, print: false, search: None, doctor: false, hud: false };
    let acc2 = lemma_read_past(pre, rest, acc0);
    assert(rest[0] == "--doctor"@);
    assert(rest.drop_first() =~= post);
    assert("--doctor"@.len() == 8);
    assert("--doctor"@ != "-c"@ && "--doctor"@ != "-p"@ && "--doctor"@ != "-s"@ && "--doctor"@ != "--config"@
        && "--doctor"@ != "--print"@ && "--doctor"@ != "--search"@) by {
        assert("-c"@.len() == 2 && "-p"@.len() == 2 && "-s"@.len() == 2);
        assert("--config"@.len() == 8 && "--config"@[2] != "--doctor"@[2]);
        assert("--print"@.len() == 7 && "--search"@.len() == 8 && "--search"@[2] != "--doctor"@[2]);
    }
    assert(read_args(rest, acc2) == read_args(post, ArgsView { doctor: true, ..acc2 }));
    lemma_switches_stay_on(post, ArgsView { doctor: true, ..acc2 });
    if forall|i: int| 0 <= i < post.len() ==> !stops_reading(#[trigger] post[i]) {
        lemma_runs_without_stop(post, ArgsView { doctor: true, ..acc2 });
    }
}

/// Arguments none of which takes a value leave the values read before.
proof fn lemma_values_kept(rest: Seq<Seq<char>>, acc: ArgsView)
    requires
        forall|i: int| 0 <= i < rest.len() ==> !takes_value(#[trigger] rest[i]),
    ensures
        read_args(rest, acc) matches CliRequestView::Run(r) ==> r.config == acc.config && r.search == acc.search,
    decreases rest.len(),
{
    if rest.len() > 0 {
        let a = rest[0];
        assert(!takes_value(rest[0]));
        let r1 = rest.drop_first();
        assert forall|i: int| 0 <= i < r1.len() implies !takes_value(#[trigger] r1[i]) by {
            assert(r1[i] == rest[i + 1]);
        }
        if a == "-p"@ || a == "--print"@ {
            lemma_values_kept(r1, ArgsView { print: true, ..acc });
        } else if a == "--doctor"@ {
            lemma_values_kept(r1, ArgsView { doctor: true, ..acc });
        } else if a == "--hud"@ {
            lemma_values_kept(r1, ArgsView { hud: true, ..acc });
        } else if a == "-h"@ || a == "--help"@ {
        } else if a == "-v"@ || a == "--version"@ || a == "-V"@ {
        } else {
            lemma_values_kept(r1, acc);
        }
    }
}

/// The literals of the options, told apart.
proof fn lemma_option_names()
    ensures
        "-c"@.len() == 2,
        "-p"@.len() == 2,
        "-s"@.len() == 2,
        "-h"@.len() == 2,
        "-v"@.len() == 2,
        "-V"@.len() == 2,
        "--config"@.len() == 8,
        "--print"@.len() == 7,
        "--search"@.len() == 8,
        "--doctor"@.len() == 8,
        "--hud"@.len() == 5,
        "--help"@.len() == 6,
        "--version"@.len() == 9,
        "-c"@[1] == 'c' && "-p"@[1] == 'p' && "-s"@[1] == 's' && "-h"@[1] == 'h' && "-v"@[1] == 'v' && "-V"@[1]
            == 'V',
        "--config"@[2] == 'c' && "--search"@[2] == 's' && "--doctor"@[2] == 'd',
{
    reveal_strlit("--doctor");
    reveal_strlit("-c");
    reveal_strlit("--config");
    reveal_strlit("-p");
    reveal_strlit("--print");
    reveal_strlit("-s");
    reveal_strlit("--search");
    reveal_strlit("--hud");
    reveal_strlit("-h");
    reveal_strlit("--help");
    reveal_strlit("-v");
    reveal_strlit("--version");
    reveal_strlit("-V");
}

/// `-p`/`--print` and `--hud` switch on as `--doctor` does: where an
/// option is read (no option before it takes a value or stops the reading),
/// a run request then has the switch on.
pub proof fn lemma_print_and_hud_switches(prog: Seq<char>, pre: Seq<Seq<char>>, sw: Seq<char>, post: Seq<Seq<char>>)
    requires
        forall|i: int| 0 <= i < pre.len() ==> !takes_value(#[trigger] pre[i]) && !stops_reading(pre[i]),
        sw == "-p"@ || sw == "--print"@ || sw == "--hud"@,
    ensures
        cli_request(seq![prog] + pre + seq![sw] + post) matches CliRequestView::Run(r) ==> (if sw == "--hud"@ {
            r.hud
        } else {
            r.print
        }),
{
    lemma_option_names();
    let rest = seq![sw] + post;
    assert((seq![prog] + pre + seq![sw] + post).drop_first() =~= pre + rest);
    let acc0 = ArgsView { config: None, print: false, search: None, doctor: false, hud: false };
    let acc2 = lemma_read_past(pre, rest, acc0);
    assert(rest[0] == sw);
    assert(rest.drop_first() =~= post);
    if sw == "--hud"@ {
        assert(read_args(rest, acc2) == read_args(post, ArgsView { hud: true, ..acc2 }));
        lemma_switches_stay_on(post, ArgsView { hud: true, ..acc2 });
    } else {
        assert(read_args(rest, acc2) == read_args(post, ArgsView { print: true, ..acc2 }));
        lemma_switches_stay_on(post, ArgsView { print: true, ..acc2 });
    }
}

/// `-c`/`--config` and `-s`/`--search` take the next argument: where an
/// option is read, followed by a value and then by no option that takes a
/// value, a run request has that value as the configuration file or the
/// search.
pub proof fn lemma_value_options(
    prog: Seq<char>,
    pre: Seq<Seq<char>>,
    opt: Seq<char>,
    x: Seq<char>,
    post: Seq<Seq<char>>,
)
    requires
        forall|i: int| 0 <= i < pre.len() ==> !takes_value(#[trigger] pre[i]) && !stops_reading(pre[i]),
        takes_value(opt),
        forall|i: int| 0 <= i < post.len() ==> !takes_value(#[trigger] post[i]),
    ensures
        cli_request(seq![prog] + pre + seq![opt, x] + post) matches CliRequestView::Run(r) ==> (if opt == "-c"@
            || opt == "--config"@ {
            r.config == Some(x)
        } else {
            r.search == Some(x)
        }),
{
    lemma_option_names();
    let rest = seq![opt, x] + post;
    assert((seq![prog] + pre + seq![opt, x] + post).drop_first() =~= pre + rest);
    let acc0 = ArgsView { config: None, print: false, search: None, doctor: false, hud: false };
    let acc2 = lemma_read_past(pre, rest, acc0);
    assert(rest[0] == opt && rest[1] == x);
    assert(rest.skip(2) =~= post);
    if opt == "-c"@ || opt == "--config"@ {
        lemma_values_kept(post, ArgsView { config: Some(x), ..acc2 });
    } else {
        lemma_values_kept(post, ArgsView { search: Some(x), ..acc2 });
    }
}

} // verus!
