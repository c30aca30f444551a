//! Installed applications, read from freedesktop `.desktop` entries, for
//! completing `exec` commands.
use crate::order::lex_lt;
use crate::parser::opt_view;
use crate::text::{
    chars_of, eq_chars, join, join_exec, lines, lines_exec, lower_chars, slice, starts_with,
    starts_with_exec, string_of, trim, trim_chars, lowercase, views, words, words_exec,
};
use vstd::prelude::*;

verus! {

broadcast use vstd::string::group_string_axioms;

/// An application that can be launched.
#[derive(Clone, Debug)]
pub struct AppInfo {
    pub name: String,
    pub command: String,
    pub icon: Option<String>,
}

/// An application as plain values.
pub ghost struct AppInfoView {
    pub name: Seq<char>,
    pub command: Seq<char>,
    pub icon: Option<Seq<char>>,
}

impl View for AppInfo {
    type V = AppInfoView;

    open spec fn view(&self) -> AppInfoView {
        AppInfoView { name: self.name@, command: self.command@, icon: opt_view(self.icon) }
    }
}

// ---------------------------------------------------------------------------
// Launch commands
// ---------------------------------------------------------------------------

/// A field code of a desktop entry's command: `%` and one more byte, that
/// is one ASCII character.
pub open spec fn is_field_code(w: Seq<char>) -> bool {
    w.len() == 2 && w[0] == '%' && w[1] < '\u{80}'
}

/// The words of a command that are not field codes, in order.
pub open spec fn kept_words(ws: Seq<Seq<char>>) -> Seq<Seq<char>>
    decreases ws.len(),
{
    if ws.len() == 0 {
        seq![]
    } else {
        kept_words(ws.drop_last()) + (if is_field_code(ws.last()) {
            seq![]
        } else {
            seq![ws.last()]
        })
    }
}

/// A desktop entry's command without its field codes (`%u`, `%F`, …): its
/// other words joined by single spaces.
pub open spec fn clean_exec(cmd: Seq<char>) -> Seq<char> {
    join(kept_words(words(cmd)), seq![' '])
}

/// The command of a desktop entry without its field codes.
pub fn clean_exec_cmd(cmd: &str) -> (r: String)
    ensures
        r@ == clean_exec(cmd@),
{
    let ws = words_exec(&chars_of(cmd));
    let ghost wv = views(ws@);
    let mut kept: Vec<Vec<char>> = Vec::new();
    let mut i: usize = 0;
    while i < ws.len()
        invariant
            i <= ws@.len(),
            wv == views(ws@),
            views(kept@) == kept_words(wv.take(i as int)),
        decreases ws@.len() - i,
    {
        let w = &ws[i];
        assert(wv.take(i + 1).drop_last() =~= wv.take(i as int));
        assert(wv.take(i + 1).last() == w@);
        let code = w.len() == 2 && w[0] == '%' && w[1] < '\u{80}';
        if !code {
            let ghost old_k = views(kept@);
            kept.push(crate::text::copy_chars(w));
            assert(views(kept@) =~= old_k + seq![w@]);
        } else {
            assert(views(kept@) =~= views(kept@) + Seq::<Seq<char>>::empty());
        }
        i = i + 1;
    }
    assert(wv.take(i as int) =~= wv);
    let sp = vec![' '];
    assert(sp@ == seq![' ']);
    string_of(&join_exec(&kept, &sp))
}

// ---------------------------------------------------------------------------
// Desktop entries
// ---------------------------------------------------------------------------

/// What has been read of a desktop file.
pub ghost struct DesktopState {
    pub in_entry: bool,
    pub stopped: bool,
    pub name: Option<Seq<char>>,
    pub command: Option<Seq<char>>,
    pub icon: Option<Seq<char>>,
    pub no_display: bool,
    pub is_application: bool,
}

/// `s` with every leading copy of `p` removed (`str::trim_start_matches`).
pub open spec fn strip_prefixes(s: Seq<char>, p: Seq<char>) -> Seq<char>
    decreases s.len(),
{
    if p.len() > 0 && starts_with(s, p) {
        strip_prefixes(s.skip(p.len() as int), p)
    } else {
        s
    }
}

/// Reading one line of a desktop file: lines count only inside the
/// `[Desktop Entry]` group, which ends at the next group header; the first
/// `Name=`, `Exec=` and `Icon=` are kept, a `Type=` other than
/// `Application` and `NoDisplay=true` are noted.
pub open spec fn desktop_step(st: DesktopState, raw: Seq<char>) -> DesktopState {
    let l = trim(raw);
    if st.stopped {
        st
    } else if l == "[Desktop Entry]"@ {
        DesktopState { in_entry: true, ..st }
    } else if !st.in_entry {
        st
    } else if starts_with(l, seq!['[']) {
        DesktopState { stopped: true, ..st }
    } else {
        let st1 = if starts_with(l, "Type="@) && strip_prefixes(l, "Type="@) != "Application"@ {
            DesktopState { is_application: false, ..st }
        } else {
            st
        };
        if starts_with(l, "Name="@) && st1.name is None {
            DesktopState { name: Some(strip_prefixes(l, "Name="@)), ..st1 }
        } else if starts_with(l, "Exec="@) && st1.command is None {
            DesktopState { command: Some(strip_prefixes(l, "Exec="@)), ..st1 }
        } else if starts_with(l, "Icon="@) && st1.icon is None {
            DesktopState { icon: Some(strip_prefixes(l, "Icon="@)), ..st1 }
        } else if l == "NoDisplay=true"@ {
            DesktopState { no_display: true, ..st1 }
        } else {
            st1
        }
    }
}

/// The state after reading the lines `ls` in order.
pub open spec fn desktop_scan(ls: Seq<Seq<char>>, st: DesktopState) -> DesktopState
    decreases ls.len(),
{
    if ls.len() == 0 {
        st
    } else {
        desktop_scan(ls.drop_first(), desktop_step(st, ls[0]))
    }
}

/// The application a desktop file describes: one with a name and a
/// command, that is shown and of type `Application` (or of no type).
pub open spec fn desktop_app(content: Seq<char>) -> Option<AppInfoView> {
    let st = desktop_scan(
        lines(content),
        DesktopState {
            in_entry: false,
            stopped: false,
            name: None,
            command: None,
            icon: None,
            no_display: false,
            is_application: true,
        },
    );
    if st.no_display || !st.is_application {
        None
    } else {
        match (st.name, st.command) {
            (Some(n), Some(e)) => Some(AppInfoView { name: n, command: clean_exec(e), icon: st.icon }),
            _ => None,
        }
    }
}

fn strip_prefixes_exec(s: &[char], p: &str) -> (r: Vec<char>)
    ensures
        r@ == strip_prefixes(s@, p@),
{
    let pc = chars_of(p);
    let mut cur = crate::text::copy_chars(s);
    if pc.len() == 0 {
        return cur;
    }
    while starts_with_exec(&cur, &pc)
        invariant
            pc@ == p@,
            pc@.len() > 0,
            strip_prefixes(cur@, p@) == strip_prefixes(s@, p@),
        decreases cur@.len(),
    {
        let next = slice(&cur, pc.len(), cur.len());
        assert(next@ =~= cur@.skip(pc@.len() as int));
        cur = next;
    }
    cur
}

fn opt_string(o: &Option<Vec<char>>) -> (r: Option<String>)
    ensures
        opt_view(r) == match o {
            Some(v) => Some(v@),
            None => None::<Seq<char>>,
        },
{
    match o {
        Some(v) => Some(string_of(v)),
        None => None,
    }
}

/// The application described by the text of a desktop file.
pub fn parse_desktop_file(content: &str) -> (r: Option<AppInfo>)
    ensures
        match r {
            Some(a) => desktop_app(content@) == Some(a@),
            None => desktop_app(content@) is None,
        },
{
    let ls = lines_exec(&chars_of(content));
    let ghost lv = views(ls@);
    let mut in_entry = false;
    let mut stopped = false;
    let mut name: Option<Vec<char>> = None;
    let mut command: Option<Vec<char>> = None;
    let mut icon: Option<Vec<char>> = None;
    let mut no_display = false;
    let mut is_application = true;
    let ghost init = DesktopState {
        in_entry: false,
        stopped: false,
        name: None,
        command: None,
        icon: None,
        no_display: false,
        is_application: true,
    };
    let mut i: usize = 0;
    assert(lv.skip(0) =~= lv);
    while i < ls.len()
        invariant
            i <= ls@.len(),
            lv == views(ls@),
            lv == lines(content@),
            desktop_scan(
                lv.skip(i as int),
                DesktopState {
                    in_entry,
                    stopped,
                    name: match name {
                        Some(v) => Some(v@),
                        None => None,
                    },
                    command: match command {
                        Some(v) => Some(v@),
                        None => None,
                    },
                    icon: match icon {
                        Some(v) => Some(v@),
                        None => None,
                    },
                    no_display,
                    is_application,
                },
            ) == desktop_scan(lv, init),
        decreases ls@.len() - i,
    {
        assert(lv.skip(i as int)[0] == ls@[i as int]@);
        assert(lv.skip(i as int).drop_first() =~= lv.skip(i + 1));
        let l = trim_chars(&ls[i]);
        if !stopped {
            if eq_chars(&l, &chars_of("[Desktop Entry]")) {
                in_entry = true;
            } else if in_entry {
                let br = vec!['['];
                assert(br@ == seq!['[']);
                if starts_with_exec(&l, &br) {
                    stopped = true;
                } else {
                    if starts_with_exec(&l, &chars_of("Type=")) && !eq_chars(
                        &strip_prefixes_exec(&l, "Type="),
                        &chars_of("Application"),
                    ) {
                        is_application = false;
                    }
                    if starts_with_exec(&l, &chars_of("Name=")) && name.is_none() {
                        name = Some(strip_prefixes_exec(&l, "Name="));
                    } else if starts_with_exec(&l, &chars_of("Exec=")) && command.is_none() {
                        command = Some(strip_prefixes_exec(&l, "Exec="));
                    } else if starts_with_exec(&l, &chars_of("Icon=")) && icon.is_none() {
                        icon = Some(strip_prefixes_exec(&l, "Icon="));
                    } else if eq_chars(&l, &chars_of("NoDisplay=true")) {
                        no_display = true;
                    }
                }
            }
        }
        i = i + 1;
    }
    assert(lv.skip(i as int) =~= Seq::<Seq<char>>::empty());
    if no_display || !is_application {
        return None;
    }
    match (&name, &command) {
        (Some(n), Some(e)) => Some(
            AppInfo {
                name: string_of(n),
                command: clean_exec_cmd(string_of(e).as_str()),
                icon: opt_string(&icon),
            },
        ),
        _ => None,
    }
}

// ---------------------------------------------------------------------------
// The list of applications
// ---------------------------------------------------------------------------

/// The applications found, each with the name of its desktop file (without
/// extension), as plain values.
pub open spec fn found_views(v: Seq<(String, AppInfo)>) -> Seq<(Seq<char>, AppInfoView)> {
    v.map_values(|p: (String, AppInfo)| (p.0@, p.1@))
}

/// Some of the applications found has the file name `stem`.
pub open spec fn has_stem(found: Seq<(Seq<char>, AppInfoView)>, stem: Seq<char>) -> bool {
    exists|i: int| 0 <= i < found.len() && (#[trigger] found[i]).0 == stem
}

proof fn lemma_has_stem(found: Seq<(Seq<char>, AppInfoView)>, j: int, stem: Seq<char>)
    requires
        0 <= j < found.len(),
        found[j].0 == stem,
    ensures
        has_stem(found, stem),
{
}

/// The applications found, the first of each file name kept.
pub open spec fn first_per_stem(found: Seq<(Seq<char>, AppInfoView)>) -> Seq<AppInfoView>
    decreases found.len(),
{
    if found.len() == 0 {
        seq![]
    } else {
        let init = found.drop_last();
        first_per_stem(init) + (if has_stem(init, found.last().0) {
            seq![]
        } else {
            seq![found.last().1]
        })
    }
}

/// Applications ordered by their names compared in lowercase.
pub open spec fn sorted_by_name(s: Seq<AppInfoView>) -> bool {
    forall|i: int, j: int|
        0 <= i < j < s.len() ==> !lex_lt(lowercase(#[trigger] s[j].name), lowercase(#[trigger] s[i].name))
}

/// `s` with `a` put before the first application whose lowercase name
/// comes after its own.
pub open spec fn insert_app_by_name(s: Seq<AppInfoView>, a: AppInfoView) -> Seq<AppInfoView>
    decreases s.len(),
{
    if s.len() == 0 {
        seq![a]
    } else if lex_lt(lowercase(a.name), lowercase(s[0].name)) {
        seq![a] + s
    } else {
        seq![s[0]] + insert_app_by_name(s.drop_first(), a)
    }
}

/// The applications ordered by lowercase name, those whose lowercase
/// names are equal in the order they came (a stable sort).
pub open spec fn sort_apps(s: Seq<AppInfoView>) -> Seq<AppInfoView>
    decreases s.len(),
{
    if s.len() == 0 {
        seq![]
    } else {
        insert_app_by_name(sort_apps(s.drop_last()), s.last())
    }
}

/// Inserting by name puts `a` at the first application whose lowercase
/// name comes after its own.
proof fn lemma_insert_app_by_name(s: Seq<AppInfoView>, a: AppInfoView, p: int)
    requires
        0 <= p <= s.len(),
        forall|j: int| 0 <= j < p ==> !lex_lt(lowercase(a.name), lowercase(#[trigger] s[j].name)),
        p < s.len() ==> lex_lt(lowercase(a.name), lowercase(s[p].name)),
    ensures
        insert_app_by_name(s, a) == s.insert(p, a),
    decreases s.len(),
{
    if s.len() == 0 {
        assert(s.insert(p, a) =~= seq![a]);
    } else if p == 0 {
        assert(s.insert(0, a) =~= seq![a] + s);
    } else {
        assert(!lex_lt(lowercase(a.name), lowercase(s[0].name)));
        let t = s.drop_first();
        assert forall|j: int| 0 <= j < p - 1 implies !lex_lt(lowercase(a.name), lowercase(#[trigger] t[j].name)) by {
            assert(t[j] == s[j + 1]);
        }
        if p < s.len() {
            assert(t[p - 1] == s[p]);
        }
        lemma_insert_app_by_name(t, a, p - 1);
        assert(seq![s[0]] + t.insert(p - 1, a) =~= s.insert(p, a));
    }
}

fn copy_app(a: &AppInfo) -> (r: AppInfo)
    ensures
        r@ == a@,
{
    AppInfo {
        name: a.name.clone(),
        command: a.command.clone(),
        icon: match &a.icon {
            Some(i) => Some(i.clone()),
            None => None,
        },
    }
}

/// The list of applications offered: those found, each file name once (the
/// first found wins, so user entries override system ones), ordered by
/// lowercase name; applications whose lowercase names are equal keep the
/// order in which they were found.
pub fn collect_apps(found: &[(String, AppInfo)]) -> (r: Vec<AppInfo>)
    ensures
        r@.map_values(|a: AppInfo| a@) == sort_apps(first_per_stem(found_views(found@))),
        sorted_by_name(r@.map_values(|a: AppInfo| a@)),
        r@.map_values(|a: AppInfo| a@).to_multiset() == first_per_stem(found_views(found@)).to_multiset(),
{
    let ghost fv = found_views(found@);
    let mut stems: Vec<Vec<char>> = Vec::new();
    let mut kept: Vec<AppInfo> = Vec::new();
    let mut i: usize = 0;
    while i < found.len()
        invariant
            fv == found_views(found@),
            i <= found@.len(),
            forall|s: Seq<char>| views(stems@).contains(s) <==> has_stem(fv.take(i as int), s),
            kept@.map_values(|a: AppInfo| a@) == first_per_stem(fv.take(i as int)),
        decreases found@.len() - i,
    {
        assert(fv.take(i + 1).drop_last() =~= fv.take(i as int));
        assert(fv.take(i + 1).last() == fv[i as int]);
        let stem = chars_of(found[i].0.as_str());
        assert(stem@ == fv[i as int].0);
        let mut seen = false;
        let mut k: usize = 0;
        while k < stems.len()
            invariant
                k <= stems@.len(),
                seen ==> views(stems@).contains(stem@),
                !seen ==> forall|t: int| 0 <= t < k ==> stems@[t]@ != stem@,
            decreases stems@.len() - k,
        {
            if eq_chars(&stems[k], &stem) {
                assert(views(stems@)[k as int] == stem@);
                seen = true;
            }
            k = k + 1;
        }
        proof {
            if !seen {
                assert(!views(stems@).contains(stem@)) by {
                    if views(stems@).contains(stem@) {
                        let t = choose|t: int| 0 <= t < views(stems@).len() && views(stems@)[t] == stem@;
                        assert(stems@[t]@ == stem@);
                    }
                }
            }
        }
        let ghost stems_before = views(stems@);
        assert(forall|s: Seq<char>| stems_before.contains(s) <==> has_stem(fv.take(i as int), s));
        let ghost kept_before = kept@.map_values(|a: AppInfo| a@);
        if !seen {
            kept.push(copy_app(&found[i].1));
            stems.push(stem);
            assert(kept@.map_values(|a: AppInfo| a@) =~= kept_before.push(fv[i as int].1));
        } else {
            assert(kept@.map_values(|a: AppInfo| a@) =~= kept_before + Seq::<AppInfoView>::empty());
        }
        assert forall|s: Seq<char>| views(stems@).contains(s) <==> has_stem(fv.take(i + 1), s) by {
            let t1 = fv.take(i + 1);
            let t0 = fv.take(i as int);
            if has_stem(t1, s) {
                let j = choose|j: int| 0 <= j < t1.len() && (#[trigger] t1[j]).0 == s;
                if j < i {
                    assert(t0.len() == i);
                    assert(t0[j] == t1[j]);
                    assert(t0[j].0 == s);
                    lemma_has_stem(t0, j, s);
                    assert(stems_before.contains(s));
                    let t = choose|t: int| 0 <= t < stems_before.len() && stems_before[t] == s;
                    assert(views(stems@)[t] == s);
                } else if !seen {
                    assert(views(stems@)[stems_before.len() as int] == stem@);
                }
            }
            if views(stems@).contains(s) {
                let t = choose|t: int| 0 <= t < views(stems@).len() && views(stems@)[t] == s;
                if t < stems_before.len() {
                    assert(stems_before[t] == s);
                    assert(stems_before.contains(s));
                    assert(has_stem(t0, s));
                    let j = choose|j: int| 0 <= j < t0.len() && (#[trigger] t0[j]).0 == s;
                    assert(t1[j] == t0[j]);
                } else {
                    assert(s == stem@);
                    assert(t1[i as int].0 == s);
                }
            }
        }
        i = i + 1;
    }
    assert(fv.take(i as int) =~= fv);
    sort_by_name(&kept)
}

fn sort_by_name(apps: &Vec<AppInfo>) -> (r: Vec<AppInfo>)
    ensures
        r@.map_values(|a: AppInfo| a@) == sort_apps(apps@.map_values(|a: AppInfo| a@)),
        sorted_by_name(r@.map_values(|a: AppInfo| a@)),
        r@.map_values(|a: AppInfo| a@).to_multiset() == apps@.map_values(|a: AppInfo| a@).to_multiset(),
{
    broadcast use vstd::seq_lib::to_multiset_insert, vstd::seq_lib::to_multiset_build;

    let ghost src = apps@.map_values(|a: AppInfo| a@);
    let mut out: Vec<AppInfo> = Vec::new();
    let mut keys: Vec<Vec<char>> = Vec::new();
    let mut i: usize = 0;
    assert(src.take(0) =~= out@.map_values(|a: AppInfo| a@));
    while i < apps.len()
        invariant
            i <= apps@.len(),
            src == apps@.map_values(|a: AppInfo| a@),
            keys@.len() == out@.len(),
            forall|j: int| 0 <= j < out@.len() ==> (#[trigger] keys@[j])@ == lowercase(out@[j].name@),
            sorted_by_name(out@.map_values(|a: AppInfo| a@)),
            out@.map_values(|a: AppInfo| a@) == sort_apps(src.take(i as int)),
            out@.map_values(|a: AppInfo| a@).to_multiset() == src.take(i as int).to_multiset(),
        decreases apps@.len() - i,
    {
        let a = copy_app(&apps[i]);
        let key = lower_chars(&chars_of(a.name.as_str()));
        let ghost ov = out@.map_values(|a: AppInfo| a@);
        let mut p: usize = 0;
        while p < out.len() && !crate::order::lex_lt_exec(&key, &keys[p])
            invariant
                p <= out@.len(),
                keys@.len() == out@.len(),
                forall|j: int| 0 <= j < p ==> !lex_lt(key@, #[trigger] keys@[j]@),
            decreases out@.len() - p,
        {
            p = p + 1;
        }
        let ghost av = a@;
        let ghost kb = keys@;
        let ghost k = key@;
        assert(k == lowercase(av.name));
        proof {
            if p < out@.len() {
                assert(lex_lt(k, keys@[p as int]@));
            }
        }
        proof {
            assert forall|j: int| 0 <= j < p implies !lex_lt(lowercase(av.name), lowercase(#[trigger] ov[j].name)) by {
                assert(kb[j]@ == lowercase(out@[j].name@));
            }
            if p < out@.len() {
                assert(kb[p as int]@ == lowercase(out@[p as int].name@));
            }
            lemma_insert_app_by_name(ov, av, p as int);
        }
        out.insert(p, a);
        keys.insert(p, key);
        proof {
            let nv = out@.map_values(|a: AppInfo| a@);
            assert(nv =~= ov.insert(p as int, av));
            assert forall|j: int| 0 <= j < out@.len() implies (#[trigger] keys@[j])@ == lowercase(
                out@[j].name@,
            ) by {
                if j > p {
                    assert(keys@[j] == kb[j - 1]);
                    assert(nv[j] == ov[j - 1]);
                } else if j < p {
                    assert(keys@[j] == kb[j]);
                    assert(nv[j] == ov[j]);
                }
            }
            assert forall|a1: int, b1: int| 0 <= a1 < b1 < nv.len() implies !lex_lt(
                lowercase(#[trigger] nv[b1].name),
                lowercase(#[trigger] nv[a1].name),
            ) by {
                if b1 < p {
                    assert(nv[a1] == ov[a1] && nv[b1] == ov[b1]);
                } else if b1 == p {
                    assert(nv[a1] == ov[a1]);
                    assert(kb[a1]@ == lowercase(ov[a1].name));
                } else if a1 < p {
                    assert(nv[a1] == ov[a1] && nv[b1] == ov[b1 - 1]);
                } else if a1 == p {
                    assert(nv[b1] == ov[b1 - 1]);
                    let kp = lowercase(ov[p as int].name);
                    assert(kb[p as int]@ == kp);
                    let kq = lowercase(ov[b1 - 1].name);
                    if lex_lt(kq, k) {
                        crate::order::lemma_lex_transitive(kq, k, kp);
                        if b1 - 1 == p {
                            crate::order::lemma_lex_irreflexive(kp);
                        } else {
                            assert(!lex_lt(lowercase(ov[b1 - 1].name), lowercase(ov[p as int].name)));
                        }
                    }
                } else {
                    assert(nv[a1] == ov[a1 - 1] && nv[b1] == ov[b1 - 1]);
                }
            }
            assert(src.take(i + 1) =~= src.take(i as int).push(src[i as int]));
            assert(src.take(i + 1).drop_last() =~= src.take(i as int));
            assert(src[i as int] == av);
            vstd::seq_lib::to_multiset_insert(ov, p as int, av);
            vstd::seq_lib::to_multiset_build(src.take(i as int), av);
        }
        i = i + 1;
    }
    assert(src.take(i as int) =~= src);
    out
}

} // verus!
