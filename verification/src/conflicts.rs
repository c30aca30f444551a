//! Whether a key combination being entered is taken already, by which
//! keybind, and which nearby combinations are still free.
use crate::edit::or_empty;
use crate::keybinds::{normalize, normalized_key, normalized_mods};
use crate::parser::{keybind_views, Keybind, KeybindView};
use crate::text::{chars_of, concat, contains, contains_char_exec, contains_exec, eq_chars, replace_all, replace_all_exec, string_of, trim, trim_chars};
use crate::vars::{keys_cover, sorted_by_len, string_views, VarMap};
use vstd::prelude::*;

verus! {

broadcast use vstd::string::group_string_axioms;

// ---------------------------------------------------------------------------
// Substituting variables by whole-text replacement
// ---------------------------------------------------------------------------

/// `s` with every occurrence of each name of `ks`, in that order, replaced
/// by the name's value in `m`.
pub open spec fn replace_keys(s: Seq<char>, ks: Seq<Seq<char>>, m: Map<Seq<char>, Seq<char>>) -> Seq<
    char,
>
    decreases ks.len(),
{
    if ks.len() == 0 {
        s
    } else {
        replace_keys(replace_all(s, ks[0], m[ks[0]]), ks.drop_first(), m)
    }
}

/// The text a key combination field stands for: unchanged without a `$`,
/// else with the variables replaced, longest names first (`ks`).
pub open spec fn resolve_text(s: Seq<char>, ks: Seq<Seq<char>>, m: Map<Seq<char>, Seq<char>>) -> Seq<
    char,
> {
    if !contains(s, seq!['$']) {
        s
    } else {
        replace_keys(s, ks, m)
    }
}

/// `ks` lists the names of `m`, each once, longest first: an order in which
/// the variables are tried. Names of equal length may come in any order.
pub open spec fn key_order(ks: Seq<Seq<char>>, m: Map<Seq<char>, Seq<char>>) -> bool {
    keys_cover(ks, m) && sorted_by_len(ks)
}

fn key_chars(keys: &Vec<String>) -> (r: Vec<Vec<char>>)
    ensures
        crate::text::views(r@) == string_views(keys@),
{
    let mut r: Vec<Vec<char>> = Vec::new();
    let mut i: usize = 0;
    while i < keys.len()
        invariant
            i <= keys@.len(),
            crate::text::views(r@) == string_views(keys@).take(i as int),
        decreases keys@.len() - i,
    {
        let ghost old_r = r@;
        r.push(chars_of(keys[i].as_str()));
        assert(crate::text::views(r@) =~= crate::text::views(old_r).push(keys@[i as int]@));
        assert(string_views(keys@).take(i + 1) =~= string_views(keys@).take(i as int).push(
            keys@[i as int]@,
        ));
        i = i + 1;
    }
    assert(string_views(keys@).take(i as int) =~= string_views(keys@));
    r
}

fn resolve_text_exec(s: &[char], vars: &VarMap, keys: &Vec<Vec<char>>) -> (r: Vec<char>)
    requires
        key_order(crate::text::views(keys@), vars@),
    ensures
        r@ == resolve_text(s@, crate::text::views(keys@), vars@),
{
    let ghost ks = crate::text::views(keys@);
    if !contains_char_exec(s, '$') {
        return crate::text::copy_chars(s);
    }
    let mut cur = crate::text::copy_chars(s);
    let mut j: usize = 0;
    assert(ks.skip(0) =~= ks);
    while j < keys.len()
        invariant
            j <= keys@.len(),
            ks == crate::text::views(keys@),
            key_order(ks, vars@),
            replace_keys(cur@, ks.skip(j as int), vars@) == replace_keys(s@, ks, vars@),
        decreases keys@.len() - j,
    {
        let k = &keys[j];
        assert(ks[j as int] == k@);
        assert(ks.contains(k@));
        let v = vars.get_chars(k).unwrap();
        assert(ks.skip(j as int).drop_first() =~= ks.skip(j + 1));
        cur = replace_all_exec(&cur, k, &v);
        j = j + 1;
    }
    assert(ks.skip(j as int) =~= Seq::<Seq<char>>::empty());
    cur
}

/// The text a key combination field stands for, with the variables of
/// `vars` replaced when it holds a `$`: each name, longest first, replaced
/// wherever it occurs. Names of equal length are tried in some order.
pub fn resolve(input: &str, vars: &VarMap) -> (r: String)
    ensures
        exists|ks: Seq<Seq<char>>| key_order(ks, vars@) && r@ == resolve_text(input@, ks, vars@),
{
    let keys = key_chars(&vars.sorted_keys());
    let r = resolve_text_exec(&chars_of(input), vars, &keys);
    assert(key_order(crate::text::views(keys@), vars@));
    string_of(&r)
}

// ---------------------------------------------------------------------------
// The keybind that holds a combination
// ---------------------------------------------------------------------------

/// The keybind a combination collides with.
pub struct ConflictInfo {
    pub dispatcher: String,
    pub args: String,
    pub file: String,
    pub line: usize,
}

/// A colliding keybind as plain values.
pub ghost struct ConflictInfoView {
    pub dispatcher: Seq<char>,
    pub args: Seq<char>,
    pub file: Seq<char>,
    pub line: int,
}

impl View for ConflictInfo {
    type V = ConflictInfoView;

    open spec fn view(&self) -> ConflictInfoView {
        ConflictInfoView {
            dispatcher: self.dispatcher@,
            args: self.args@,
            file: self.file@,
            line: self.line as int,
        }
    }
}

/// The submap a keybind belongs to, trimmed (none is the empty name).
pub open spec fn submap_name(k: KeybindView) -> Seq<char> {
    trim(or_empty(k.submap))
}

/// Keybind `k` has the canonical modifiers `nm`, key `nk` and submap `sub`.
pub open spec fn holds_combo(k: KeybindView, nm: Seq<char>, nk: Seq<char>, sub: Seq<char>) -> bool {
    normalized_mods(k.clean_mods) == nm && normalized_key(k.key) == nk && submap_name(k) == sub
}

/// The first keybind from index `j` on that holds the combination and is
/// not on line `ignore`.
pub open spec fn first_holder(
    ks: Seq<KeybindView>,
    nm: Seq<char>,
    nk: Seq<char>,
    sub: Seq<char>,
    ignore: Option<int>,
    j: int,
) -> Option<int>
    decreases ks.len() - j,
{
    if j < 0 || j >= ks.len() {
        None
    } else if ignore != Some(ks[j].line_number) && holds_combo(ks[j], nm, nk, sub) {
        Some(j)
    } else {
        first_holder(ks, nm, nk, sub, ignore, j + 1)
    }
}

/// What is reported of a colliding keybind.
pub open spec fn info_of(k: KeybindView) -> ConflictInfoView {
    ConflictInfoView { dispatcher: k.dispatcher, args: k.args, file: k.file_path, line: k.line_number }
}

/// The collision that `check_conflict` reports, the fields resolved with the
/// name order `order`.
pub open spec fn conflict_of(
    mods: Seq<char>,
    key: Seq<char>,
    submap: Option<Seq<char>>,
    ignore: Option<int>,
    ks: Seq<KeybindView>,
    order: Seq<Seq<char>>,
    m: Map<Seq<char>, Seq<char>>,
) -> Option<ConflictInfoView> {
    let nm = normalized_mods(resolve_text(mods, order, m));
    let nk = normalized_key(resolve_text(key, order, m));
    match first_holder(ks, nm, nk, trim(or_empty(submap)), ignore, 0) {
        Some(j) => Some(info_of(ks[j])),
        None => None,
    }
}

/// The canonical modifiers, key and submap of each keybind.
struct Combos {
    mods: Vec<Vec<char>>,
    keys: Vec<Vec<char>>,
    subs: Vec<Vec<char>>,
}

impl Combos {
    spec fn describes(self, ks: Seq<KeybindView>) -> bool {
        &&& self.mods@.len() == ks.len()
        &&& self.keys@.len() == ks.len()
        &&& self.subs@.len() == ks.len()
        &&& forall|j: int|
            0 <= j < ks.len() ==> (#[trigger] self.mods@[j])@ == normalized_mods(ks[j].clean_mods)
                && self.keys@[j]@ == normalized_key(ks[j].key) && self.subs@[j]@ == submap_name(ks[j])
    }

    fn of(keybinds: &[Keybind]) -> (c: Combos)
        ensures
            c.describes(keybind_views(keybinds@)),
    {
        let ghost ks = keybind_views(keybinds@);
        let mut c = Combos { mods: Vec::new(), keys: Vec::new(), subs: Vec::new() };
        let mut n: usize = 0;
        while n < keybinds.len()
            invariant
                n <= keybinds@.len(),
                ks == keybind_views(keybinds@),
                c.mods@.len() == n && c.keys@.len() == n && c.subs@.len() == n,
                forall|j: int|
                    0 <= j < n ==> (#[trigger] c.mods@[j])@ == normalized_mods(ks[j].clean_mods)
                        && c.keys@[j]@ == normalized_key(ks[j].key) && c.subs@[j]@ == submap_name(
                        ks[j],
                    ),
            decreases keybinds@.len() - n,
        {
            let kb = &keybinds[n];
            assert(ks[n as int] == kb@);
            let (m, k) = normalize(kb.clean_mods.as_str(), kb.key.as_str());
            c.mods.push(chars_of(m.as_str()));
            c.keys.push(chars_of(k.as_str()));
            let s = match &kb.submap {
                Some(s) => trim_chars(&chars_of(s.as_str())),
                None => Vec::new(),
            };
            assert(s@ == submap_name(ks[n as int]));
            c.subs.push(s);
            n = n + 1;
        }
        c
    }

    /// Whether keybind `j` holds the combination.
    fn holds(&self, j: usize, nm: &[char], nk: &[char], sub: &[char]) -> (r: bool)
        requires
            j < self.mods@.len(),
            self.mods@.len() == self.keys@.len(),
            self.mods@.len() == self.subs@.len(),
        ensures
            r == (self.mods@[j as int]@ == nm@ && self.keys@[j as int]@ == nk@ && self.subs@[j as int]@
                == sub@),
    {
        eq_chars(&self.mods[j], nm) && eq_chars(&self.keys[j], nk) && eq_chars(&self.subs[j], sub)
    }
}

fn normalized_chars(mods: &[char], key: &[char]) -> (r: (Vec<char>, Vec<char>))
    ensures
        r.0@ == normalized_mods(mods@),
        r.1@ == normalized_key(key@),
{
    let (m, k) = normalize(string_of(mods).as_str(), string_of(key).as_str());
    (chars_of(m.as_str()), chars_of(k.as_str()))
}

/// The keybind, other than one on line `ignore_line`, that already holds the
/// combination being entered: the first in `keybinds` whose canonical
/// modifiers, key and trimmed submap equal those of the (variable-resolved)
/// target.
pub fn check_conflict(
    target_mods: &str,
    target_key: &str,
    target_submap: Option<&str>,
    ignore_line: Option<usize>,
    keybinds: &[Keybind],
    variables: &VarMap,
) -> (r: Option<ConflictInfo>)
    ensures
        exists|order: Seq<Seq<char>>|
            key_order(order, variables@) && (match r {
                Some(c) => Some(c@),
                None => None::<ConflictInfoView>,
            }) == conflict_of(
                target_mods@,
                target_key@,
                match target_submap {
                    Some(s) => Some(s@),
                    None => None,
                },
                match ignore_line {
                    Some(l) => Some(l as int),
                    None => None,
                },
                keybind_views(keybinds@),
                order,
                variables@,
            ),
{
    let keys = key_chars(&variables.sorted_keys());
    let ghost order = crate::text::views(keys@);
    let ghost ks = keybind_views(keybinds@);
    let rm = resolve_text_exec(&chars_of(target_mods), variables, &keys);
    let rk = resolve_text_exec(&chars_of(target_key), variables, &keys);
    let (nm, nk) = normalized_chars(&rm, &rk);
    let sub = match target_submap {
        Some(s) => trim_chars(&chars_of(s)),
        None => Vec::new(),
    };
    let ghost gsub = match target_submap {
        Some(s) => Some(s@),
        None => None::<Seq<char>>,
    };
    let ghost gignore = match ignore_line {
        Some(l) => Some(l as int),
        None => None::<int>,
    };
    assert(sub@ == trim(or_empty(gsub)));
    let combos = Combos::of(keybinds);
    let mut j: usize = 0;
    while j < keybinds.len()
        invariant
            j <= keybinds@.len(),
            ks == keybind_views(keybinds@),
            combos.describes(ks),
            key_order(order, variables@),
            order == crate::text::views(keys@),
            nm@ == normalized_mods(resolve_text(target_mods@, order, variables@)),
            nk@ == normalized_key(resolve_text(target_key@, order, variables@)),
            sub@ == trim(or_empty(gsub)),
            gsub == match target_submap {
                Some(s) => Some(s@),
                None => None::<Seq<char>>,
            },
            first_holder(ks, nm@, nk@, sub@, gignore, 0) == first_holder(
                ks,
                nm@,
                nk@,
                sub@,
                gignore,
                j as int,
            ),
            gignore == match ignore_line {
                Some(l) => Some(l as int),
                None => None::<int>,
            },
        decreases keybinds@.len() - j,
    {
        let kb = &keybinds[j];
        assert(ks[j as int] == kb@);
        let ignored = match ignore_line {
            Some(l) => kb.line_number == l,
            None => false,
        };
        assert(ignored == (gignore == Some(ks[j as int].line_number)));
        if !ignored && combos.holds(j, &nm, &nk, &sub) {
            assert(combos.mods@[j as int]@ == normalized_mods(ks[j as int].clean_mods));
            let info = ConflictInfo {
                dispatcher: kb.dispatcher.clone(),
                args: kb.args.clone(),
                file: kb.file_path.clone(),
                line: kb.line_number,
            };
            assert(info@ == info_of(ks[j as int]));
            assert(key_order(order, variables@));
            return Some(info);
        }
        assert(combos.mods@[j as int]@ == normalized_mods(ks[j as int].clean_mods));
        j = j + 1;
    }
    assert(key_order(order, variables@));
    None
}

// ---------------------------------------------------------------------------
// Free alternatives
// ---------------------------------------------------------------------------

/// Some keybind holds the combination (any line).
pub open spec fn taken(ks: Seq<KeybindView>, nm: Seq<char>, nk: Seq<char>, sub: Seq<char>) -> bool {
    exists|j: int| 0 <= j < ks.len() && holds_combo(#[trigger] ks[j], nm, nk, sub)
}

/// The modifiers tried as additions, in order.
pub open spec fn extra_mods() -> Seq<Seq<char>> {
    seq!["SHIFT"@, "CTRL"@, "ALT"@, "SUPER"@]
}

/// The target's modifiers with `pm` added after a space (or `pm` alone).
pub open spec fn with_mod(mods: Seq<char>, pm: Seq<char>) -> Seq<char> {
    if mods.len() == 0 {
        pm
    } else {
        mods + seq![' '] + pm
    }
}

/// Whether the modifiers `mods` with the key `key` are free in the submap.
pub open spec fn is_free(
    mods: Seq<char>,
    key: Seq<char>,
    sub: Seq<char>,
    ks: Seq<KeybindView>,
    order: Seq<Seq<char>>,
    m: Map<Seq<char>, Seq<char>>,
) -> bool {
    !taken(
        ks,
        normalized_mods(resolve_text(mods, order, m)),
        normalized_key(resolve_text(key, order, m)),
        sub,
    )
}

/// The candidates from the modifiers `pms`: those not among the target's
/// canonical modifiers `nm` (as text) whose combination is free; with
/// `add`, each candidate is the target's modifiers plus the new one, else
/// the new modifier alone.
pub open spec fn candidates(
    pms: Seq<Seq<char>>,
    add: bool,
    mods: Seq<char>,
    key: Seq<char>,
    nm: Seq<char>,
    sub: Seq<char>,
    ks: Seq<KeybindView>,
    order: Seq<Seq<char>>,
    m: Map<Seq<char>, Seq<char>>,
) -> Seq<(Seq<char>, Seq<char>)>
    decreases pms.len(),
{
    if pms.len() == 0 {
        seq![]
    } else {
        let cand = if add {
            with_mod(mods, pms[0])
        } else {
            pms[0]
        };
        (if !contains(nm, pms[0]) && is_free(cand, key, sub, ks, order, m) {
            seq![(cand, key)]
        } else {
            seq![]
        }) + candidates(pms.drop_first(), add, mods, key, nm, sub, ks, order, m)
    }
}

/// The suggested free alternatives: first the target's modifiers with one of
/// `SHIFT`, `CTRL`, `ALT`, `SUPER` added, then each of those alone, keeping
/// those not already among the target's modifiers and not taken; at most
/// three, in that order.
pub open spec fn suggestions_of(
    mods: Seq<char>,
    key: Seq<char>,
    submap: Option<Seq<char>>,
    ks: Seq<KeybindView>,
    order: Seq<Seq<char>>,
    m: Map<Seq<char>, Seq<char>>,
) -> Seq<(Seq<char>, Seq<char>)> {
    let sub = trim(or_empty(submap));
    let nm = normalized_mods(resolve_text(mods, order, m));
    let all = candidates(extra_mods(), true, mods, key, nm, sub, ks, order, m) + candidates(
        extra_mods(),
        false,
        mods,
        key,
        nm,
        sub,
        ks,
        order,
        m,
    );
    if all.len() > 3 {
        all.take(3)
    } else {
        all
    }
}

/// The pairs as plain values.
pub open spec fn pair_views(v: Seq<(String, String)>) -> Seq<(Seq<char>, Seq<char>)> {
    v.map_values(|p: (String, String)| (p.0@, p.1@))
}

fn is_free_exec(
    mods: &[char],
    key: &[char],
    sub: &[char],
    combos: &Combos,
    vars: &VarMap,
    keys: &Vec<Vec<char>>,
    Ghost(ks): Ghost<Seq<KeybindView>>,
) -> (r: bool)
    requires
        combos.describes(ks),
        key_order(crate::text::views(keys@), vars@),
    ensures
        r == is_free(mods@, key@, sub@, ks, crate::text::views(keys@), vars@),
{
    let rm = resolve_text_exec(mods, vars, keys);
    let rk = resolve_text_exec(key, vars, keys);
    let (nm, nk) = normalized_chars(&rm, &rk);
    let mut j: usize = 0;
    while j < combos.mods.len()
        invariant
            j <= combos.mods@.len(),
            combos.describes(ks),
            forall|t: int| 0 <= t < j ==> !holds_combo(#[trigger] ks[t], nm@, nk@, sub@),
            nm@ == normalized_mods(resolve_text(mods@, crate::text::views(keys@), vars@)),
            nk@ == normalized_key(resolve_text(key@, crate::text::views(keys@), vars@)),
        decreases combos.mods@.len() - j,
    {
        assert(combos.mods@[j as int]@ == normalized_mods(ks[j as int].clean_mods));
        if combos.holds(j, &nm, &nk, sub) {
            assert(holds_combo(ks[j as int], nm@, nk@, sub@));
            assert(taken(ks, nm@, nk@, sub@));
            return false;
        }
        j = j + 1;
    }
    true
}

/// Up to three free alternatives to a taken combination, as
/// `(modifiers, key)` pairs.
pub fn generate_suggestions(
    target_mods: &str,
    target_key: &str,
    target_submap: Option<&str>,
    keybinds: &[Keybind],
    variables: &VarMap,
) -> (r: Vec<(String, String)>)
    ensures
        exists|order: Seq<Seq<char>>|
            key_order(order, variables@) && pair_views(r@) == suggestions_of(
                target_mods@,
                target_key@,
                match target_submap {
                    Some(s) => Some(s@),
                    None => None,
                },
                keybind_views(keybinds@),
                order,
                variables@,
            ),
{
    let keys = key_chars(&variables.sorted_keys());
    let ghost order = crate::text::views(keys@);
    let ghost ks = keybind_views(keybinds@);
    let sub = match target_submap {
        Some(s) => trim_chars(&chars_of(s)),
        None => Vec::new(),
    };
    let tm = chars_of(target_mods);
    let tk = chars_of(target_key);
    let rm = resolve_text_exec(&tm, variables, &keys);
    let rk = resolve_text_exec(&tk, variables, &keys);
    let (nm, _nk) = normalized_chars(&rm, &rk);
    let ghost gsub = match target_submap {
        Some(s) => Some(s@),
        None => None::<Seq<char>>,
    };
    assert(sub@ == trim(or_empty(gsub)));
    assert(nm@ == normalized_mods(resolve_text(target_mods@, order, variables@)));
    let combos = Combos::of(keybinds);
    let pms: Vec<Vec<char>> = vec![chars_of("SHIFT"), chars_of("CTRL"), chars_of("ALT"), chars_of("SUPER")];
    assert(crate::text::views(pms@) =~= extra_mods());
    let mut out: Vec<(String, String)> = Vec::new();
    let mut round: usize = 0;
    while round < 2
        invariant
            round <= 2,
            crate::text::views(pms@) == extra_mods(),
            combos.describes(ks),
            key_order(order, variables@),
            order == crate::text::views(keys@),
            pair_views(out@) == (if round == 0 {
                Seq::empty()
            } else if round == 1 {
                candidates(extra_mods(), true, tm@, tk@, nm@, sub@, ks, order, variables@)
            } else {
                candidates(extra_mods(), true, tm@, tk@, nm@, sub@, ks, order, variables@)
                    + candidates(extra_mods(), false, tm@, tk@, nm@, sub@, ks, order, variables@)
            }),
        decreases 2 - round,
    {
        let add = round == 0;
        let ghost start = pair_views(out@);
        let mut p: usize = 0;
        assert(extra_mods().skip(0) =~= extra_mods());
        while p < pms.len()
            invariant
                p <= pms@.len(),
                crate::text::views(pms@) == extra_mods(),
                combos.describes(ks),
                key_order(order, variables@),
                order == crate::text::views(keys@),
                pair_views(out@) + candidates(
                    extra_mods().skip(p as int),
                    add,
                    tm@,
                    tk@,
                    nm@,
                    sub@,
                    ks,
                    order,
                    variables@,
                ) == start + candidates(extra_mods(), add, tm@, tk@, nm@, sub@, ks, order, variables@),
            decreases pms@.len() - p,
        {
            let pm = &pms[p];
            let ghost rest = extra_mods().skip(p as int);
            assert(rest[0] == pm@);
            assert(rest.drop_first() =~= extra_mods().skip(p + 1));
            let cand = if add {
                if tm.len() == 0 {
                    crate::text::copy_chars(pm)
                } else {
                    let sp = vec![' '];
                    assert(sp@ == seq![' ']);
                    concat(&concat(&tm, &sp), pm)
                }
            } else {
                crate::text::copy_chars(pm)
            };
            if !contains_exec(&nm, pm) && is_free_exec(&cand, &tk, &sub, &combos, variables, &keys, Ghost(ks)) {
                let ghost old_out = pair_views(out@);
                out.push((string_of(&cand), string_of(&tk)));
                assert(pair_views(out@) =~= old_out.push((cand@, tk@)));
                assert(pair_views(out@) + candidates(
                    extra_mods().skip(p + 1),
                    add,
                    tm@,
                    tk@,
                    nm@,
                    sub@,
                    ks,
                    order,
                    variables@,
                ) =~= old_out + candidates(rest, add, tm@, tk@, nm@, sub@, ks, order, variables@));
            } else {
                assert(candidates(rest, add, tm@, tk@, nm@, sub@, ks, order, variables@) =~= candidates(
                    extra_mods().skip(p + 1),
                    add,
                    tm@,
                    tk@,
                    nm@,
                    sub@,
                    ks,
                    order,
                    variables@,
                ));
            }
            p = p + 1;
        }
        assert(extra_mods().skip(p as int) =~= Seq::<Seq<char>>::empty());
        assert(pair_views(out@) =~= start + candidates(extra_mods(), add, tm@, tk@, nm@, sub@, ks, order, variables@));
        round = round + 1;
    }
    let ghost all = pair_views(out@);
    assert(all == candidates(extra_mods(), true, tm@, tk@, nm@, sub@, ks, order, variables@)
        + candidates(extra_mods(), false, tm@, tk@, nm@, sub@, ks, order, variables@));
    if out.len() > 3 {
        out.truncate(3);
        assert(pair_views(out@) =~= all.take(3));
    }
    assert(pair_views(out@) == suggestions_of(
        target_mods@,
        target_key@,
        match target_submap {
            Some(s) => Some(s@),
            None => None,
        },
        ks,
        order,
        variables@,
    ));
    assert(key_order(order, variables@));
    out
}

// ---------------------------------------------------------------------------
// What a collision is
// ---------------------------------------------------------------------------

/// Without variables, a field stands for itself.
proof fn lemma_resolve_nothing(s: Seq<char>)
    ensures
        resolve_text(s, Seq::<Seq<char>>::empty(), Map::<Seq<char>, Seq<char>>::empty()) == s,
{
}

/// What the search for a keybind holding the combination from `j` finds:
/// one that holds it, not on the ignored line, with none before it; or no
/// such keybind at all.
proof fn lemma_first_holder_facts(
    ks: Seq<KeybindView>,
    nm: Seq<char>,
    nk: Seq<char>,
    sub: Seq<char>,
    ignore: Option<int>,
    j: int,
)
    requires
        0 <= j,
    ensures
        match first_holder(ks, nm, nk, sub, ignore, j) {
            Some(h) => j <= h < ks.len() && ignore != Some(ks[h].line_number) && holds_combo(ks[h], nm, nk, sub)
                && forall|m: int|
                j <= m < h ==> !(ignore != Some(ks[m].line_number) && holds_combo(#[trigger] ks[m], nm, nk, sub)),
            None => forall|m: int|
                j <= m < ks.len() ==> !(ignore != Some(ks[m].line_number) && holds_combo(#[trigger] ks[m], nm, nk, sub)),
        },
    decreases ks.len() - j,
{
    if j < ks.len() && !(ignore != Some(ks[j].line_number) && holds_combo(ks[j], nm, nk, sub)) {
        lemma_first_holder_facts(ks, nm, nk, sub, ignore, j + 1);
    }
}

/// The collision reported for a combination that names variables is the
/// one reported for the combination with the variables replaced by their
/// values and no variables defined.
pub proof fn lemma_conflict_resolves_variables(
    mods: Seq<char>,
    key: Seq<char>,
    submap: Option<Seq<char>>,
    ignore: Option<int>,
    ks: Seq<KeybindView>,
    order: Seq<Seq<char>>,
    m: Map<Seq<char>, Seq<char>>,
)
    ensures
        conflict_of(mods, key, submap, ignore, ks, order, m) == conflict_of(
            resolve_text(mods, order, m),
            resolve_text(key, order, m),
            submap,
            ignore,
            ks,
            Seq::<Seq<char>>::empty(),
            Map::<Seq<char>, Seq<char>>::empty(),
        ),
{
    lemma_resolve_nothing(resolve_text(mods, order, m));
    lemma_resolve_nothing(resolve_text(key, order, m));
}

/// Keybind `k` has the canonical modifiers `nm`, key `nk` and trimmed
/// submap `sub`, and is not on line `ignore`.
pub open spec fn collides(k: KeybindView, nm: Seq<char>, nk: Seq<char>, sub: Seq<char>, ignore: Option<int>) -> bool {
    &&& ignore != Some(k.line_number)
    &&& normalized_mods(k.clean_mods) == nm
    &&& normalized_key(k.key) == nk
    &&& trim(or_empty(k.submap)) == sub
}

/// A collision is reported exactly when some keybind, not on the ignored
/// line, has the canonical modifiers and key of the combination with its
/// variables replaced, in the same (trimmed) submap; what is reported is the
/// dispatcher, arguments, file and line of the first such keybind.
pub proof fn lemma_conflict_is_first_holder(
    mods: Seq<char>,
    key: Seq<char>,
    submap: Option<Seq<char>>,
    ignore: Option<int>,
    ks: Seq<KeybindView>,
    order: Seq<Seq<char>>,
    m: Map<Seq<char>, Seq<char>>,
)
    ensures
        ({
            let nm = normalized_mods(resolve_text(mods, order, m));
            let nk = normalized_key(resolve_text(key, order, m));
            let sub = trim(or_empty(submap));
            match conflict_of(mods, key, submap, ignore, ks, order, m) {
                Some(c) => exists|h: int|
                    0 <= h < ks.len() && collides(#[trigger] ks[h], nm, nk, sub, ignore) && c.dispatcher
                        == ks[h].dispatcher && c.args == ks[h].args && c.file == ks[h].file_path && c.line
                        == ks[h].line_number && forall|j: int| 0 <= j < h ==> !collides(#[trigger] ks[j], nm, nk, sub, ignore),
                None => forall|j: int| 0 <= j < ks.len() ==> !collides(#[trigger] ks[j], nm, nk, sub, ignore),
            }
        }),
{
    let nm = normalized_mods(resolve_text(mods, order, m));
    let nk = normalized_key(resolve_text(key, order, m));
    let sub = trim(or_empty(submap));
    lemma_first_holder_facts(ks, nm, nk, sub, ignore, 0);
    assert forall|j: int| 0 <= j < ks.len() implies collides(#[trigger] ks[j], nm, nk, sub, ignore) == (ignore
        != Some(ks[j].line_number) && holds_combo(ks[j], nm, nk, sub)) by {}
}

/// Replacing a name that does not stand in a text leaves the text.
proof fn lemma_replace_absent(s: Seq<char>, p: Seq<char>, r: Seq<char>)
    requires
        p.len() > 0,
        !crate::text::occurs_in(s, p),
    ensures
        replace_all(s, p, r) == s,
{
    crate::text::lemma_find_from(s, p, 0);
    if let Some(k) = crate::text::find_from(s, p, 0) {
        assert(s.subrange(k, k + p.len()) == p);
    }
    assert(s.subrange(0, s.len() as int) =~= s);
}

/// Replacing a name in the text that is just that name gives the value.
proof fn lemma_replace_whole(p: Seq<char>, r: Seq<char>)
    requires
        p.len() > 0,
    ensures
        replace_all(p, p, r) == r,
{
    assert(p.subrange(0, p.len() as int) =~= p);
    assert(crate::text::occurs_at(p, p, 0));
    assert(crate::text::find_from(p, p, 0) == Some(0int));
    assert(!crate::text::occurs_at(p, p, p.len() as int));
    assert(crate::text::find_from(p, p, p.len() as int + 1) is None);
    assert(crate::text::find_from(p, p, p.len() as int) is None);
    assert(p.subrange(0, 0) =~= Seq::<char>::empty());
    assert(p.subrange(p.len() as int, p.len() as int) =~= Seq::<char>::empty());
    assert(crate::text::replace_from(p, p, r, p.len() as int) == p.subrange(p.len() as int, p.len() as int));
    assert(crate::text::replace_from(p, p, r, 0) == p.subrange(0, 0) + r + crate::text::replace_from(
        p,
        p,
        r,
        0 + p.len() as int,
    ));
    assert(Seq::<char>::empty() + r + Seq::<char>::empty() =~= r);
}

/// Replacing names none of which stands in a text leaves the text.
proof fn lemma_replace_keys_none(s: Seq<char>, ks: Seq<Seq<char>>, m: Map<Seq<char>, Seq<char>>)
    requires
        forall|i: int| 0 <= i < ks.len() ==> (#[trigger] ks[i]).len() > 0 && !crate::text::occurs_in(s, ks[i]),
    ensures
        replace_keys(s, ks, m) == s,
    decreases ks.len(),
{
    if ks.len() > 0 {
        lemma_replace_absent(s, ks[0], m[ks[0]]);
        let rest = ks.drop_first();
        assert forall|i: int| 0 <= i < rest.len() implies (#[trigger] rest[i]).len() > 0 && !crate::text::occurs_in(
            s,
            rest[i],
        ) by {
            assert(rest[i] == ks[i + 1]);
        }
        lemma_replace_keys_none(s, rest, m);
    }
}

/// Replacing the names of `ks` in a text that is the name `k`, when no
/// other of them stands in `k` or in its value, gives `k`'s value if `k` is
/// among them.
proof fn lemma_replace_keys_name(ks: Seq<Seq<char>>, m: Map<Seq<char>, Seq<char>>, k: Seq<char>)
    requires
        ks.no_duplicates(),
        k.len() > 0,
        forall|i: int|
            0 <= i < ks.len() && #[trigger] ks[i] != k ==> ks[i].len() > 0 && !crate::text::occurs_in(k, ks[i])
                && !crate::text::occurs_in(m[k], ks[i]),
    ensures
        replace_keys(k, ks, m) == (if ks.contains(k) {
            m[k]
        } else {
            k
        }),
    decreases ks.len(),
{
    if ks.len() > 0 {
        let rest = ks.drop_first();
        assert forall|i: int| 0 <= i < rest.len() && #[trigger] rest[i] != k implies rest[i].len() > 0
            && !crate::text::occurs_in(k, rest[i]) && !crate::text::occurs_in(m[k], rest[i]) by {
            assert(rest[i] == ks[i + 1]);
        }
        assert(rest.no_duplicates()) by {
            assert forall|a: int, b: int| 0 <= a < b < rest.len() implies rest[a] != rest[b] by {
                assert(rest[a] == ks[a + 1] && rest[b] == ks[b + 1]);
            }
        }
        if ks[0] == k {
            lemma_replace_whole(k, m[k]);
            assert forall|i: int| 0 <= i < rest.len() implies (#[trigger] rest[i]).len() > 0
                && !crate::text::occurs_in(m[k], rest[i]) by {
                assert(rest[i] == ks[i + 1]);
                assert(ks[i + 1] != ks[0]);
            }
            lemma_replace_keys_none(m[k], rest, m);
            assert(ks.contains(k)) by {
                assert(ks[0] == k);
            }
        } else {
            lemma_replace_absent(k, ks[0], m[ks[0]]);
            lemma_replace_keys_name(rest, m, k);
            assert(ks.contains(k) == rest.contains(k)) by {
                if ks.contains(k) {
                    let i = choose|i: int| 0 <= i < ks.len() && ks[i] == k;
                    assert(i > 0);
                    assert(rest[i - 1] == k);
                }
                if rest.contains(k) {
                    let i = choose|i: int| 0 <= i < rest.len() && rest[i] == k;
                    assert(ks[i + 1] == k);
                }
            }
        }
    }
}

/// A field that is a defined variable's name stands for the variable's
/// value, when the name begins with `$` and no other defined name stands
/// in the name or in the value; a field without `$` stands for itself.
pub proof fn lemma_variable_field_resolves(ks: Seq<Seq<char>>, m: Map<Seq<char>, Seq<char>>, k: Seq<char>)
    requires
        key_order(ks, m),
    ensures
        (m.contains_key(k) && k.len() > 0 && k[0] == '$' && forall|n: Seq<char>|
            #[trigger] m.contains_key(n) && n != k ==> !crate::text::occurs_in(k, n) && !crate::text::occurs_in(m[k], n))
            ==> resolve_text(k, ks, m) == m[k],
        !crate::text::occurs_in(k, seq!['$']) ==> resolve_text(k, ks, m) == k,
{
    crate::text::lemma_contains_occurs(k, seq!['$']);
    if m.contains_key(k) && k.len() > 0 && k[0] == '$' && forall|n: Seq<char>|
        #[trigger] m.contains_key(n) && n != k ==> !crate::text::occurs_in(k, n) && !crate::text::occurs_in(m[k], n) {
        assert(k.subrange(0, 1) =~= seq!['$']);
        assert(crate::text::occurs_in(k, seq!['$']));
        assert forall|i: int| 0 <= i < ks.len() && #[trigger] ks[i] != k implies ks[i].len() > 0
            && !crate::text::occurs_in(k, ks[i]) && !crate::text::occurs_in(m[k], ks[i]) by {
            assert(ks.contains(ks[i]));
            assert(m.contains_key(ks[i]));
            if ks[i].len() == 0 {
                let e = ks[i];
                assert(k.subrange(0, 0 + e.len() as int) =~= e);
                assert(crate::text::occurs_in(k, e));
            }
        }
        lemma_replace_keys_name(ks, m, k);
        assert(ks.contains(k));
    }
}

} // verus!
