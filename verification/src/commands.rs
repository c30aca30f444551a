//! Running keybinds and checking their programs: the `hyprctl dispatch`
//! arguments of a keybind, the program a command runs, where it is looked
//! for, and the remembered answers.
use crate::conflicts::{key_order, replace_keys};
use crate::parser::{joined_path, opt_view};
use crate::text::{
    chars_of, eq_chars, find_char, find_char_exec, slice, starts_with, string_of, trim, trim_chars, views,
    words, words_exec,
};
use crate::vars::{string_views, VarMap};
use vstd::prelude::*;

verus! {

broadcast use vstd::string::group_string_axioms;

// ---------------------------------------------------------------------------
// Running a keybind
// ---------------------------------------------------------------------------

/// The arguments of `hyprctl` that run a keybind's action: `dispatch`, the
/// dispatcher, and the arguments when they are not blank, both with every
/// variable replaced (names in the order `order`).
pub open spec fn dispatch_argv(
    dispatcher: Seq<char>,
    args: Seq<char>,
    order: Seq<Seq<char>>,
    m: Map<Seq<char>, Seq<char>>,
) -> Seq<Seq<char>> {
    let d = replace_keys(dispatcher, order, m);
    let a = replace_keys(args, order, m);
    if trim(a).len() == 0 {
        seq!["dispatch"@, d]
    } else {
        seq!["dispatch"@, d, a]
    }
}

fn replace_keys_exec(s: &[char], vars: &VarMap, keys: &Vec<Vec<char>>) -> (r: Vec<char>)
    requires
        key_order(views(keys@), vars@),
    ensures
        r@ == replace_keys(s@, views(keys@), vars@),
{
    let ghost ks = views(keys@);
    let mut cur = crate::text::copy_chars(s);
    let mut j: usize = 0;
    assert(ks.skip(0) =~= ks);
    while j < keys.len()
        invariant
            j <= keys@.len(),
            ks == views(keys@),
            key_order(ks, vars@),
            replace_keys(cur@, ks.skip(j as int), vars@) == replace_keys(s@, ks, vars@),
        decreases keys@.len() - j,
    {
        let k = &keys[j];
        assert(ks[j as int] == k@);
        assert(ks.contains(k@));
        let v = vars.get_chars(k).unwrap();
        assert(ks.skip(j as int).drop_first() =~= ks.skip(j + 1));
        cur = crate::text::replace_all_exec(&cur, k, &v);
        j = j + 1;
    }
    assert(ks.skip(j as int) =~= Seq::<Seq<char>>::empty());
    cur
}

/// The `hyprctl` arguments that run the action `dispatcher` with `args`,
/// with the variables of `variables` replaced (longest names first; names
/// of equal length in some order).
pub fn execute_keybind(dispatcher: &str, args: &str, variables: &VarMap) -> (r: Vec<String>)
    ensures
        exists|order: Seq<Seq<char>>|
            key_order(order, variables@) && string_views(r@) == dispatch_argv(
                dispatcher@,
                args@,
                order,
                variables@,
            ),
{
    let sorted = variables.sorted_keys();
    let mut keys: Vec<Vec<char>> = Vec::new();
    let mut i: usize = 0;
    while i < sorted.len()
        invariant
            i <= sorted@.len(),
            views(keys@) == string_views(sorted@).take(i as int),
        decreases sorted@.len() - i,
    {
        let ghost before = views(keys@);
        keys.push(chars_of(sorted[i].as_str()));
        assert(views(keys@) =~= before.push(sorted@[i as int]@));
        assert(string_views(sorted@).take(i + 1) =~= string_views(sorted@).take(i as int).push(
            sorted@[i as int]@,
        ));
        i = i + 1;
    }
    assert(string_views(sorted@).take(i as int) =~= string_views(sorted@));
    let ghost order = views(keys@);
    assert(key_order(order, variables@));
    let d = replace_keys_exec(&chars_of(dispatcher), variables, &keys);
    let a = replace_keys_exec(&chars_of(args), variables, &keys);
    let mut argv: Vec<String> = Vec::new();
    argv.push(string_of(&chars_of("dispatch")));
    argv.push(string_of(&d));
    if trim_chars(&a).len() > 0 {
        argv.push(string_of(&a));
        assert(string_views(argv@) =~= seq!["dispatch"@, d@, a@]);
    } else {
        assert(string_views(argv@) =~= seq!["dispatch"@, d@]);
    }
    argv
}

// ---------------------------------------------------------------------------
// The program of a command
// ---------------------------------------------------------------------------

/// The program a command runs: its first word, once the command is trimmed
/// and a leading `[…]` of window rules is dropped; none for a blank command.
pub open spec fn command_name(command: Seq<char>) -> Option<Seq<char>> {
    let t = trim(command);
    let full = if starts_with(t, seq!['[']) {
        match find_char(t, ']') {
            Some(e) => trim(t.skip(e + 1)),
            None => t,
        }
    } else {
        t
    };
    if words(full).len() > 0 {
        Some(words(full)[0])
    } else {
        None
    }
}

/// The program that a command runs, if it names one.
pub fn program_of(command: &str) -> (r: Option<String>)
    ensures
        opt_view(r) == command_name(command@),
{
    let t = trim_chars(&chars_of(command));
    let full = if t.len() > 0 && t[0] == '[' {
        proof {
            crate::text::lemma_find_from(t@, seq![']'], 0);
        }
        match find_char_exec(&t, ']') {
            Some(e) => {
                assert(crate::text::occurs_at(t@, seq![']'], e as int));
                assert(e < t.len());
                let rest = slice(&t, e + 1, t.len());
                assert(rest@ =~= t@.skip(e + 1));
                trim_chars(&rest)
            },
            None => t,
        }
    } else {
        t
    };
    proof {
        if t@.len() > 0 && t@[0] == '[' {
            assert(t@.take(1) =~= seq!['[']);
        }
        if starts_with(t@, seq!['[']) {
            assert(t@.take(1)[0] == t@[0]);
        }
    }
    let ws = words_exec(&full);
    if ws.len() > 0 {
        Some(string_of(&ws[0]))
    } else {
        None
    }
}

/// Where a program is looked for: a leading `~` followed by one more
/// character is the home directory, and what follows that character is
/// joined to it; other names are taken as they are.
pub open spec fn program_path(name: Seq<char>, home: Option<Seq<char>>) -> Seq<char> {
    if starts_with(name, seq!['~']) {
        match home {
            Some(h) => joined_path(h, name.skip(2)),
            None => name,
        }
    } else {
        name
    }
}

/// The inputs on which finding the path cannot go on: a name that starts
/// with `~` and has no second character, or one that takes more than one
/// byte, while the home directory is known.
pub open spec fn path_unreadable(name: Seq<char>, home: Option<Seq<char>>) -> bool {
    starts_with(name, seq!['~']) && home is Some && (name.len() < 2 || name[1] >= '\u{80}')
}

/// The path at which the program `name` is looked for, given the home
/// directory.
pub fn program_location(name: &str, home: Option<String>) -> (r: String)
    requires
        !path_unreadable(name@, opt_view(home)),
    ensures
        r@ == program_path(name@, opt_view(home)),
{
    let n = chars_of(name);
    if n.len() > 0 && n[0] == '~' {
        assert(starts_with(n@, seq!['~'])) by {
            assert(n@.take(1) =~= seq!['~']);
        }
        match home {
            Some(h) => {
                let rest = slice(&n, 2, n.len());
                assert(rest@ =~= n@.skip(2));
                crate::parser::path_join(h.as_str(), string_of(&rest).as_str())
            },
            None => string_of(&n),
        }
    } else {
        proof {
            if starts_with(n@, seq!['~']) {
                assert(n@.take(1)[0] == n@[0]);
            }
        }
        string_of(&n)
    }
}

// ---------------------------------------------------------------------------
// Remembered answers
// ---------------------------------------------------------------------------

/// Whether each program was found, remembered until the cache is cleared.
pub struct CommandCache {
    entries: Vec<(String, bool)>,
}

impl CommandCache {
    /// No program appears twice.
    #[verifier::type_invariant]
    closed spec fn distinct(self) -> bool {
        forall|i: int, j: int|
            0 <= i < j < self.entries@.len() ==> self.entries@[i].0@ != self.entries@[j].0@
    }

    /// The remembered answers.
    pub closed spec fn view(self) -> Map<Seq<char>, bool> {
        Map::new(
            |k: Seq<char>| exists|i: int| 0 <= i < self.entries@.len() && self.entries@[i].0@ == k,
            |k: Seq<char>|
                self.entries@[choose|i: int| 0 <= i < self.entries@.len() && self.entries@[i].0@
                    == k].1,
        )
    }

    /// An empty cache.
    pub fn new() -> (c: CommandCache)
        ensures
            c@ == Map::<Seq<char>, bool>::empty(),
    {
        let c = CommandCache { entries: Vec::new() };
        assert(c@ =~= Map::<Seq<char>, bool>::empty());
        c
    }

    /// The remembered answer for `name`.
    pub fn lookup(&self, name: &str) -> (r: Option<bool>)
        ensures
            r == (if self@.contains_key(name@) {
                Some(self@[name@])
            } else {
                None
            }),
    {
        proof {
            use_type_invariant(self);
        }
        let mut i: usize = 0;
        while i < self.entries.len()
            invariant
                i <= self.entries@.len(),
                self.distinct(),
                forall|j: int| 0 <= j < i ==> self.entries@[j].0@ != name@,
            decreases self.entries@.len() - i,
        {
            if eq_chars(&chars_of(self.entries[i].0.as_str()), &chars_of(name)) {
                proof {
                    let k = name@;
                    assert(self@.contains_key(k));
                    let c = choose|j: int| 0 <= j < self.entries@.len() && self.entries@[j].0@ == k;
                    if c != i {
                        if c < i {
                            assert(self.entries@[c].0@ != self.entries@[i as int].0@);
                        } else {
                            assert(self.entries@[i as int].0@ != self.entries@[c].0@);
                        }
                    }
                }
                return Some(self.entries[i].1);
            }
            i = i + 1;
        }
        proof {
            assert(!self@.contains_key(name@));
        }
        None
    }

    /// Remembers the answer for `name`, in place of any remembered before.
    pub fn record(&mut self, name: &str, found: bool)
        ensures
            final(self)@ == old(self)@.insert(name@, found),
    {
        proof {
            use_type_invariant(&*self);
        }
        let ghost old_view = self@;
        let mut entries: Vec<(String, bool)> = Vec::new();
        std::mem::swap(&mut entries, &mut self.entries);
        let ghost before = entries@;
        let entry = (string_of(&chars_of(name)), found);
        let at = entry_position(&entries, name);
        match at {
            Some(p) => {
                entries.set(p, entry);
            },
            None => {
                entries.push(entry);
            },
        }
        let ghost post = CommandCache { entries: entries };
        proof {
            let after = entries@;
            match at {
                Some(p) => {
                    assert(after =~= before.update(p as int, entry));
                },
                None => {
                    assert(after =~= before.push(entry));
                },
            }
            assert forall|i: int, j: int| 0 <= i < j < after.len() implies after[i].0@ != after[j].0@ by {
                if j < before.len() {
                    if at != Some(i as usize) && at != Some(j as usize) {
                        assert(before[i].0@ != before[j].0@);
                    } else if at == Some(i as usize) {
                        assert(before[i].0@ != before[j].0@);
                    } else {
                        assert(before[i].0@ != before[j].0@);
                    }
                }
            }
            assert forall|k: Seq<char>| #[trigger] post@.contains_key(k) == old_view.insert(name@, found).contains_key(k) by {
                if k == name@ {
                    match at {
                        Some(p) => assert(after[p as int].0@ == k),
                        None => assert(after[before.len() as int].0@ == k),
                    }
                }
                if post@.contains_key(k) && k != name@ {
                    let c = choose|j: int| 0 <= j < after.len() && after[j].0@ == k;
                    assert(before[c].0@ == k);
                }
                if old_view.contains_key(k) && k != name@ {
                    let c = choose|j: int| 0 <= j < before.len() && before[j].0@ == k;
                    assert(after[c].0@ == k);
                }
            }
            assert forall|k: Seq<char>| #[trigger] post@.contains_key(k) implies post@[k] == old_view.insert(name@, found)[k] by {
                let c = choose|j: int| 0 <= j < after.len() && after[j].0@ == k;
                if k == name@ {
                    match at {
                        Some(p) => {
                            if c != p {
                                assert(after[p as int].0@ == k);
                                if c < p {
                                    assert(after[c].0@ != after[p as int].0@);
                                } else {
                                    assert(after[p as int].0@ != after[c].0@);
                                }
                            }
                        },
                        None => {
                            if c != before.len() {
                                assert(before[c].0@ == name@);
                            }
                        },
                    }
                } else {
                    assert(c < before.len());
                    assert(after[c] == before[c]);
                    let c0 = choose|j: int| 0 <= j < before.len() && before[j].0@ == k;
                    if c0 != c {
                        if c0 < c {
                            assert(before[c0].0@ != before[c].0@);
                        } else {
                            assert(before[c].0@ != before[c0].0@);
                        }
                    }
                }
            }
            assert(post@ =~= old_view.insert(name@, found));
        }
        self.entries = entries;
    }
}

/// Where `name` is remembered among `entries`, if it is.
fn entry_position(entries: &Vec<(String, bool)>, name: &str) -> (r: Option<usize>)
    ensures
        match r {
            Some(p) => p < entries@.len() && entries@[p as int].0@ == name@,
            None => forall|j: int| 0 <= j < entries@.len() ==> entries@[j].0@ != name@,
        },
{
    let mut i: usize = 0;
    while i < entries.len()
        invariant
            i <= entries@.len(),
            forall|j: int| 0 <= j < i ==> entries@[j].0@ != name@,
        decreases entries@.len() - i,
    {
        if eq_chars(&chars_of(entries[i].0.as_str()), &chars_of(name)) {
            return Some(i);
        }
        i = i + 1;
    }
    None
}

/// Forgets every remembered answer, so that programs installed or removed
/// since are seen.
pub fn invalidate_command_cache(cache: &mut CommandCache)
    ensures
        final(cache)@ == Map::<Seq<char>, bool>::empty(),
{
    *cache = CommandCache::new();
}

} // verus!
