//! Configuration variables (`$name = value`) and their substitution.
use crate::text::{chars_of, eq_chars, occurs_at, occurs_at_exec, starts_with};
use vstd::prelude::*;

verus! {

/// A map from variable names (with their `$`) to values.
pub struct VarMap {
    entries: Vec<(String, String)>,
}

/// The characters of each string of `v`.
pub open spec fn string_views(v: Seq<String>) -> Seq<Seq<char>> {
    v.map_values(|s: String| s@)
}

impl VarMap {
    /// No name is held twice.
    #[verifier::type_invariant]
    closed spec fn names_distinct(self) -> bool {
        forall|i: int, j: int|
            0 <= i < j < self.entries@.len() ==> self.entries@[i].0@ != self.entries@[j].0@
    }

    closed spec fn index_of(self, k: Seq<char>) -> int {
        choose|i: int| 0 <= i < self.entries@.len() && self.entries@[i].0@ == k
    }

    closed spec fn has(self, k: Seq<char>) -> bool {
        exists|i: int| 0 <= i < self.entries@.len() && self.entries@[i].0@ == k
    }

    /// The variables as a map from name to value.
    pub closed spec fn view(self) -> Map<Seq<char>, Seq<char>> {
        Map::new(|k: Seq<char>| self.has(k), |k: Seq<char>| self.entries@[self.index_of(k)].1@)
    }

    proof fn lemma_index(self, i: int)
        requires
            self.names_distinct(),
            0 <= i < self.entries@.len(),
        ensures
            self@.contains_key(self.entries@[i].0@),
            self@[self.entries@[i].0@] == self.entries@[i].1@,
            self.index_of(self.entries@[i].0@) == i,
    {
        let k = self.entries@[i].0@;
        assert(self.has(k));
        let j = self.index_of(k);
        assert(self.entries@[j].0@ == k);
        if j < i {
            assert(self.entries@[j].0@ != self.entries@[i].0@);
        }
        if i < j {
            assert(self.entries@[i].0@ != self.entries@[j].0@);
        }
    }

    /// An empty map.
    pub fn new() -> (m: VarMap)
        ensures
            m@ == Map::<Seq<char>, Seq<char>>::empty(),
    {
        let m = VarMap { entries: Vec::new() };
        assert(m@ =~= Map::<Seq<char>, Seq<char>>::empty());
        m
    }

    /// The number of variables.
    pub fn len(&self) -> (n: usize)
        ensures
            n == self@.dom().len(),
    {
        proof {
            use_type_invariant(self);
            self.lemma_dom_len();
        }
        self.entries.len()
    }

    proof fn lemma_dom_len(self)
        requires
            self.names_distinct(),
        ensures
            self@.dom().len() == self.entries@.len(),
            self@.dom() == string_views(self.entries@.map_values(|e: (String, String)| e.0)).to_set(),
    {
        let names = string_views(self.entries@.map_values(|e: (String, String)| e.0));
        assert forall|k: Seq<char>| self@.dom().contains(k) <==> names.to_set().contains(k) by {
            if self@.dom().contains(k) {
                let i = self.index_of(k);
                assert(names[i] == k);
            }
            if names.to_set().contains(k) {
                let i = choose|i: int| 0 <= i < names.len() && names[i] == k;
                assert(self.entries@[i].0@ == k);
            }
        }
        assert(self@.dom() =~= names.to_set());
        assert(names.no_duplicates()) by {
            assert forall|i: int, j: int|
                0 <= i < names.len() && 0 <= j < names.len() && i != j implies names[i]
                != names[j] by {
                if i < j {
                    assert(self.entries@[i].0@ != self.entries@[j].0@);
                } else {
                    assert(self.entries@[j].0@ != self.entries@[i].0@);
                }
            }
        }
        names.unique_seq_to_set();
    }

    /// The value of `name`, if it is defined.
    pub fn get_chars(&self, name: &[char]) -> (r: Option<Vec<char>>)
        ensures
            r is Some <==> self@.contains_key(name@),
            r matches Some(v) ==> v@ == self@[name@],
    {
        proof {
            use_type_invariant(self);
        }
        let mut i: usize = 0;
        while i < self.entries.len()
            invariant
                i <= self.entries@.len(),
                self.names_distinct(),
                forall|j: int| 0 <= j < i ==> self.entries@[j].0@ != name@,
            decreases self.entries@.len() - i,
        {
            let n = chars_of(self.entries[i].0.as_str());
            if eq_chars(&n, name) {
                proof {
                    self.lemma_index(i as int);
                }
                return Some(chars_of(self.entries[i].1.as_str()));
            }
            i = i + 1;
        }
        None
    }

    /// Replacing the entry of a defined name defines it anew.
    proof fn lemma_view_update(pre: Self, post: Self, i: int, name: String, value: String)
        requires
            pre.names_distinct(),
            0 <= i < pre.entries@.len(),
            pre.entries@[i].0@ == name@,
            post.entries@ == pre.entries@.update(i, (name, value)),
        ensures
            post.names_distinct(),
            post@ == pre@.insert(name@, value@),
    {
        assert(post.names_distinct()) by {
            assert forall|a: int, b: int| 0 <= a < b < post.entries@.len() implies post.entries@[a].0@
                != post.entries@[b].0@ by {
                assert(pre.entries@[a].0@ != pre.entries@[b].0@);
            }
        }
        assert forall|k: Seq<char>|
            post@.contains_key(k) <==> pre@.insert(name@, value@).contains_key(k) by {
            if post.has(k) {
                let j = choose|j: int| 0 <= j < post.entries@.len() && post.entries@[j].0@ == k;
                assert(pre.entries@[j].0@ == k);
            }
            if pre.has(k) {
                let j = choose|j: int| 0 <= j < pre.entries@.len() && pre.entries@[j].0@ == k;
                assert(post.entries@[j].0@ == k);
            }
            if k == name@ {
                assert(post.entries@[i].0@ == k);
            }
        }
        assert forall|k: Seq<char>| post@.contains_key(k) implies post@[k] == pre@.insert(
            name@,
            value@,
        )[k] by {
            let j = choose|j: int| 0 <= j < post.entries@.len() && post.entries@[j].0@ == k;
            post.lemma_index(j);
            if j != i {
                pre.lemma_index(j);
            }
        }
        assert(post@ =~= pre@.insert(name@, value@));
    }

    /// Adding an entry for a new name defines it.
    proof fn lemma_view_push(pre: Self, post: Self, name: String, value: String)
        requires
            pre.names_distinct(),
            forall|j: int| 0 <= j < pre.entries@.len() ==> pre.entries@[j].0@ != name@,
            post.entries@ == pre.entries@.push((name, value)),
        ensures
            post.names_distinct(),
            post@ == pre@.insert(name@, value@),
    {
        let last = pre.entries@.len() as int;
        assert(post.names_distinct()) by {
            assert forall|a: int, b: int| 0 <= a < b < post.entries@.len() implies post.entries@[a].0@
                != post.entries@[b].0@ by {
                if b < last {
                    assert(pre.entries@[a].0@ != pre.entries@[b].0@);
                }
            }
        }
        assert forall|k: Seq<char>|
            post@.contains_key(k) <==> pre@.insert(name@, value@).contains_key(k) by {
            if post.has(k) {
                let j = choose|j: int| 0 <= j < post.entries@.len() && post.entries@[j].0@ == k;
                if j != last {
                    assert(pre.entries@[j].0@ == k);
                }
            }
            if pre.has(k) {
                let j = choose|j: int| 0 <= j < pre.entries@.len() && pre.entries@[j].0@ == k;
                assert(post.entries@[j].0@ == k);
            }
            if k == name@ {
                assert(post.entries@[last].0@ == k);
            }
        }
        assert forall|k: Seq<char>| post@.contains_key(k) implies post@[k] == pre@.insert(
            name@,
            value@,
        )[k] by {
            let j = choose|j: int| 0 <= j < post.entries@.len() && post.entries@[j].0@ == k;
            post.lemma_index(j);
            if j != last {
                pre.lemma_index(j);
            }
        }
        assert(post@ =~= pre@.insert(name@, value@));
    }

    /// Defines `name` as `value`, replacing an earlier definition.
    pub fn insert(&mut self, name: String, value: String)
        ensures
            final(self)@ == old(self)@.insert(name@, value@),
    {
        proof {
            use_type_invariant(&*self);
        }
        let n = chars_of(name.as_str());
        let mut i: usize = 0;
        while i < self.entries.len()
            invariant
                i <= self.entries@.len(),
                *self == *old(self),
                self.names_distinct(),
                n@ == name@,
                forall|j: int| 0 <= j < i ==> self.entries@[j].0@ != name@,
            decreases self.entries@.len() - i,
        {
            let m = chars_of(self.entries[i].0.as_str());
            if eq_chars(&m, &n) {
                let mut entries: Vec<(String, String)> = Vec::new();
                std::mem::swap(&mut entries, &mut self.entries);
                let ghost name_v = name;
                let ghost value_v = value;
                entries.set(i, (name, value));
                let ghost post = VarMap { entries: entries };
                proof {
                    Self::lemma_view_update(*old(self), post, i as int, name_v, value_v);
                }
                self.entries = entries;
                return;
            }
            i = i + 1;
        }
        let mut entries: Vec<(String, String)> = Vec::new();
        std::mem::swap(&mut entries, &mut self.entries);
        let ghost name_v = name;
        let ghost value_v = value;
        entries.push((name, value));
        let ghost post = VarMap { entries: entries };
        proof {
            Self::lemma_view_push(*old(self), post, name_v, value_v);
        }
        self.entries = entries;
    }

    /// The names of the entries, in order.
    closed spec fn names(self) -> Seq<Seq<char>> {
        self.entries@.map_values(|e: (String, String)| e.0@)
    }

    /// The names, longest first: each defined name once.
    pub fn sorted_keys(&self) -> (keys: Vec<String>)
        ensures
            keys_cover(string_views(keys@), self@),
            sorted_by_len(string_views(keys@)),
    {
        proof {
            use_type_invariant(self);
        }
        let ghost names = self.names();
        let mut keys: Vec<String> = Vec::new();
        let mut lens: Vec<usize> = Vec::new();
        let mut i: usize = 0;
        while i < self.entries.len()
            invariant
                i <= self.entries@.len(),
                names == self.names(),
                self.names_distinct(),
                keys@.len() == lens@.len(),
                forall|j: int| 0 <= j < keys@.len() ==> lens@[j] == #[trigger] keys@[j]@.len(),
                sorted_by_len(string_views(keys@)),
                string_views(keys@).no_duplicates(),
                forall|k: Seq<char>|
                    string_views(keys@).contains(k) <==> names.take(i as int).contains(k),
            decreases self.entries@.len() - i,
        {
            let name = self.entries[i].0.clone();
            let nl = chars_of(name.as_str()).len();
            let mut p: usize = 0;
            while p < keys.len() && lens[p] >= nl
                invariant
                    p <= keys@.len(),
                    keys@.len() == lens@.len(),
                    forall|j: int| 0 <= j < p ==> keys@[j]@.len() >= nl,
                    forall|j: int| 0 <= j < keys@.len() ==> lens@[j] == #[trigger] keys@[j]@.len(),
                decreases keys@.len() - p,
            {
                p = p + 1;
            }
            let ghost old_keys = keys@;
            proof {
                assert(names[i as int] == name@);
                assert(!names.take(i as int).contains(name@)) by {
                    if names.take(i as int).contains(name@) {
                        let j = choose|j: int| 0 <= j < i && names.take(i as int)[j] == name@;
                        assert(self.entries@[j].0@ != self.entries@[i as int].0@);
                    }
                }
                lemma_insert_sorted(string_views(old_keys), p as int, name@);
            }
            keys.insert(p, name);
            lens.insert(p, nl);
            proof {
                assert(string_views(keys@) =~= string_views(old_keys).insert(p as int, name@));
                assert forall|j: int| 0 <= j < keys@.len() implies lens@[j] == #[trigger] keys@[
                    j
                ]@.len() by {
                    if j > p {
                        assert(keys@[j] == old_keys[j - 1]);
                    }
                }
                assert(names.take(i + 1) =~= names.take(i as int).push(name@));
                assert forall|k: Seq<char>|
                    string_views(keys@).contains(k) <==> names.take(i + 1).contains(k) by {
                    lemma_contains_insert(string_views(old_keys), p as int, name@, k);
                    lemma_contains_push(names.take(i as int), name@, k);
                }
            }
            i = i + 1;
        }
        proof {
            assert(names.take(i as int) =~= names);
            let ks = string_views(keys@);
            assert forall|k: Seq<char>| self@.contains_key(k) <==> ks.contains(k) by {
                if self@.contains_key(k) {
                    let m = self.index_of(k);
                    assert(names[m] == k);
                }
                if ks.contains(k) {
                    let m = choose|m: int| 0 <= m < names.len() && names[m] == k;
                    assert(self.entries@[m].0@ == k);
                    assert(self.has(k));
                }
            }
        }
        keys
    }
}

proof fn lemma_contains_push(s: Seq<Seq<char>>, x: Seq<char>, k: Seq<char>)
    ensures
        s.push(x).contains(k) <==> (s.contains(k) || k == x),
{
    if s.push(x).contains(k) && k != x {
        let j = choose|j: int| 0 <= j < s.push(x).len() && s.push(x)[j] == k;
        assert(s[j] == k);
    }
    if s.contains(k) {
        let j = choose|j: int| 0 <= j < s.len() && s[j] == k;
        assert(s.push(x)[j] == k);
    }
    if k == x {
        assert(s.push(x)[s.len() as int] == k);
    }
}

proof fn lemma_contains_insert(s: Seq<Seq<char>>, p: int, x: Seq<char>, k: Seq<char>)
    requires
        0 <= p <= s.len(),
    ensures
        s.insert(p, x).contains(k) <==> (s.contains(k) || k == x),
{
    let t = s.insert(p, x);
    if t.contains(k) && k != x {
        let j = choose|j: int| 0 <= j < t.len() && t[j] == k;
        if j < p {
            assert(s[j] == k);
        } else {
            assert(s[j - 1] == k);
        }
    }
    if s.contains(k) {
        let j = choose|j: int| 0 <= j < s.len() && s[j] == k;
        if j < p {
            assert(t[j] == k);
        } else {
            assert(t[j + 1] == k);
        }
    }
    if k == x {
        assert(t[p] == k);
    }
}

proof fn lemma_insert_sorted(s: Seq<Seq<char>>, p: int, x: Seq<char>)
    requires
        0 <= p <= s.len(),
        sorted_by_len(s),
        s.no_duplicates(),
        !s.contains(x),
        forall|j: int| 0 <= j < p ==> s[j].len() >= x.len(),
        p < s.len() ==> s[p].len() < x.len(),
    ensures
        sorted_by_len(s.insert(p, x)),
        s.insert(p, x).no_duplicates(),
{
    let t = s.insert(p, x);
    assert forall|a: int, b: int| 0 <= a < b < t.len() implies t[a].len() >= t[b].len() by {
        if b < p {
        } else if b == p {
        } else if a < p {
            assert(t[b] == s[b - 1]);
        } else if a == p {
            assert(t[b] == s[b - 1]);
            assert(s[p].len() >= s[b - 1].len() || b - 1 == p);
        } else {
            assert(t[a] == s[a - 1]);
            assert(t[b] == s[b - 1]);
        }
    }
    assert forall|a: int, b: int| 0 <= a < t.len() && 0 <= b < t.len() && a != b implies t[a]
        != t[b] by {
        if a != p && b != p {
            let sa = if a < p {
                a
            } else {
                a - 1
            };
            let sb = if b < p {
                b
            } else {
                b - 1
            };
            assert(t[a] == s[sa]);
            assert(t[b] == s[sb]);
        } else if a == p {
            let sb = if b < p {
                b
            } else {
                b - 1
            };
            assert(t[b] == s[sb]);
        } else {
            let sa = if a < p {
                a
            } else {
                a - 1
            };
            assert(t[a] == s[sa]);
        }
    }
}

/// `keys` lists each name of `m` exactly once, and nothing else.
pub open spec fn keys_cover(keys: Seq<Seq<char>>, m: Map<Seq<char>, Seq<char>>) -> bool {
    &&& keys.no_duplicates()
    &&& forall|k: Seq<char>| m.contains_key(k) <==> keys.contains(k)
}

/// No key is shorter than one after it.
pub open spec fn sorted_by_len(keys: Seq<Seq<char>>) -> bool {
    forall|a: int, b: int| 0 <= a < b < keys.len() ==> keys[a].len() >= keys[b].len()
}


// ---------------------------------------------------------------------------
// Substitution
// ---------------------------------------------------------------------------

/// `k` is a name that `m` defines and that `rem` starts with.
pub open spec fn names_prefix(rem: Seq<char>, m: Map<Seq<char>, Seq<char>>, k: Seq<char>) -> bool {
    k.len() > 0 && starts_with(rem, k) && m.contains_key(k)
}

/// The first key of `keys`, from index `j` on, that names a prefix of `rem`.
pub open spec fn first_key_from(
    rem: Seq<char>,
    m: Map<Seq<char>, Seq<char>>,
    keys: Seq<Seq<char>>,
    j: int,
) -> Option<Seq<char>>
    decreases keys.len() - j,
{
    if j < 0 || j >= keys.len() {
        None
    } else if names_prefix(rem, m, keys[j]) {
        Some(keys[j])
    } else {
        first_key_from(rem, m, keys, j + 1)
    }
}

pub proof fn lemma_first_key_from(
    rem: Seq<char>,
    m: Map<Seq<char>, Seq<char>>,
    keys: Seq<Seq<char>>,
    j: int,
)
    requires
        0 <= j <= keys.len(),
    ensures
        first_key_from(rem, m, keys, j) matches Some(k) ==> names_prefix(rem, m, k) && exists|
            i: int,
        |
            j <= i < keys.len() && keys[i] == k && forall|l: int|
                j <= l < i ==> !names_prefix(rem, m, #[trigger] keys[l]),
        first_key_from(rem, m, keys, j) is None ==> forall|l: int|
            j <= l < keys.len() ==> !names_prefix(rem, m, #[trigger] keys[l]),
    decreases keys.len() - j,
{
    if j < keys.len() && !names_prefix(rem, m, keys[j]) {
        lemma_first_key_from(rem, m, keys, j + 1);
        if let Some(k) = first_key_from(rem, m, keys, j + 1) {
            let i = choose|i: int|
                j + 1 <= i < keys.len() && keys[i] == k && forall|l: int|
                    j + 1 <= l < i ==> !names_prefix(rem, m, #[trigger] keys[l]);
            assert(forall|l: int| j <= l < i ==> !names_prefix(rem, m, #[trigger] keys[l]));
        }
    }
}

/// `s[i..]` with each `$` that starts a name of `keys` defined in `m`
/// replaced by that variable's value, the first such name in `keys` order
/// winning; other characters are kept.
pub open spec fn resolve_from(
    s: Seq<char>,
    i: int,
    m: Map<Seq<char>, Seq<char>>,
    keys: Seq<Seq<char>>,
) -> Seq<char>
    decreases s.len() - i,
{
    if i < 0 || i >= s.len() {
        seq![]
    } else if s[i] != '$' {
        seq![s[i]] + resolve_from(s, i + 1, m, keys)
    } else {
        match first_key_from(s.skip(i), m, keys, 0) {
            Some(k) => {
                proof {
                    lemma_first_key_from(s.skip(i), m, keys, 0);
                }
                m[k] + resolve_from(s, i + k.len(), m, keys)
            },
            None => seq!['$'] + resolve_from(s, i + 1, m, keys),
        }
    }
}

/// Variable substitution over the given key order.
pub open spec fn resolve(
    s: Seq<char>,
    m: Map<Seq<char>, Seq<char>>,
    keys: Seq<Seq<char>>,
) -> Seq<char> {
    resolve_from(s, 0, m, keys)
}

proof fn lemma_resolve_from_plain(s: Seq<char>, i: int, m: Map<Seq<char>, Seq<char>>, keys: Seq<Seq<char>>)
    requires
        0 <= i <= s.len(),
        !s.contains('$'),
    ensures
        resolve_from(s, i, m, keys) == s.skip(i),
    decreases s.len() - i,
{
    if i < s.len() {
        assert(s[i] != '$');
        lemma_resolve_from_plain(s, i + 1, m, keys);
        assert(seq![s[i]] + s.skip(i + 1) =~= s.skip(i));
    } else {
        assert(s.skip(i) =~= Seq::<char>::empty());
    }
}

/// Text that mentions no variable (holds no `$`) is left as it is by
/// variable substitution, whatever the variables.
pub proof fn lemma_resolve_without_variables(s: Seq<char>, m: Map<Seq<char>, Seq<char>>, keys: Seq<Seq<char>>)
    requires
        !s.contains('$'),
    ensures
        resolve(s, m, keys) == s,
{
    lemma_resolve_from_plain(s, 0, m, keys);
    assert(s.skip(0) =~= s);
}

/// The longest prefix of `rem`, at most `n` long, that names a variable.
pub open spec fn longest_name(rem: Seq<char>, m: Map<Seq<char>, Seq<char>>, n: int) -> Option<
    Seq<char>,
>
    decreases n,
{
    if n <= 0 {
        None
    } else if n <= rem.len() && m.contains_key(rem.take(n)) {
        Some(rem.take(n))
    } else {
        longest_name(rem, m, n - 1)
    }
}

/// `s[i..]` with each `$` that starts a defined name replaced by the value of
/// the longest such name.
pub open spec fn resolve_longest_from(s: Seq<char>, i: int, m: Map<Seq<char>, Seq<char>>) -> Seq<
    char,
>
    decreases s.len() - i,
{
    if i < 0 || i >= s.len() {
        seq![]
    } else if s[i] != '$' {
        seq![s[i]] + resolve_longest_from(s, i + 1, m)
    } else {
        match longest_name(s.skip(i), m, s.len() - i) {
            Some(k) => {
                proof {
                    lemma_longest_name(s.skip(i), m, s.len() - i);
                }
                m[k] + resolve_longest_from(s, i + k.len(), m)
            },
            None => seq!['$'] + resolve_longest_from(s, i + 1, m),
        }
    }
}

/// Variable substitution: at each `$`, the longest defined name there.
pub open spec fn resolve_longest(s: Seq<char>, m: Map<Seq<char>, Seq<char>>) -> Seq<char> {
    resolve_longest_from(s, 0, m)
}

pub proof fn lemma_longest_name(rem: Seq<char>, m: Map<Seq<char>, Seq<char>>, n: int)
    requires
        n <= rem.len(),
    ensures
        longest_name(rem, m, n) matches Some(k) ==> 0 < k.len() <= n && k == rem.take(
            k.len() as int,
        ) && m.contains_key(k) && forall|l: int|
            k.len() < l <= n ==> !m.contains_key(#[trigger] rem.take(l)),
        longest_name(rem, m, n) is None ==> forall|l: int|
            0 < l <= n ==> !m.contains_key(#[trigger] rem.take(l)),
    decreases n,
{
    if n > 0 && !m.contains_key(rem.take(n)) {
        lemma_longest_name(rem, m, n - 1);
    }
}

/// Substituting in the order of a key list that holds every defined name
/// once, longest first, is substituting the longest defined name.
pub proof fn lemma_sorted_keys_pick_longest(
    rem: Seq<char>,
    m: Map<Seq<char>, Seq<char>>,
    keys: Seq<Seq<char>>,
)
    requires
        keys_cover(keys, m),
        sorted_by_len(keys),
    ensures
        first_key_from(rem, m, keys, 0) == longest_name(rem, m, rem.len() as int),
{
    lemma_first_key_from(rem, m, keys, 0);
    lemma_longest_name(rem, m, rem.len() as int);
    match longest_name(rem, m, rem.len() as int) {
        Some(k) => {
            assert(keys.contains(k));
            let js = choose|js: int| 0 <= js < keys.len() && keys[js] == k;
            assert(names_prefix(rem, m, keys[js]));
            match first_key_from(rem, m, keys, 0) {
                Some(f) => {
                    let jf = choose|jf: int|
                        0 <= jf < keys.len() && keys[jf] == f && forall|l: int|
                            0 <= l < jf ==> !names_prefix(rem, m, #[trigger] keys[l]);
                    assert(jf <= js);
                    assert(f == rem.take(f.len() as int));
                    if f.len() > k.len() {
                        assert(!m.contains_key(rem.take(f.len() as int)));
                    }
                    if jf < js {
                        assert(keys[jf].len() >= keys[js].len());
                        assert(f =~= k);
                    }
                },
                None => {
                    assert(!names_prefix(rem, m, keys[js]));
                },
            }
        },
        None => {
            if let Some(f) = first_key_from(rem, m, keys, 0) {
                assert(f == rem.take(f.len() as int));
                assert(!m.contains_key(rem.take(f.len() as int)));
            }
        },
    }
}

/// Both orders of substitution agree from index `i` on.
pub proof fn lemma_resolve_sorted_from(
    s: Seq<char>,
    i: int,
    m: Map<Seq<char>, Seq<char>>,
    keys: Seq<Seq<char>>,
)
    requires
        keys_cover(keys, m),
        sorted_by_len(keys),
    ensures
        resolve_from(s, i, m, keys) == resolve_longest_from(s, i, m),
    decreases s.len() - i,
{
    if 0 <= i < s.len() {
        if s[i] != '$' {
            lemma_resolve_sorted_from(s, i + 1, m, keys);
        } else {
            lemma_sorted_keys_pick_longest(s.skip(i), m, keys);
            lemma_longest_name(s.skip(i), m, s.len() - i);
            match longest_name(s.skip(i), m, s.len() - i) {
                Some(k) => {
                    lemma_resolve_sorted_from(s, i + k.len(), m, keys);
                },
                None => {
                    lemma_resolve_sorted_from(s, i + 1, m, keys);
                },
            }
        }
    }
}

/// Substitution over a key list that holds every defined name once, longest
/// first, replaces each `$` by the value of the longest name that starts there.
pub proof fn lemma_resolve_sorted(s: Seq<char>, m: Map<Seq<char>, Seq<char>>, keys: Seq<Seq<char>>)
    requires
        keys_cover(keys, m),
        sorted_by_len(keys),
    ensures
        resolve(s, m, keys) == resolve_longest(s, m),
{
    lemma_resolve_sorted_from(s, 0, m, keys);
}

proof fn lemma_occurs_starts(s: Seq<char>, p: Seq<char>, i: int)
    requires
        0 <= i <= s.len(),
    ensures
        occurs_at(s, p, i) == starts_with(s.skip(i), p),
{
    if occurs_at(s, p, i) {
        assert(s.skip(i).take(p.len() as int) =~= s.subrange(i, i + p.len()));
    }
    if starts_with(s.skip(i), p) {
        assert(s.skip(i).take(p.len() as int) =~= s.subrange(i, i + p.len()));
    }
}

/// An empty name is never defined among `keys` (substituting one would never end).
pub open spec fn no_empty_name(keys: Seq<Seq<char>>, m: Map<Seq<char>, Seq<char>>) -> bool {
    forall|j: int| 0 <= j < keys.len() && keys[j].len() == 0 ==> !m.contains_key(#[trigger] keys[j])
}

/// The index in `keys` of the first defined name that occurs in `s` at `i`.
fn first_key_exec(s: &[char], i: usize, vars: &VarMap, keys: &Vec<Vec<char>>) -> (r: Option<usize>)
    requires
        i < s@.len(),
    ensures
        r matches Some(j) ==> j < keys@.len() && first_key_from(
            s@.skip(i as int),
            vars@,
            crate::text::views(keys@),
            0,
        ) == Some(keys@[j as int]@),
        r is None ==> first_key_from(s@.skip(i as int), vars@, crate::text::views(keys@), 0) is None,
{
    let ghost ks = crate::text::views(keys@);
    let mut j: usize = 0;
    while j < keys.len()
        invariant
            j <= keys@.len(),
            i < s@.len(),
            ks == crate::text::views(keys@),
            first_key_from(s@.skip(i as int), vars@, ks, 0) == first_key_from(
                s@.skip(i as int),
                vars@,
                ks,
                j as int,
            ),
        decreases keys@.len() - j,
    {
        let k = &keys[j];
        proof {
            lemma_occurs_starts(s@, k@, i as int);
        }
        if k.len() > 0 && occurs_at_exec(s, k, i) {
            if vars.get_chars(k).is_some() {
                return Some(j);
            }
        }
        j = j + 1;
    }
    None
}

/// Substitution on characters, trying `keys` in order at each `$`.
pub fn resolve_chars(s: &[char], vars: &VarMap, keys: &Vec<Vec<char>>) -> (r: Vec<char>)
    ensures
        r@ == resolve(s@, vars@, crate::text::views(keys@)),
{
    let ghost ks = crate::text::views(keys@);
    let mut out: Vec<char> = Vec::new();
    let mut i: usize = 0;
    while i < s.len()
        invariant
            i <= s@.len(),
            ks == crate::text::views(keys@),
            out@ + resolve_from(s@, i as int, vars@, ks) == resolve(s@, vars@, ks),
        decreases s@.len() - i,
    {
        if s[i] != '$' {
            out.push(s[i]);
            assert(out@ + resolve_from(s@, i + 1, vars@, ks) =~= resolve(s@, vars@, ks));
            i = i + 1;
        } else {
            match first_key_exec(s, i, vars, keys) {
                Some(j) => {
                    let k = &keys[j];
                    proof {
                        lemma_first_key_from(s@.skip(i as int), vars@, ks, 0);
                        assert(ks[j as int] == k@);
                        lemma_occurs_starts(s@, k@, i as int);
                    }
                    let v = vars.get_chars(k).unwrap();
                    crate::text::append(&mut out, &v);
                    assert(out@ + resolve_from(s@, i + k@.len(), vars@, ks) =~= resolve(
                        s@,
                        vars@,
                        ks,
                    ));
                    i = i + k.len();
                },
                None => {
                    out.push('$');
                    assert(out@ + resolve_from(s@, i + 1, vars@, ks) =~= resolve(s@, vars@, ks));
                    i = i + 1;
                },
            }
        }
    }
    assert(out@ + resolve_from(s@, i as int, vars@, ks) =~= out@);
    out
}

} // verus!
