//! A keybind as the list shows it: its fields, its lowercased search
//! texts, its conflict, broken and favorite marks, and whether it matches a
//! search.
use crate::parser::{opt_view, Keybind, KeybindView};
use crate::search::{fuzzy_accepts, fuzzy_matches, SearchQuery, SearchQueryView};
use crate::text::{chars_of, contains, contains_exec, eq_chars, lower_chars, string_of, lowercase};
use vstd::prelude::*;

verus! {

broadcast use vstd::string::group_string_axioms;

/// Whether `c` has the Unicode `Uppercase` property (`char::is_uppercase`).
pub uninterp spec fn unicode_uppercase(c: char) -> bool;

/// `char::is_uppercase`: `A`..`Z` among the ASCII characters, the Unicode
/// `Uppercase` property beyond them.
pub open spec fn uppercase_char(c: char) -> bool {
    if (c as u32) < 128 {
        'A' <= c && c <= 'Z'
    } else {
        unicode_uppercase(c)
    }
}

/// `char::is_uppercase`; its result is named, and for ASCII it is true
/// exactly of `A`..`Z` (std matches `'A'..='Z'` and tests the Unicode table
/// only above `'\x7f'`).
#[verifier::external_body]
fn is_uppercase(c: char) -> (r: bool)
    ensures
        r == uppercase_char(c),
        (c as u32) >= 128 ==> r == unicode_uppercase(c),
{
    c.is_uppercase()
}

/// The data of a listed keybind.
pub struct KeybindData {
    pub mods: String,
    pub clean_mods: String,
    pub flags: String,
    pub key: String,
    pub dispatcher: String,
    pub args: Option<String>,
    pub description: Option<String>,
    pub submap: Option<String>,
    pub line_number: u64,
    pub file_path: String,
    pub is_conflicted: bool,
    pub conflict_reason: Option<String>,
    pub is_favorite: bool,
    pub is_broken: bool,
    pub broken_reason: Option<String>,
    pub mods_lower: String,
    pub clean_mods_lower: String,
    pub key_lower: String,
    pub dispatcher_lower: String,
    pub args_lower: Option<String>,
    pub description_lower: Option<String>,
}

/// The data of a listed keybind as plain values.
pub ghost struct KeybindDataView {
    pub mods: Seq<char>,
    pub clean_mods: Seq<char>,
    pub flags: Seq<char>,
    pub key: Seq<char>,
    pub dispatcher: Seq<char>,
    pub args: Option<Seq<char>>,
    pub description: Option<Seq<char>>,
    pub submap: Option<Seq<char>>,
    pub line_number: int,
    pub file_path: Seq<char>,
    pub is_conflicted: bool,
    pub conflict_reason: Option<Seq<char>>,
    pub is_favorite: bool,
    pub is_broken: bool,
    pub broken_reason: Option<Seq<char>>,
    pub mods_lower: Seq<char>,
    pub clean_mods_lower: Seq<char>,
    pub key_lower: Seq<char>,
    pub dispatcher_lower: Seq<char>,
    pub args_lower: Option<Seq<char>>,
    pub description_lower: Option<Seq<char>>,
}

impl View for KeybindData {
    type V = KeybindDataView;

    open spec fn view(&self) -> KeybindDataView {
        KeybindDataView {
            mods: self.mods@,
            clean_mods: self.clean_mods@,
            flags: self.flags@,
            key: self.key@,
            dispatcher: self.dispatcher@,
            args: opt_view(self.args),
            description: opt_view(self.description),
            submap: opt_view(self.submap),
            line_number: self.line_number as int,
            file_path: self.file_path@,
            is_conflicted: self.is_conflicted,
            conflict_reason: opt_view(self.conflict_reason),
            is_favorite: self.is_favorite,
            is_broken: self.is_broken,
            broken_reason: opt_view(self.broken_reason),
            mods_lower: self.mods_lower@,
            clean_mods_lower: self.clean_mods_lower@,
            key_lower: self.key_lower@,
            dispatcher_lower: self.dispatcher_lower@,
            args_lower: opt_view(self.args_lower),
            description_lower: opt_view(self.description_lower),
        }
    }
}

/// A keybind of the list.
pub struct KeybindObject {
    pub data: KeybindData,
}

/// An optional text, absent when it is empty.
pub open spec fn nonempty(o: Option<Seq<char>>) -> Option<Seq<char>> {
    match o {
        Some(s) => if s.len() > 0 {
            Some(s)
        } else {
            None
        },
        None => None,
    }
}

fn nonempty_exec(o: Option<String>) -> (r: Option<String>)
    ensures
        opt_view(r) == nonempty(opt_view(o)),
{
    match o {
        Some(s) => if chars_of(s.as_str()).len() > 0 {
            Some(s)
        } else {
            None
        },
        None => None,
    }
}

/// The data a listed keybind holds, made from a keybind, its marks and its
/// lowercased texts: empty arguments, description and submap are absent,
/// and a keybind is conflicting or broken exactly when it has a reason.
pub open spec fn object_data(
    kb: KeybindView,
    conflict_reason: Option<Seq<char>>,
    broken_reason: Option<Seq<char>>,
    is_favorite: bool,
    mods_lower: Seq<char>,
    clean_mods_lower: Seq<char>,
    key_lower: Seq<char>,
    dispatcher_lower: Seq<char>,
    args_lower: Option<Seq<char>>,
    description_lower: Option<Seq<char>>,
    flags: Seq<char>,
) -> KeybindDataView {
    KeybindDataView {
        mods: kb.mods,
        clean_mods: kb.clean_mods,
        flags: flags,
        key: kb.key,
        dispatcher: kb.dispatcher,
        args: if kb.args.len() == 0 {
            None
        } else {
            Some(kb.args)
        },
        description: nonempty(kb.description),
        submap: nonempty(kb.submap),
        line_number: kb.line_number,
        file_path: kb.file_path,
        is_conflicted: conflict_reason is Some,
        conflict_reason: conflict_reason,
        is_favorite: is_favorite,
        is_broken: broken_reason is Some,
        broken_reason: broken_reason,
        mods_lower: mods_lower,
        clean_mods_lower: clean_mods_lower,
        key_lower: key_lower,
        dispatcher_lower: dispatcher_lower,
        args_lower: args_lower,
        description_lower: description_lower,
    }
}

// ---------------------------------------------------------------------------
// Matching a search
// ---------------------------------------------------------------------------

/// `o` is present and holds `p`.
pub open spec fn opt_contains(o: Option<Seq<char>>, p: Seq<char>) -> bool {
    match o {
        Some(a) => contains(a, p),
        None => false,
    }
}

/// The category filter of the list: all (0), workspaces (1), windows (2),
/// media (3), `exec` commands (4), mouse (5), favorites (6); unknown
/// categories let everything through.
pub open spec fn category_match(d: KeybindDataView, category: u32) -> bool {
    let disp = d.dispatcher_lower;
    if category == 0 {
        true
    } else if category == 1 {
        contains(disp, "workspace"@) || contains(disp, "movetoworkspace"@)
    } else if category == 2 {
        contains(disp, "window"@) || contains(disp, "active"@) || contains(disp, "focus"@) || contains(
            disp,
            "fullscreen"@,
        ) || contains(disp, "group"@) || contains(disp, "split"@) || contains(disp, "pin"@)
    } else if category == 3 {
        opt_contains(d.args_lower, "volume"@) || opt_contains(d.args_lower, "brightness"@)
            || opt_contains(d.args_lower, "playerctl"@) || contains(disp, "audio"@)
    } else if category == 4 {
        disp == "exec"@
    } else if category == 5 {
        contains(d.key_lower, "mouse"@)
    } else if category == 6 {
        d.is_favorite
    } else {
        true
    }
}

/// Every field filter of the query holds in the lowercased texts.
pub open spec fn filters_match(d: KeybindDataView, q: SearchQueryView) -> bool {
    &&& (q.mods matches Some(m) ==> contains(d.mods_lower, m) || contains(d.clean_mods_lower, m))
    &&& (q.key matches Some(k) ==> contains(d.key_lower, k))
    &&& (q.action matches Some(a) ==> contains(d.dispatcher_lower, a))
    &&& (q.args matches Some(a) ==> opt_contains(d.args_lower, a))
    &&& (q.description matches Some(s) ==> opt_contains(d.description_lower, s))
}

/// Some lowercased text holds `t`.
pub open spec fn text_match(d: KeybindDataView, t: Seq<char>) -> bool {
    contains(d.mods_lower, t) || contains(d.clean_mods_lower, t) || contains(d.key_lower, t)
        || contains(d.dispatcher_lower, t) || opt_contains(d.args_lower, t) || opt_contains(
        d.description_lower,
        t,
    )
}

/// The fuzzy matcher accepts `t` for some lowercased text.
pub open spec fn fuzzy_match_any(d: KeybindDataView, t: Seq<char>) -> bool {
    fuzzy_accepts(d.mods_lower, t) || fuzzy_accepts(d.clean_mods_lower, t) || fuzzy_accepts(
        d.key_lower,
        t,
    ) || fuzzy_accepts(d.dispatcher_lower, t) || (match d.args_lower {
        Some(a) => fuzzy_accepts(a, t),
        None => false,
    }) || (match d.description_lower {
        Some(s) => fuzzy_accepts(s, t),
        None => false,
    })
}

/// A listed keybind matches a search in a category: the category admits
/// it, every field filter holds, and the free text (if any) occurs in one
/// of its texts or fuzzily matches one.
pub open spec fn query_matches(d: KeybindDataView, q: SearchQueryView, category: u32) -> bool {
    &&& category_match(d, category)
    &&& filters_match(d, q)
    &&& (q.general_query.len() == 0 || text_match(d, q.general_query) || fuzzy_match_any(
        d,
        q.general_query,
    ))
}

fn holds_text(s: &String, p: &str) -> (r: bool)
    ensures
        r == contains(s@, p@),
{
    contains_exec(&chars_of(s.as_str()), &chars_of(p))
}

fn opt_holds_text(o: &Option<String>, p: &str) -> (r: bool)
    ensures
        r == opt_contains(opt_view(*o), p@),
{
    match o {
        Some(a) => holds_text(a, p),
        None => false,
    }
}

impl KeybindObject {
    /// The data the object holds.
    pub open spec fn data_view(&self) -> KeybindDataView {
        self.data@
    }

    /// A listed keybind from a keybind, its marks and its lowercased texts.
    pub fn new(
        keybind: Keybind,
        conflict_reason: Option<String>,
        broken_reason: Option<String>,
        is_favorite: bool,
        mods_lower: String,
        clean_mods_lower: String,
        key_lower: String,
        dispatcher_lower: String,
        args_lower: Option<String>,
        description_lower: Option<String>,
        flags: String,
    ) -> (r: KeybindObject)
        ensures
            r.data_view() == object_data(
                keybind@,
                opt_view(conflict_reason),
                opt_view(broken_reason),
                is_favorite,
                mods_lower@,
                clean_mods_lower@,
                key_lower@,
                dispatcher_lower@,
                opt_view(args_lower),
                opt_view(description_lower),
                flags@,
            ),
    {
        let ghost kv = keybind@;
        let args = if chars_of(keybind.args.as_str()).len() == 0 {
            None
        } else {
            Some(keybind.args)
        };
        let is_conflicted = conflict_reason.is_some();
        let is_broken = broken_reason.is_some();
        let data = KeybindData {
            mods: keybind.mods,
            clean_mods: keybind.clean_mods,
            flags: flags,
            key: keybind.key,
            dispatcher: keybind.dispatcher,
            args: args,
            description: nonempty_exec(keybind.description),
            submap: nonempty_exec(keybind.submap),
            line_number: keybind.line_number as u64,
            file_path: keybind.file_path,
            is_conflicted: is_conflicted,
            conflict_reason: conflict_reason,
            is_favorite: is_favorite,
            is_broken: is_broken,
            broken_reason: broken_reason,
            mods_lower: mods_lower,
            clean_mods_lower: clean_mods_lower,
            key_lower: key_lower,
            dispatcher_lower: dispatcher_lower,
            args_lower: args_lower,
            description_lower: description_lower,
        };
        KeybindObject { data }
    }

    /// Calls `f` on the object's data and returns what it returns.
    pub fn with_data<F, R>(&self, f: F) -> (r: R)
        where
            F: FnOnce(&KeybindData) -> R,
        requires
            call_requires(f, (&self.data,)),
        ensures
            call_ensures(f, (&self.data,), r),
    {
        f(&self.data)
    }

    /// Whether the keybind is shown for the search `query` in `category`.
    pub fn matches_query(&self, query: &SearchQuery, category: u32) -> (r: bool)
        ensures
            r == query_matches(self.data_view(), query@, category),
    {
        let d = &self.data;
        let cat = if category == 0 {
            true
        } else if category == 1 {
            holds_text(&d.dispatcher_lower, "workspace") || holds_text(&d.dispatcher_lower, "movetoworkspace")
        } else if category == 2 {
            holds_text(&d.dispatcher_lower, "window") || holds_text(&d.dispatcher_lower, "active") || holds_text(
                &d.dispatcher_lower,
                "focus",
            ) || holds_text(&d.dispatcher_lower, "fullscreen") || holds_text(&d.dispatcher_lower, "group") || holds_text(
                &d.dispatcher_lower,
                "split",
            ) || holds_text(&d.dispatcher_lower, "pin")
        } else if category == 3 {
            opt_holds_text(&d.args_lower, "volume") || opt_holds_text(&d.args_lower, "brightness") || opt_holds_text(
                &d.args_lower,
                "playerctl",
            ) || holds_text(&d.dispatcher_lower, "audio")
        } else if category == 4 {
            eq_chars(&chars_of(d.dispatcher_lower.as_str()), &chars_of("exec"))
        } else if category == 5 {
            holds_text(&d.key_lower, "mouse")
        } else if category == 6 {
            d.is_favorite
        } else {
            true
        };
        if !cat {
            return false;
        }
        if let Some(m) = &query.mods {
            if !holds_text(&d.mods_lower, m.as_str()) && !holds_text(&d.clean_mods_lower, m.as_str()) {
                return false;
            }
        }
        if let Some(k) = &query.key {
            if !holds_text(&d.key_lower, k.as_str()) {
                return false;
            }
        }
        if let Some(a) = &query.action {
            if !holds_text(&d.dispatcher_lower, a.as_str()) {
                return false;
            }
        }
        if let Some(a) = &query.args {
            if !opt_holds_text(&d.args_lower, a.as_str()) {
                return false;
            }
        }
        if let Some(s) = &query.description {
            if !opt_holds_text(&d.description_lower, s.as_str()) {
                return false;
            }
        }
        let t = query.general_query.as_str();
        if chars_of(t).len() == 0 {
            return true;
        }
        if holds_text(&d.mods_lower, t) || holds_text(&d.clean_mods_lower, t) || holds_text(&d.key_lower, t) || holds_text(
            &d.dispatcher_lower,
            t,
        ) || opt_holds_text(&d.args_lower, t) || opt_holds_text(&d.description_lower, t) {
            return true;
        }
        fuzzy_matches(d.mods_lower.as_str(), t) || fuzzy_matches(d.clean_mods_lower.as_str(), t)
            || fuzzy_matches(d.key_lower.as_str(), t) || fuzzy_matches(d.dispatcher_lower.as_str(), t)
            || (match &d.args_lower {
            Some(a) => fuzzy_matches(a.as_str(), t),
            None => false,
        }) || (match &d.description_lower {
            Some(s) => fuzzy_matches(s.as_str(), t),
            None => false,
        })
    }
}

// ---------------------------------------------------------------------------
// Building the list's objects
// ---------------------------------------------------------------------------

/// `s` lowercased when it holds an uppercase character, else unchanged.
pub open spec fn lower_if_upper(s: Seq<char>) -> Seq<char> {
    if exists|i: int| 0 <= i < s.len() && uppercase_char(#[trigger] s[i]) {
        lowercase(s)
    } else {
        s
    }
}

fn lower_if_upper_exec(s: &str) -> (r: String)
    ensures
        r@ == lower_if_upper(s@),
{
    let c = chars_of(s);
    let mut i: usize = 0;
    while i < c.len()
        invariant
            i <= c@.len(),
            c@ == s@,
            forall|j: int| 0 <= j < i ==> !uppercase_char(#[trigger] c@[j]),
        decreases c@.len() - i,
    {
        if is_uppercase(c[i]) {
            return string_of(&lower_chars(&c));
        }
        i = i + 1;
    }
    string_of(&c)
}

/// The object the list shows for a keybind with its conflict and broken
/// reasons and favorite mark: its search texts are its fields lowercased
/// (each only when it holds an uppercase character), the arguments' text
/// absent when they are empty.
pub open spec fn entry_data(
    kb: KeybindView,
    conflict_reason: Option<Seq<char>>,
    broken_reason: Option<Seq<char>>,
    is_favorite: bool,
) -> KeybindDataView {
    object_data(
        kb,
        conflict_reason,
        broken_reason,
        is_favorite,
        lower_if_upper(kb.mods),
        lower_if_upper(kb.clean_mods),
        lower_if_upper(kb.key),
        lower_if_upper(kb.dispatcher),
        if kb.args.len() == 0 {
            None
        } else {
            Some(lower_if_upper(kb.args))
        },
        match kb.description {
            Some(d) => Some(lower_if_upper(d)),
            None => None,
        },
        kb.flags,
    )
}

/// The list object of a keybind, with its marks.
pub fn keybind_entry(
    kb: Keybind,
    conflict_reason: Option<String>,
    broken_reason: Option<String>,
    is_favorite: bool,
) -> (r: KeybindObject)
    ensures
        r.data_view() == entry_data(kb@, opt_view(conflict_reason), opt_view(broken_reason), is_favorite),
{
    let mods_lower = lower_if_upper_exec(kb.mods.as_str());
    let clean_mods_lower = lower_if_upper_exec(kb.clean_mods.as_str());
    let key_lower = lower_if_upper_exec(kb.key.as_str());
    let dispatcher_lower = lower_if_upper_exec(kb.dispatcher.as_str());
    let args_lower = if chars_of(kb.args.as_str()).len() == 0 {
        None
    } else {
        Some(lower_if_upper_exec(kb.args.as_str()))
    };
    let description_lower = match &kb.description {
        Some(d) => Some(lower_if_upper_exec(d.as_str())),
        None => None,
    };
    let flags = kb.flags.clone();
    KeybindObject::new(
        kb,
        conflict_reason,
        broken_reason,
        is_favorite,
        mods_lower,
        clean_mods_lower,
        key_lower,
        dispatcher_lower,
        args_lower,
        description_lower,
        flags,
    )
}

// ---------------------------------------------------------------------------
// Rebuilding the list
// ---------------------------------------------------------------------------

/// The favorite that a keybind is stored as: its modifiers as written
/// without variables, key, submap (none as empty), dispatcher and arguments.
pub open spec fn favorite_of(kb: KeybindView) -> crate::favorites::FavoriteView {
    crate::favorites::FavoriteView {
        mods: kb.clean_mods,
        key: kb.key,
        submap: match kb.submap {
            Some(s) => s,
            None => seq![],
        },
        dispatcher: kb.dispatcher,
        args: kb.args,
    }
}

fn copy_keybind(k: &Keybind) -> (r: Keybind)
    ensures
        r@ == k@,
{
    Keybind {
        mods: k.mods.clone(),
        clean_mods: k.clean_mods.clone(),
        flags: k.flags.clone(),
        key: k.key.clone(),
        dispatcher: k.dispatcher.clone(),
        args: k.args.clone(),
        description: match &k.description {
            Some(d) => Some(d.clone()),
            None => None,
        },
        submap: match &k.submap {
            Some(s) => Some(s.clone()),
            None => None,
        },
        line_number: k.line_number,
        file_path: k.file_path.clone(),
    }
}

fn copy_opt(o: &Option<String>) -> (r: Option<String>)
    ensures
        opt_view(r) == opt_view(*o),
{
    match o {
        Some(s) => Some(s.clone()),
        None => None,
    }
}

/// The list objects of the keybinds read, each with its conflict and broken
/// marks (by position) and whether it is among the favorites; as many as the
/// shortest of the three lists.
pub fn keybind_entries(
    keybinds: &[Keybind],
    conflicts: &[Option<String>],
    broken: &[Option<String>],
    favs: &[crate::favorites::FavoriteKeybind],
) -> (r: Vec<KeybindObject>)
    ensures
        r@.len() == vstd::math::min(vstd::math::min(keybinds@.len() as int, conflicts@.len() as int), broken@.len() as int),
        forall|i: int|
            0 <= i < r@.len() ==> (#[trigger] r@[i]).data_view() == entry_data(
                keybinds@[i]@,
                opt_view(conflicts@[i]),
                opt_view(broken@[i]),
                crate::favorites::favorite_views(favs@).contains(favorite_of(keybinds@[i]@)),
            ),
{
    let mut n = keybinds.len();
    if conflicts.len() < n {
        n = conflicts.len();
    }
    if broken.len() < n {
        n = broken.len();
    }
    let mut r: Vec<KeybindObject> = Vec::new();
    let mut i: usize = 0;
    while i < n
        invariant
            i <= n,
            n <= keybinds@.len(),
            n <= conflicts@.len(),
            n <= broken@.len(),
            r@.len() == i,
            forall|j: int|
                0 <= j < i ==> (#[trigger] r@[j]).data_view() == entry_data(
                    keybinds@[j]@,
                    opt_view(conflicts@[j]),
                    opt_view(broken@[j]),
                    crate::favorites::favorite_views(favs@).contains(favorite_of(keybinds@[j]@)),
                ),
        decreases n - i,
    {
        let kb = &keybinds[i];
        let submap: &str = match &kb.submap {
            Some(s) => s.as_str(),
            None => "",
        };
        proof {
            reveal_strlit("");
            if kb.submap is None {
                assert(submap@ =~= Seq::<char>::empty());
            } else {
                assert(submap@ == kb.submap->0@);
            }
        }
        let fav = crate::favorites::is_favorite(
            favs,
            kb.clean_mods.as_str(),
            kb.key.as_str(),
            submap,
            kb.dispatcher.as_str(),
            kb.args.as_str(),
        );
        assert(crate::favorites::FavoriteView {
            mods: kb.clean_mods@,
            key: kb.key@,
            submap: submap@,
            dispatcher: kb.dispatcher@,
            args: kb.args@,
        } == favorite_of(kb@));
        let e = keybind_entry(copy_keybind(kb), copy_opt(&conflicts[i]), copy_opt(&broken[i]), fav);
        r.push(e);
        i = i + 1;
    }
    r
}

/// The listed keybind shows the keybind read: the same fields, arguments
/// absent standing for empty ones.
pub open spec fn shows_keybind(d: KeybindDataView, kb: KeybindView) -> bool {
    &&& d.mods == kb.mods
    &&& d.key == kb.key
    &&& d.dispatcher == kb.dispatcher
    &&& crate::export::text_or_empty(d.args) == kb.args
    &&& d.submap == kb.submap
    &&& d.description == kb.description
    &&& d.flags == kb.flags
}

/// The list already shows the keybinds read, one for one.
pub open spec fn list_shows(ds: Seq<KeybindDataView>, ks: Seq<KeybindView>) -> bool {
    ds.len() == ks.len() && forall|i: int| 0 <= i < ds.len() ==> shows_keybind(#[trigger] ds[i], ks[i])
}

fn same_opt(a: &Option<String>, b: &Option<String>) -> (r: bool)
    ensures
        r == (opt_view(*a) == opt_view(*b)),
{
    match (a, b) {
        (Some(x), Some(y)) => eq_chars(&chars_of(x.as_str()), &chars_of(y.as_str())),
        (None, None) => true,
        _ => false,
    }
}

fn same_text(a: &String, b: &String) -> (r: bool)
    ensures
        r == (a@ == b@),
{
    eq_chars(&chars_of(a.as_str()), &chars_of(b.as_str()))
}

/// Whether the list already shows the keybinds read, so that reloading
/// need not rebuild it.
pub fn entries_match(objects: &[KeybindObject], keybinds: &[Keybind]) -> (r: bool)
    ensures
        r == list_shows(crate::export::object_views(objects@), crate::parser::keybind_views(keybinds@)),
{
    let ghost ds = crate::export::object_views(objects@);
    let ghost ks = crate::parser::keybind_views(keybinds@);
    if objects.len() != keybinds.len() {
        return false;
    }
    let mut i: usize = 0;
    while i < objects.len()
        invariant
            i <= objects@.len(),
            objects@.len() == keybinds@.len(),
            ds == crate::export::object_views(objects@),
            ks == crate::parser::keybind_views(keybinds@),
            forall|j: int| 0 <= j < i ==> shows_keybind(#[trigger] ds[j], ks[j]),
        decreases objects@.len() - i,
    {
        let d = &objects[i].data;
        let kb = &keybinds[i];
        assert(ds[i as int] == d@ && ks[i as int] == kb@);
        let args_same = match &d.args {
            Some(a) => same_text(a, &kb.args),
            None => {
                let empty = chars_of(kb.args.as_str()).len() == 0;
                proof {
                    if empty {
                        assert(kb.args@ =~= Seq::<char>::empty());
                    }
                }
                empty
            },
        };
        let same = same_text(&d.mods, &kb.mods) && same_text(&d.key, &kb.key) && same_text(&d.dispatcher, &kb.dispatcher)
            && args_same && same_opt(&d.submap, &kb.submap) && same_opt(&d.description, &kb.description)
            && same_text(&d.flags, &kb.flags);
        if !same {
            assert(!shows_keybind(ds[i as int], ks[i as int]));
            return false;
        }
        i = i + 1;
    }
    true
}

// ---------------------------------------------------------------------------
// What the categories admit
// ---------------------------------------------------------------------------

/// The search that asks for nothing: no field filter and no free text.
pub open spec fn empty_query(q: SearchQueryView) -> bool {
    q.mods is None && q.key is None && q.action is None && q.args is None && q.description is None
        && q.general_query.len() == 0
}

/// The arguments are given and `p` stands in them.
pub open spec fn args_hold(d: KeybindDataView, p: Seq<char>) -> bool {
    match d.args_lower {
        Some(a) => crate::text::occurs_in(a, p),
        None => false,
    }
}

/// With nothing searched for, a keybind is listed in a category exactly
/// when the category admits it: everything in "all" (0) and in unknown
/// categories; in "workspaces" (1) a dispatcher naming `workspace`; in
/// "windows" (2) one naming `window`, `active`, `focus`, `fullscreen`,
/// `group`, `split` or `pin`; in "media" (3) arguments naming `volume`,
/// `brightness` or `playerctl`, or a dispatcher naming `audio`; in
/// "commands" (4) the dispatcher `exec`; in "mouse" (5) a key naming
/// `mouse`; in "favorites" (6) a favorite. A search that asks for more
/// lists no keybind that the category does not admit.
pub proof fn lemma_category_listing(d: KeybindDataView, q: SearchQueryView, category: u32)
    ensures
        empty_query(q) ==> (query_matches(d, q, category) <==> (if category == 1 {
            crate::text::occurs_in(d.dispatcher_lower, "workspace"@)
        } else if category == 2 {
            crate::text::occurs_in(d.dispatcher_lower, "window"@) || crate::text::occurs_in(d.dispatcher_lower, "active"@)
                || crate::text::occurs_in(d.dispatcher_lower, "focus"@) || crate::text::occurs_in(
                d.dispatcher_lower,
                "fullscreen"@,
            ) || crate::text::occurs_in(d.dispatcher_lower, "group"@) || crate::text::occurs_in(
                d.dispatcher_lower,
                "split"@,
            ) || crate::text::occurs_in(d.dispatcher_lower, "pin"@)
        } else if category == 3 {
            args_hold(d, "volume"@) || args_hold(d, "brightness"@) || args_hold(d, "playerctl"@)
                || crate::text::occurs_in(d.dispatcher_lower, "audio"@)
        } else if category == 4 {
            d.dispatcher_lower == "exec"@
        } else if category == 5 {
            crate::text::occurs_in(d.key_lower, "mouse"@)
        } else if category == 6 {
            d.is_favorite
        } else {
            true
        })),
        query_matches(d, q, category) ==> query_matches(
            d,
            SearchQueryView {
                mods: None,
                key: None,
                action: None,
                args: None,
                description: None,
                general_query: seq![],
            },
            category,
        ),
{
    let dl = d.dispatcher_lower;
    crate::text::lemma_contains_occurs(dl, "workspace"@);
    crate::text::lemma_contains_occurs(dl, "movetoworkspace"@);
    crate::text::lemma_contains_occurs(dl, "window"@);
    crate::text::lemma_contains_occurs(dl, "active"@);
    crate::text::lemma_contains_occurs(dl, "focus"@);
    crate::text::lemma_contains_occurs(dl, "fullscreen"@);
    crate::text::lemma_contains_occurs(dl, "group"@);
    crate::text::lemma_contains_occurs(dl, "split"@);
    crate::text::lemma_contains_occurs(dl, "pin"@);
    crate::text::lemma_contains_occurs(dl, "audio"@);
    crate::text::lemma_contains_occurs(d.key_lower, "mouse"@);
    if let Some(a) = d.args_lower {
        crate::text::lemma_contains_occurs(a, "volume"@);
        crate::text::lemma_contains_occurs(a, "brightness"@);
        crate::text::lemma_contains_occurs(a, "playerctl"@);
    }
    // A dispatcher naming `movetoworkspace` names `workspace`.
    if crate::text::occurs_in(dl, "movetoworkspace"@) {
        reveal_strlit("movetoworkspace");
        reveal_strlit("workspace");
        let i = choose|i: int|
            0 <= i && i + "movetoworkspace"@.len() <= dl.len() && #[trigger] dl.subrange(i, i + "movetoworkspace"@.len())
                == "movetoworkspace"@;
        assert(dl.subrange(i + 6, i + 6 + "workspace"@.len()) =~= "workspace"@) by {
            assert forall|k: int| 0 <= k < 9 implies dl.subrange(i + 6, i + 15)[k] == "workspace"@[k] by {
                assert(dl.subrange(i + 6, i + 15)[k] == dl.subrange(i, i + 15)[k + 6]);
            }
        }
    }
}

/// The description is given and `p` stands in it.
pub open spec fn description_holds(d: KeybindDataView, p: Seq<char>) -> bool {
    match d.description_lower {
        Some(s) => crate::text::occurs_in(s, p),
        None => false,
    }
}

/// `t` stands in one of the lowercased texts of the keybind.
pub open spec fn some_text_holds(d: KeybindDataView, t: Seq<char>) -> bool {
    crate::text::occurs_in(d.mods_lower, t) || crate::text::occurs_in(d.clean_mods_lower, t)
        || crate::text::occurs_in(d.key_lower, t) || crate::text::occurs_in(d.dispatcher_lower, t)
        || args_hold(d, t) || description_holds(d, t)
}

/// Each field filter of a search admits only keybinds whose field holds
/// its text (`mod:` the modifiers as written or resolved, `key:` the key,
/// `act:` the dispatcher, `args:` the arguments, `desc:` the description),
/// and free text admits only keybinds one of whose texts holds it or
/// fuzzily matches it. Conversely a keybind that the category admits,
/// whose fields hold every filter's text and one of whose texts holds the
/// free text (if any) is listed.
pub proof fn lemma_query_filters(d: KeybindDataView, q: SearchQueryView, category: u32)
    ensures
        query_matches(d, q, category) ==> {
            &&& (q.mods matches Some(m) ==> crate::text::occurs_in(d.mods_lower, m) || crate::text::occurs_in(
                d.clean_mods_lower,
                m,
            ))
            &&& (q.key matches Some(k) ==> crate::text::occurs_in(d.key_lower, k))
            &&& (q.action matches Some(a) ==> crate::text::occurs_in(d.dispatcher_lower, a))
            &&& (q.args matches Some(a) ==> args_hold(d, a))
            &&& (q.description matches Some(s) ==> description_holds(d, s))
            &&& (q.general_query.len() > 0 ==> some_text_holds(d, q.general_query) || fuzzy_match_any(
                d,
                q.general_query,
            ))
        },
        ({
            &&& query_matches(
                d,
                SearchQueryView {
                    mods: None,
                    key: None,
                    action: None,
                    args: None,
                    description: None,
                    general_query: seq![],
                },
                category,
            )
            &&& (q.mods matches Some(m) ==> crate::text::occurs_in(d.mods_lower, m) || crate::text::occurs_in(
                d.clean_mods_lower,
                m,
            ))
            &&& (q.key matches Some(k) ==> crate::text::occurs_in(d.key_lower, k))
            &&& (q.action matches Some(a) ==> crate::text::occurs_in(d.dispatcher_lower, a))
            &&& (q.args matches Some(a) ==> args_hold(d, a))
            &&& (q.description matches Some(s) ==> description_holds(d, s))
            &&& (q.general_query.len() == 0 || some_text_holds(d, q.general_query))
        }) ==> query_matches(d, q, category),
{
    let t = q.general_query;
    crate::text::lemma_contains_occurs(d.mods_lower, t);
    crate::text::lemma_contains_occurs(d.clean_mods_lower, t);
    crate::text::lemma_contains_occurs(d.key_lower, t);
    crate::text::lemma_contains_occurs(d.dispatcher_lower, t);
    if let Some(a) = d.args_lower {
        crate::text::lemma_contains_occurs(a, t);
        if let Some(x) = q.args {
            crate::text::lemma_contains_occurs(a, x);
        }
    }
    if let Some(s) = d.description_lower {
        crate::text::lemma_contains_occurs(s, t);
        if let Some(x) = q.description {
            crate::text::lemma_contains_occurs(s, x);
        }
    }
    if let Some(x) = q.mods {
        crate::text::lemma_contains_occurs(d.mods_lower, x);
        crate::text::lemma_contains_occurs(d.clean_mods_lower, x);
    }
    if let Some(x) = q.key {
        crate::text::lemma_contains_occurs(d.key_lower, x);
    }
    if let Some(x) = q.action {
        crate::text::lemma_contains_occurs(d.dispatcher_lower, x);
    }
}

} // verus!
