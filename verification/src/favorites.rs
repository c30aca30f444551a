//! Favorite keybinds: a list of keybinds, each identified by its modifiers,
//! key, submap, dispatcher and arguments, that the user marks and unmarks.
use crate::text::str_eq;
use vstd::prelude::*;

verus! {

broadcast use vstd::string::group_string_axioms;

/// A keybind marked as a favorite.
#[derive(Clone, Debug)]
pub struct FavoriteKeybind {
    pub mods: String,
    pub key: String,
    pub submap: String,
    pub dispatcher: String,
    pub args: String,
}

/// A favorite as plain values.
pub ghost struct FavoriteView {
    pub mods: Seq<char>,
    pub key: Seq<char>,
    pub submap: Seq<char>,
    pub dispatcher: Seq<char>,
    pub args: Seq<char>,
}

impl View for FavoriteKeybind {
    type V = FavoriteView;

    open spec fn view(&self) -> FavoriteView {
        FavoriteView {
            mods: self.mods@,
            key: self.key@,
            submap: self.submap@,
            dispatcher: self.dispatcher@,
            args: self.args@,
        }
    }
}

/// The favorites as plain values.
pub open spec fn favorite_views(v: Seq<FavoriteKeybind>) -> Seq<FavoriteView> {
    v.map_values(|f: FavoriteKeybind| f@)
}

/// The first position from `i` on that holds `x`.
pub open spec fn first_position(s: Seq<FavoriteView>, x: FavoriteView, i: int) -> Option<int>
    decreases s.len() - i,
{
    if i < 0 || i >= s.len() {
        None
    } else if s[i] == x {
        Some(i)
    } else {
        first_position(s, x, i + 1)
    }
}

proof fn lemma_first_position(s: Seq<FavoriteView>, x: FavoriteView, i: int)
    requires
        0 <= i <= s.len(),
    ensures
        first_position(s, x, i) matches Some(p) ==> i <= p < s.len() && s[p] == x && forall|
            m: int,
        |
            i <= m < p ==> s[m] != x,
        first_position(s, x, i) is None ==> forall|m: int| i <= m < s.len() ==> s[m] != x,
    decreases s.len() - i,
{
    if i < s.len() && s[i] != x {
        lemma_first_position(s, x, i + 1);
    }
}

fn same_favorite(a: &FavoriteKeybind, b: &FavoriteKeybind) -> (r: bool)
    ensures
        r == (a@ == b@),
{
    a.mods == b.mods && a.key == b.key && a.submap == b.submap && a.dispatcher == b.dispatcher
        && a.args == b.args
}

/// Whether the keybind with these fields is among the favorites.
pub fn is_favorite(
    favs: &[FavoriteKeybind],
    mods: &str,
    key: &str,
    submap: &str,
    dispatcher: &str,
    args: &str,
) -> (r: bool)
    ensures
        r == favorite_views(favs@).contains(
            FavoriteView { mods: mods@, key: key@, submap: submap@, dispatcher: dispatcher@, args: args@ },
        ),
{
    let ghost x = FavoriteView {
        mods: mods@,
        key: key@,
        submap: submap@,
        dispatcher: dispatcher@,
        args: args@,
    };
    let ghost fv = favorite_views(favs@);
    let mut i: usize = 0;
    while i < favs.len()
        invariant
            i <= favs@.len(),
            fv == favorite_views(favs@),
            x == (FavoriteView {
                mods: mods@,
                key: key@,
                submap: submap@,
                dispatcher: dispatcher@,
                args: args@,
            }),
            forall|m: int| 0 <= m < i ==> fv[m] != x,
        decreases favs@.len() - i,
    {
        let f = &favs[i];
        assert(fv[i as int] == f@);
        if str_eq(f.mods.as_str(), mods) && str_eq(f.key.as_str(), key) && str_eq(
            f.submap.as_str(),
            submap,
        ) && str_eq(f.dispatcher.as_str(), dispatcher) && str_eq(f.args.as_str(), args) {
            assert(fv[i as int] == x);
            return true;
        }
        i = i + 1;
    }
    false
}

/// Marks `item` as a favorite, or unmarks it if it is one: when the list
/// holds it, its first occurrence is removed and `false` returned; else it
/// is added at the end and `true` returned.
pub fn toggle_favorite(favs: &mut Vec<FavoriteKeybind>, item: FavoriteKeybind) -> (added: bool)
    ensures
        match first_position(favorite_views(old(favs)@), item@, 0) {
            Some(p) => !added && favorite_views(final(favs)@) == favorite_views(old(favs)@).remove(p),
            None => added && favorite_views(final(favs)@) == favorite_views(old(favs)@).push(item@),
        },
{
    let ghost fv = favorite_views(favs@);
    proof {
        lemma_first_position(fv, item@, 0);
    }
    let mut i: usize = 0;
    while i < favs.len()
        invariant
            i <= favs@.len(),
            fv == favorite_views(favs@),
            fv == favorite_views(old(favs)@),
            first_position(fv, item@, 0) == first_position(fv, item@, i as int),
        decreases favs@.len() - i,
    {
        assert(fv[i as int] == favs@[i as int]@);
        if same_favorite(&favs[i], &item) {
            assert(first_position(fv, item@, i as int) == Some(i as int));
            favs.remove(i);
            assert(favorite_views(favs@) =~= fv.remove(i as int));
            return false;
        }
        i = i + 1;
    }
    let ghost iv = item@;
    favs.push(item);
    assert(favorite_views(favs@) =~= fv.push(iv));
    true
}

/// After toggling, the item is a favorite exactly when it was not one
/// before, provided the list held it at most once.
pub proof fn lemma_toggle_flips(before: Seq<FavoriteView>, item: FavoriteView, after: Seq<FavoriteView>)
    requires
        before.to_multiset().count(item) <= 1,
        match first_position(before, item, 0) {
            Some(p) => after == before.remove(p),
            None => after == before.push(item),
        },
    ensures
        after.contains(item) == !before.contains(item),
{
    broadcast use vstd::seq_lib::to_multiset_contains, vstd::seq_lib::to_multiset_remove, vstd::seq_lib::to_multiset_build;

    lemma_first_position(before, item, 0);
    match first_position(before, item, 0) {
        Some(p) => {
            assert(before.contains(item));
            assert(after.to_multiset().count(item) == 0);
        },
        None => {
            assert(!before.contains(item));
            assert(after[before.len() as int] == item);
        },
    }
}

/// Toggling the same item twice leaves the same favorites (as a
/// collection: an item that was there comes back at the end), provided the
/// list held it at most once.
pub proof fn lemma_toggle_twice(
    before: Seq<FavoriteView>,
    item: FavoriteView,
    middle: Seq<FavoriteView>,
    after: Seq<FavoriteView>,
)
    requires
        before.to_multiset().count(item) <= 1,
        match first_position(before, item, 0) {
            Some(p) => middle == before.remove(p),
            None => middle == before.push(item),
        },
        match first_position(middle, item, 0) {
            Some(p) => after == middle.remove(p),
            None => after == middle.push(item),
        },
    ensures
        after.to_multiset() == before.to_multiset(),
        !before.contains(item) ==> after == before,
{
    broadcast use vstd::seq_lib::to_multiset_contains, vstd::seq_lib::to_multiset_remove, vstd::seq_lib::to_multiset_build;
    broadcast use vstd::multiset::group_multiset_axioms;

    lemma_first_position(before, item, 0);
    match first_position(before, item, 0) {
        Some(p) => {
            assert(middle.to_multiset().count(item) == 0);
            assert(!middle.contains(item));
            lemma_first_position(middle, item, 0);
            assert(first_position(middle, item, 0) is None);
            assert(after.to_multiset() =~= before.to_multiset());
        },
        None => {
            lemma_first_position(middle, item, 0);
            assert(middle[before.len() as int] == item);
            assert(first_position(middle, item, 0) == Some(before.len() as int));
            assert(after =~= before);
        },
    }
}

} // verus!
