//! The main list: which column it is sorted by at first, and what a key
//! press does there.
use crate::text::str_eq;
use vstd::prelude::*;

verus! {

/// A column of the keybind list.
#[derive(Clone, Copy, Debug, PartialEq, Eq, Structural)]
pub enum SortColumn {
    Modifiers,
    Key,
    Action,
    Arguments,
    Description,
    Submap,
}

/// The column a `defaultSort` setting sorts by: the description only when
/// it is shown; none for an unknown name.
pub open spec fn sort_column_of(name: Seq<char>, show_description: bool) -> Option<SortColumn> {
    if name == "mods"@ || name == "modifiers"@ {
        Some(SortColumn::Modifiers)
    } else if name == "key"@ {
        Some(SortColumn::Key)
    } else if name == "dispatcher"@ || name == "action"@ {
        Some(SortColumn::Action)
    } else if name == "args"@ || name == "arguments"@ {
        Some(SortColumn::Arguments)
    } else if show_description && (name == "description"@ || name == "desc"@) {
        Some(SortColumn::Description)
    } else if name == "submap"@ {
        Some(SortColumn::Submap)
    } else {
        None
    }
}

/// The column the list is sorted by when it opens.
pub fn default_sort_column(name: &str, show_description: bool) -> (r: Option<SortColumn>)
    ensures
        r == sort_column_of(name@, show_description),
{
    if str_eq(name, "mods") || str_eq(name, "modifiers") {
        Some(SortColumn::Modifiers)
    } else if str_eq(name, "key") {
        Some(SortColumn::Key)
    } else if str_eq(name, "dispatcher") || str_eq(name, "action") {
        Some(SortColumn::Action)
    } else if str_eq(name, "args") || str_eq(name, "arguments") {
        Some(SortColumn::Arguments)
    } else if show_description && (str_eq(name, "description") || str_eq(name, "desc")) {
        Some(SortColumn::Description)
    } else if str_eq(name, "submap") {
        Some(SortColumn::Submap)
    } else {
        None
    }
}

/// The keys the main window reacts to.
#[derive(Clone, Copy, Debug, PartialEq, Eq, Structural)]
pub enum ShortcutKey {
    F,
    Down,
    Slash,
    Return,
    Escape,
    Other,
}

/// What the window does on a key press.
#[derive(Clone, Copy, Debug, PartialEq, Eq, Structural)]
pub enum ShortcutAction {
    /// Focus the search field.
    FocusSearch,
    /// Move the focus from the search field to the list.
    FocusList,
    /// Open the editor of the selected keybind.
    EditSelected,
    /// Go back to the list.
    GoHome,
    /// Empty the search field.
    ClearSearch,
    /// Close the window.
    CloseWindow,
    /// Let the press through.
    Pass,
}

/// The state of the window when a key is pressed.
#[derive(Clone, Copy, Debug, PartialEq, Eq, Structural)]
pub struct ShortcutState {
    /// The list is the page shown.
    pub home_visible: bool,
    /// The search field has the focus.
    pub search_focused: bool,
    /// A keybind of the list is selected.
    pub has_selection: bool,
    /// The search field holds text.
    pub search_has_text: bool,
}

/// What a key press does: Ctrl+F focuses the search; on the list page,
/// Down leaves the search field for the list, and without modifiers `/`
/// focuses the search and Return edits the selected keybind; Escape goes
/// back to the list, else empties the search, else closes the window.
pub open spec fn shortcut_of(key: ShortcutKey, ctrl: bool, no_modifiers: bool, st: ShortcutState) -> ShortcutAction {
    if ctrl && key == ShortcutKey::F {
        ShortcutAction::FocusSearch
    } else if st.home_visible && st.search_focused && key == ShortcutKey::Down {
        ShortcutAction::FocusList
    } else if st.home_visible && !st.search_focused && no_modifiers && key == ShortcutKey::Slash {
        ShortcutAction::FocusSearch
    } else if st.home_visible && !st.search_focused && no_modifiers && key == ShortcutKey::Return
        && st.has_selection {
        ShortcutAction::EditSelected
    } else if key == ShortcutKey::Escape {
        if !st.home_visible {
            ShortcutAction::GoHome
        } else if st.search_has_text {
            ShortcutAction::ClearSearch
        } else {
            ShortcutAction::CloseWindow
        }
    } else {
        ShortcutAction::Pass
    }
}

/// The action of a key press in the main window; `ctrl` is whether Control
/// is among the held modifiers, `no_modifiers` whether none is held.
pub fn shortcut_action(key: ShortcutKey, ctrl: bool, no_modifiers: bool, st: ShortcutState) -> (r: ShortcutAction)
    ensures
        r == shortcut_of(key, ctrl, no_modifiers, st),
        key == ShortcutKey::Escape ==> r != ShortcutAction::Pass,
{
    if ctrl && key == ShortcutKey::F {
        return ShortcutAction::FocusSearch;
    }
    if st.home_visible && st.search_focused && key == ShortcutKey::Down {
        return ShortcutAction::FocusList;
    }
    if st.home_visible && !st.search_focused && no_modifiers {
        match key {
            ShortcutKey::Slash => {
                return ShortcutAction::FocusSearch;
            },
            ShortcutKey::Return => {
                if st.has_selection {
                    return ShortcutAction::EditSelected;
                }
            },
            _ => {},
        }
    }
    if key == ShortcutKey::Escape {
        if !st.home_visible {
            return ShortcutAction::GoHome;
        }
        if st.search_has_text {
            return ShortcutAction::ClearSearch;
        }
        return ShortcutAction::CloseWindow;
    }
    ShortcutAction::Pass
}

} // verus!
