use hyprkcs::home::{default_sort_column, shortcut_action, ShortcutAction, ShortcutKey, ShortcutState, SortColumn};

fn state(home_visible: bool, search_focused: bool, has_selection: bool, search_has_text: bool) -> ShortcutState {
    ShortcutState { home_visible, search_focused, has_selection, search_has_text }
}

#[test]
fn default_sort_columns() {
    assert_eq!(default_sort_column("modifiers", false), Some(SortColumn::Modifiers));
    assert_eq!(default_sort_column("key", false), Some(SortColumn::Key));
    assert_eq!(default_sort_column("action", false), Some(SortColumn::Action));
    assert_eq!(default_sort_column("arguments", false), Some(SortColumn::Arguments));
    assert_eq!(default_sort_column("desc", false), None);
    assert_eq!(default_sort_column("desc", true), Some(SortColumn::Description));
    assert_eq!(default_sort_column("submap", false), Some(SortColumn::Submap));
    assert_eq!(default_sort_column("Key", false), None);
}

#[test]
fn shortcuts_of_the_main_window() {
    let list = state(true, false, true, false);
    assert_eq!(shortcut_action(ShortcutKey::F, true, false, list), ShortcutAction::FocusSearch);
    assert_eq!(shortcut_action(ShortcutKey::F, false, true, list), ShortcutAction::Pass);
    assert_eq!(shortcut_action(ShortcutKey::Slash, false, true, list), ShortcutAction::FocusSearch);
    assert_eq!(shortcut_action(ShortcutKey::Return, false, true, list), ShortcutAction::EditSelected);
    assert_eq!(shortcut_action(ShortcutKey::Return, false, true, state(true, false, false, false)), ShortcutAction::Pass);
    assert_eq!(shortcut_action(ShortcutKey::Down, false, true, state(true, true, true, false)), ShortcutAction::FocusList);
    assert_eq!(shortcut_action(ShortcutKey::Escape, false, true, state(false, false, true, true)), ShortcutAction::GoHome);
    assert_eq!(shortcut_action(ShortcutKey::Escape, false, true, state(true, true, true, true)), ShortcutAction::ClearSearch);
    assert_eq!(shortcut_action(ShortcutKey::Escape, false, true, list), ShortcutAction::CloseWindow);
}
