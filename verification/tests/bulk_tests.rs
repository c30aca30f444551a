use hyprkcs::bulk::{
    bind_summary, bulk_preview, bulk_replacement, bulk_result_message, changed_fields, preview_context,
    preview_title, replace_lowered, replace_target, ReplaceTarget,
};
use hyprkcs::keybind_object::keybind_entries;
use hyprkcs::parser::Keybind;

fn kb(mods: &str, key: &str, dispatcher: &str, args: &str, line: usize) -> Keybind {
    Keybind {
        mods: mods.to_string(),
        clean_mods: mods.to_string(),
        flags: String::new(),
        key: key.to_string(),
        dispatcher: dispatcher.to_string(),
        args: args.to_string(),
        description: None,
        submap: None,
        line_number: line,
        file_path: "hyprland.conf".to_string(),
    }
}

fn chars(s: &str) -> Vec<char> {
    s.chars().collect()
}

#[test]
fn replacement_ignores_case_and_keeps_the_rest() {
    assert_eq!(bulk_replacement("SUPER_SHIFT", "shift", "ALT"), Some("SUPER_ALT".to_string()));
    assert_eq!(bulk_replacement("exec Kitty; kitty -e", "KITTY", "foot"), Some("exec foot; foot -e".to_string()));
    assert_eq!(bulk_replacement("aaa", "aa", "b"), Some("ba".to_string()));
}

#[test]
fn replacement_needs_a_match() {
    assert_eq!(bulk_replacement("SUPER", "ctrl", "ALT"), None);
    assert_eq!(bulk_replacement("SUPER", "", "ALT"), None);
    assert_eq!(bulk_replacement("", "x", "y"), None);
}

#[test]
fn replacing_at_places_of_the_lowercase_form() {
    assert_eq!(replace_lowered(&chars("AbAb"), &chars("abab"), &chars("ab"), &chars("x")), chars("xx"));
    assert_eq!(replace_lowered(&chars("Hello"), &chars("hello"), &chars("z"), &chars("x")), chars("Hello"));
}

#[test]
fn targets_follow_the_list() {
    assert_eq!(replace_target(0), ReplaceTarget::Modifiers);
    assert_eq!(replace_target(1), ReplaceTarget::Key);
    assert_eq!(replace_target(2), ReplaceTarget::Dispatcher);
    assert_eq!(replace_target(3), ReplaceTarget::Arguments);
    assert_eq!(replace_target(9), ReplaceTarget::Arguments);
}

#[test]
fn preview_lists_matching_keybinds_in_order() {
    let ks = vec![
        kb("SUPER", "T", "exec", "kitty", 0),
        kb("SUPER", "Q", "killactive", "", 1),
        kb("SUPER_SHIFT", "T", "exec", "KITTY --class x", 2),
    ];
    let none = vec![None, None, None];
    let objects = keybind_entries(&ks, &none, &none, &[]);
    let changes = bulk_preview(&objects, ReplaceTarget::Arguments, "kitty", "foot");
    assert_eq!(changes.len(), 2);
    assert_eq!(changes[0].index, 0);
    assert_eq!(changes[0].new_value, "foot");
    assert_eq!(changes[1].index, 2);
    assert_eq!(changes[1].new_value, "foot --class x");
    assert!(bulk_preview(&objects, ReplaceTarget::Key, "", "x").is_empty());
    let keys = bulk_preview(&objects, ReplaceTarget::Key, "t", "Y");
    assert_eq!(keys.len(), 2);
    assert_eq!(keys[1].new_value, "Y");
}

#[test]
fn changed_fields_set_the_target_only() {
    let ks = vec![kb("SUPER", "Q", "killactive", "", 1)];
    let none = vec![None];
    let objects = keybind_entries(&ks, &none, &none, &[]);
    let f = changed_fields(&objects[0].data, ReplaceTarget::Dispatcher, "exit");
    assert_eq!(f.mods, "SUPER");
    assert_eq!(f.key, "Q");
    assert_eq!(f.dispatcher, "exit");
    assert_eq!(f.args, "");
    assert_eq!(f.description, None);
    let g = changed_fields(&objects[0].data, ReplaceTarget::Arguments, "now");
    assert_eq!(g.dispatcher, "killactive");
    assert_eq!(g.args, "now");
}

#[test]
fn preview_texts() {
    let ks = vec![kb("SUPER", "T", "exec", "kitty", 0)];
    let none = vec![None];
    let objects = keybind_entries(&ks, &none, &none, &[]);
    assert_eq!(preview_context(&objects[0].data, ReplaceTarget::Arguments), "SUPER + T");
    assert_eq!(preview_context(&objects[0].data, ReplaceTarget::Key), "exec");
    assert_eq!(bind_summary(&objects[0].data), "SUPER T, exec kitty");
    assert_eq!(preview_title(0), "Preview (0 matches)");
    assert_eq!(preview_title(12), "Preview (12 matches)");
    assert_eq!(bulk_result_message(3, 0), "Successfully updated 3 keybinds.");
    assert_eq!(bulk_result_message(2, 1), "Updated 2 keybinds. 1 failed.");
}
