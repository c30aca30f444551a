use hyprkcs::keybind_object::keybind_entries;
use hyprkcs::keyboard::{
    active_modifiers, in_chosen_submap, initial_choice, keyboard_key_actions, keyboard_layout, submap_choices,
};
use hyprkcs::parser::Keybind;

fn kb(mods: &str, key: &str, dispatcher: &str, args: &str, submap: Option<&str>, line: usize) -> Keybind {
    Keybind {
        mods: mods.to_string(),
        clean_mods: mods.to_string(),
        flags: String::new(),
        key: key.to_string(),
        dispatcher: dispatcher.to_string(),
        args: args.to_string(),
        description: None,
        submap: submap.map(|s| s.to_string()),
        line_number: line,
        file_path: "hyprland.conf".to_string(),
    }
}

#[test]
fn layout_setting_or_detected() {
    assert_eq!(keyboard_layout("auto", "de,us"), "ISO");
    assert_eq!(keyboard_layout("Auto", "jp"), "JIS");
    assert_eq!(keyboard_layout("ansi", "de"), "ANSI");
    assert_eq!(keyboard_layout("iso", "us"), "ISO");
}

#[test]
fn submap_choices_start_with_root() {
    let ks = vec![
        kb("SUPER", "R", "submap", "resize", None, 0),
        kb("", "L", "resizeactive", "10 0", Some("resize"), 1),
        kb("", "M", "movewindow", "l", Some("move"), 2),
    ];
    let none = vec![None, None, None];
    let objects = keybind_entries(&ks, &none, &none, &[]);
    let choices = submap_choices(&objects);
    assert_eq!(choices, vec!["Global (Root)".to_string(), "move".to_string(), "resize".to_string()]);
    assert_eq!(initial_choice(&choices, &Some("resize".to_string())), 2);
    assert_eq!(initial_choice(&choices, &Some("other".to_string())), 0);
    assert_eq!(initial_choice(&choices, &None), 0);
}

#[test]
fn toggled_modifiers_in_order() {
    assert_eq!(active_modifiers(true, false, false, false), vec!["SUPER".to_string()]);
    assert_eq!(
        active_modifiers(true, true, true, true),
        vec!["SUPER".to_string(), "SHIFT".to_string(), "CTRL".to_string(), "ALT".to_string()]
    );
    assert!(active_modifiers(false, false, false, false).is_empty());
}

#[test]
fn root_choice_shows_unscoped_and_reset() {
    assert!(in_chosen_submap("", "Global (Root)"));
    assert!(in_chosen_submap("RESET", "Global (Root)"));
    assert!(!in_chosen_submap("resize", "Global (Root)"));
    assert!(in_chosen_submap("resize", "resize"));
    assert!(!in_chosen_submap("", "resize"));
}

#[test]
fn keys_bound_with_the_active_modifiers() {
    let ks = vec![
        kb("SUPER", "Return", "exec", "kitty", None, 0),
        kb("SUPER SHIFT", "Q", "exit", "", None, 1),
        kb("SUPER", "Q", "killactive", "", None, 2),
        kb("SUPER", "L", "resizeactive", "10 0", Some("resize"), 3),
        kb("super", "q", "killactive", "now", None, 4),
    ];
    let none = vec![None, None, None, None, None];
    let objects = keybind_entries(&ks, &none, &none, &[]);
    let m = keyboard_key_actions(&objects, &active_modifiers(true, false, false, false), "Global (Root)");
    assert_eq!(m.len(), 2);
    let ret: Vec<char> = "return".chars().collect();
    let q: Vec<char> = "q".chars().collect();
    let l: Vec<char> = "l".chars().collect();
    assert_eq!(m.get_chars(&ret), Some("exec (kitty)".chars().collect()));
    assert_eq!(m.get_chars(&q), Some("killactive (now)".chars().collect()));
    assert_eq!(m.get_chars(&l), None);
    let shifted = keyboard_key_actions(&objects, &active_modifiers(true, true, false, false), "Global (Root)");
    assert_eq!(shifted.get_chars(&q), Some("exit".chars().collect()));
    let resize = keyboard_key_actions(&objects, &active_modifiers(true, false, false, false), "resize");
    assert_eq!(resize.len(), 1);
    assert_eq!(resize.get_chars(&l), Some("resizeactive (10 0)".chars().collect()));
}
