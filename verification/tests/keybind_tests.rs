use hyprkcs::conflicts::{check_conflict, generate_suggestions, resolve};
use hyprkcs::keybinds::{command_of, detect_broken, detect_conflicts, normalize};
use hyprkcs::parser::Keybind;
use hyprkcs::vars::VarMap;

fn kb(mods: &str, key: &str, dispatcher: &str, args: &str, submap: Option<&str>, line: usize) -> Keybind {
    Keybind {
        mods: mods.to_string(),
        clean_mods: mods.to_string(),
        flags: String::new(),
        key: key.to_string(),
        dispatcher: dispatcher.to_string(),
        args: args.to_string(),
        description: None,
        submap: submap.map(|s| s.to_string()),
        line_number: line,
        file_path: "hyprland.conf".to_string(),
    }
}

#[test]
fn normalize_sorts_and_canonicalises_modifiers() {
    assert_eq!(normalize("super shift", " Q "), ("SHIFT SUPER".to_string(), "q".to_string()));
    assert_eq!(normalize("MOD4 CONTROL", "Return"), ("CTRL SUPER".to_string(), "return".to_string()));
    assert_eq!(normalize("", "["), ("".to_string(), "bracketleft".to_string()));
}

#[test]
fn normalize_ignores_order_and_repeats() {
    assert_eq!(normalize("ALT SUPER", "x"), normalize("SUPER ALT", "x"));
    assert_eq!(normalize("WIN SUPER", "x").0, "SUPER");
}

#[test]
fn conflicts_are_symmetric_and_listed() {
    let ks = vec![
        kb("SUPER", "Q", "exec", "kitty", None, 0),
        kb("super", "q", "killactive", "", None, 1),
        kb("SUPER", "W", "exec", "firefox", None, 2),
        kb("SUPER", "Q", "exec", "x", Some("resize"), 3),
    ];
    let r = detect_conflicts(&ks);
    assert_eq!(r[0], Some("Conflicts with: killactive".to_string()));
    assert_eq!(r[1], Some("Conflicts with: exec kitty".to_string()));
    assert_eq!(r[2], None);
    assert_eq!(r[3], None);
}

#[test]
fn broken_exec_keybinds_are_marked() {
    let ks = vec![
        kb("SUPER", "T", "exec", "kitty --single", None, 0),
        kb("SUPER", "Y", "exec", "nosuchprogram -x", None, 1),
        kb("SUPER", "Q", "killactive", "", None, 2),
    ];
    assert_eq!(command_of(&ks[0]), Some("kitty --single".to_string()));
    assert_eq!(command_of(&ks[2]), None);
    let r = detect_broken(&ks, &[true, false, false]);
    assert_eq!(r, vec![None, Some("Executable not found: nosuchprogram".to_string()), None]);
}

#[test]
fn resolve_replaces_variables() {
    let mut vars = VarMap::new();
    vars.insert("$mainMod".to_string(), "SUPER".to_string());
    assert_eq!(resolve("$mainMod SHIFT", &vars), "SUPER SHIFT");
    assert_eq!(resolve("ALT", &vars), "ALT");
}

#[test]
fn check_conflict_finds_the_holder() {
    let ks = vec![kb("SUPER", "Q", "killactive", "", None, 4), kb("SUPER", "E", "exec", "x", Some("m"), 5)];
    let vars = VarMap::new();
    let c = check_conflict("super", "q", None, None, &ks, &vars).unwrap();
    assert_eq!(c.dispatcher, "killactive");
    assert_eq!(c.line, 4);
    assert!(check_conflict("SUPER", "Q", None, Some(4), &ks, &vars).is_none());
    assert!(check_conflict("SUPER", "E", None, None, &ks, &vars).is_none());
    assert!(check_conflict("SUPER", "E", Some(" m "), None, &ks, &vars).is_some());
}

#[test]
fn suggestions_add_free_modifiers() {
    let ks = vec![kb("SUPER", "Q", "killactive", "", None, 0), kb("SUPER SHIFT", "Q", "exit", "", None, 1)];
    let vars = VarMap::new();
    let s = generate_suggestions("SUPER", "Q", None, &ks, &vars);
    assert_eq!(
        s,
        vec![
            ("SUPER CTRL".to_string(), "Q".to_string()),
            ("SUPER ALT".to_string(), "Q".to_string()),
            ("SHIFT".to_string(), "Q".to_string()),
        ]
    );
}

#[test]
fn normalize_twice_and_in_any_case() {
    let n = hyprkcs::keybinds::normalize("super+Shift mod4", " , ");
    assert_eq!(n, ("SHIFT SUPER".to_string(), "comma".to_string()));
    assert_eq!(hyprkcs::keybinds::normalize(&n.0, &n.1), n);
    assert_eq!(
        hyprkcs::keybinds::normalize("SUPER+shift", "Q").0,
        hyprkcs::keybinds::normalize("super+SHIFT", "q").0
    );
}
