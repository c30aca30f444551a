use hyprkcs::backup::{diff_report, file_diff, list_backups, prune_backups};
use hyprkcs::cache::{get_loaded_files, get_variables, invalidate_parser_cache, CacheState, FileStamp, ParserCache};
use hyprkcs::commands::{execute_keybind, invalidate_command_cache, program_location, program_of, CommandCache};
use hyprkcs::hud::{hud_key_text, parse_hud_config, recorded_pid, serialize_hud_config, HudConfig, HudKeybind, HudPosition};
use hyprkcs::input::{load_input_config, save_input_config, GesturesConfig, InputValues};
use hyprkcs::refs::{
    count_references_in_content, inline_references_in_content, refactor_references_in_content,
    replace_variable_in_content,
};
use hyprkcs::parser::Variable;
use hyprkcs::variable_edit::{clean_variable_name, filter_variables, is_duplicate_variable};
use hyprkcs::vars::VarMap;

fn strings(v: &[&str]) -> Vec<String> {
    v.iter().map(|s| s.to_string()).collect()
}

#[test]
fn input_settings_are_read_from_the_block() {
    let content = "input {\n  kb_layout = de # german\n  touchpad {\n    natural_scroll = true\n  }\n  repeat_rate = 50\n  sensitivity = -0.5\n}\ngesture = 4, horizontal, workspace\n";
    let (v, sens, g) = load_input_config(content);
    assert_eq!(v.kb_layout, "de");
    assert_eq!(v.repeat_rate, 50);
    assert_eq!(v.follow_mouse, 1);
    assert_eq!(v.repeat_delay, 600);
    assert_eq!(sens, strings(&["-0.5"]));
    assert!(g.workspace_swipe);
    assert_eq!(g.workspace_swipe_fingers, 4);
}

fn values(layout: &str, follow: i32, rate: i32, delay: i32) -> InputValues {
    InputValues {
        kb_layout: layout.to_string(),
        kb_variant: String::new(),
        kb_options: String::new(),
        follow_mouse: follow,
        repeat_rate: rate,
        repeat_delay: delay,
    }
}

#[test]
fn input_block_is_added_when_missing() {
    let g = GesturesConfig { workspace_swipe: true, workspace_swipe_fingers: 4 };
    let text = save_input_config("", &values("us", 1, 25, 600), "0", &g);
    assert_eq!(
        text,
        "\ninput {\n    kb_layout = us\n    follow_mouse = 1\n    sensitivity = 0\n    repeat_rate = 25\n    repeat_delay = 600\n}\ngesture = 4, horizontal, workspace"
    );
    let (v, sens, g2) = load_input_config(&text);
    assert_eq!(v.kb_layout, "us");
    assert_eq!(v.repeat_delay, 600);
    assert_eq!(sens, strings(&["0"]));
    assert!(g2.workspace_swipe);
    assert_eq!(g2.workspace_swipe_fingers, 4);
}

#[test]
fn input_block_is_updated_in_place() {
    let content = "input {\n    kb_layout = de # german\n    workspace_swipe = true\n}\ngestures {\n    workspace_swipe = true\n}\ngesture = 3, horizontal, workspace\n";
    let g = GesturesConfig::default();
    let text = save_input_config(content, &values("us", 2, 30, 400), "0.5", &g);
    assert_eq!(
        text,
        "input {\n    kb_layout = us # german\n    follow_mouse = 2\n    sensitivity = 0.5\n    repeat_rate = 30\n    repeat_delay = 400\n}"
    );
}

#[test]
fn backups_are_pruned_oldest_first() {
    let names = strings(&["2024-03-01", "2024-01-01", "2024-02-01"]);
    assert_eq!(prune_backups(&names, 1), strings(&["2024-01-01", "2024-02-01"]));
    assert_eq!(prune_backups(&names, 5), Vec::<String>::new());
    assert_eq!(list_backups(&names), strings(&["2024-03-01", "2024-02-01", "2024-01-01"]));
}

#[test]
fn diff_shows_changed_lines() {
    assert_eq!(file_diff("hyprland.conf", "a\n", "a\n"), "");
    let d = file_diff("hyprland.conf", "a\nb\n", "a\nc");
    assert_eq!(d, "--- \"hyprland.conf\"\n+++ \"hyprland.conf\"\n a\n-b\n+c\n\n");
    assert_eq!(diff_report(&[]), "No differences found.");
    assert_eq!(diff_report(&strings(&["", "x"])), "x");
}

#[test]
fn dispatch_arguments_resolve_variables() {
    let mut vars = VarMap::new();
    vars.insert("$term".to_string(), "kitty".to_string());
    assert_eq!(execute_keybind("exec", "$term -e htop", &vars), strings(&["dispatch", "exec", "kitty -e htop"]));
    assert_eq!(execute_keybind("killactive", "  ", &vars), strings(&["dispatch", "killactive"]));
}

#[test]
fn program_names_and_paths() {
    assert_eq!(program_of("  [workspace 2 silent] firefox --new"), Some("firefox".to_string()));
    assert_eq!(program_of("kitty -e htop"), Some("kitty".to_string()));
    assert_eq!(program_of("   "), None);
    assert_eq!(program_location("~/bin/tool", Some("/home/u".to_string())), "/home/u/bin/tool");
    assert_eq!(program_location("~/bin/tool", None), "~/bin/tool");
    assert_eq!(program_location("kitty", Some("/home/u".to_string())), "kitty");
}

#[test]
fn command_cache_remembers_and_forgets() {
    let mut c = CommandCache::new();
    assert_eq!(c.lookup("kitty"), None);
    c.record("kitty", true);
    c.record("nope", false);
    c.record("kitty", false);
    assert_eq!(c.lookup("kitty"), Some(false));
    assert_eq!(c.lookup("nope"), Some(false));
    invalidate_command_cache(&mut c);
    assert_eq!(c.lookup("kitty"), None);
}

fn state() -> CacheState {
    let mut vars = VarMap::new();
    vars.insert("$a".to_string(), "1".to_string());
    CacheState {
        keybinds: Vec::new(),
        variables: vars,
        defined_variables: Vec::new(),
        loaded_files: strings(&["/c/hyprland.conf"]),
        stamps: vec![FileStamp { path: "/c/hyprland.conf".to_string(), modified: 17, size: 200 }],
        main_path: "/c/hyprland.conf".to_string(),
    }
}

#[test]
fn cache_is_used_only_while_files_are_unchanged() {
    let mut cache = ParserCache::new();
    assert!(get_variables(&cache, "/c/hyprland.conf", &[Some((17, 200))]).is_none());
    cache.store(state());
    assert_eq!(get_variables(&cache, "/c/hyprland.conf", &[Some((17, 200))]).unwrap().len(), 1);
    assert_eq!(get_loaded_files(&cache, "/c/hyprland.conf", &[Some((17, 200))]).unwrap().len(), 1);
    assert!(get_variables(&cache, "/c/hyprland.conf", &[Some((18, 200))]).is_none());
    assert!(get_variables(&cache, "/c/hyprland.conf", &[None]).is_none());
    assert!(get_variables(&cache, "/c/other.conf", &[Some((17, 200))]).is_none());
    invalidate_parser_cache(&mut cache);
    assert!(get_variables(&cache, "/c/hyprland.conf", &[Some((17, 200))]).is_none());
}

#[test]
fn hud_settings_round_trip() {
    let cfg = HudConfig {
        enabled: true,
        position: HudPosition::BottomLeft,
        keybinds: vec![HudKeybind::new("SUPER", "T", "exec", "kitty")],
    };
    let text = serialize_hud_config(&cfg);
    let back = parse_hud_config(&text);
    assert!(back.enabled);
    assert_eq!(back.position, HudPosition::BottomLeft);
    assert_eq!(back.keybinds.len(), 1);
    assert_eq!(back.keybinds[0].args, "kitty");
    assert_eq!(HudPosition::from_str("nowhere"), HudPosition::TopRight);
    assert_eq!(HudPosition::TopLeft.to_str(), "top-left");
}

#[test]
fn variable_references_are_renamed_counted_and_inlined() {
    let content = "$term = kitty\nbind = SUPER, T, exec, $term\nbind = SUPER, Y, exec, $terminal\n";
    let (renamed, any) = replace_variable_in_content(content, "term", "t");
    assert!(any);
    assert_eq!(renamed, "$t = kitty\nbind = SUPER, T, exec, $t\nbind = SUPER, Y, exec, $terminal\n");
    assert_eq!(count_references_in_content(content, "$term"), 1);
    let (inlined, any) = inline_references_in_content(content, "term", "foot");
    assert!(any);
    assert_eq!(inlined, "$term = kitty\nbind = SUPER, T, exec, foot\nbind = SUPER, Y, exec, $terminal\n");
    let (same, none) = replace_variable_in_content(content, "nothing", "x");
    assert!(!none);
    assert_eq!(same, content);
}

#[test]
fn literal_values_become_references_in_bind_lines() {
    let content = "$x = kitty\nbind = SUPER, T, exec, kitty\nbind = SUPER, Y, exec, kitty-git\nexec-once = kitty";
    let (lines, n) = refactor_references_in_content(content, "kitty", "term");
    assert_eq!(n, 1);
    assert_eq!(
        lines,
        strings(&["$x = kitty", "bind = SUPER, T, exec, $term", "bind = SUPER, Y, exec, kitty-git", "exec-once = kitty"])
    );
}

fn var(name: &str, value: &str) -> Variable {
    Variable { name: name.to_string(), value: value.to_string(), line_number: 0, file_path: String::new() }
}

#[test]
fn variable_names_and_filters() {
    assert_eq!(clean_variable_name("$term"), Some("term".to_string()));
    assert_eq!(clean_variable_name("term"), Some("term".to_string()));
    assert_eq!(clean_variable_name("   "), None);
    let mut vars = VarMap::new();
    vars.insert("$term".to_string(), "kitty".to_string());
    assert!(is_duplicate_variable("term", None, &vars));
    assert!(!is_duplicate_variable("term", Some("$term"), &vars));
    assert!(!is_duplicate_variable("other", None, &vars));
    let list = vec![var("$zed", "editor"), var("$term", "Kitty"), var("$browser", "firefox")];
    let shown = filter_variables(&list, "KIT");
    assert_eq!(shown.len(), 1);
    assert_eq!(shown[0].name, "$term");
    let all: Vec<String> = filter_variables(&list, "").into_iter().map(|v| v.name).collect();
    assert_eq!(all, strings(&["$browser", "$term", "$zed"]));
    let twice = vec![var("$b", "2"), var("$a", "first"), var("$a", "second")];
    let values: Vec<String> = filter_variables(&twice, "").into_iter().map(|v| v.value).collect();
    assert_eq!(values, strings(&["first", "second", "2"]));
}

#[test]
fn saved_input_settings_read_back() {
    let v = InputValues {
        kb_layout: "de,us".to_string(),
        kb_variant: "nodeadkeys".to_string(),
        kb_options: String::new(),
        follow_mouse: -2,
        repeat_rate: 40,
        repeat_delay: 250,
    };
    let text = save_input_config("", &v, "-0.25", &GesturesConfig::default());
    let (back, sens, g) = load_input_config(&text);
    assert_eq!(back.kb_layout, "de,us");
    assert_eq!(back.kb_variant, "nodeadkeys");
    assert_eq!(back.kb_options, "");
    assert_eq!(back.follow_mouse, -2);
    assert_eq!(back.repeat_rate, 40);
    assert_eq!(back.repeat_delay, 250);
    assert_eq!(sens, strings(&["-0.25"]));
    assert!(!g.workspace_swipe);
}

#[test]
fn references_end_where_names_end() {
    let content = "$a = 1\n$a=2\nbind = , x, exec, $a $ab $a_b $a-b\n";
    assert_eq!(count_references_in_content(content, "a"), 2);
    assert_eq!(count_references_in_content(content, "$a"), 2);
    let (inlined, any) = inline_references_in_content(content, "$a", "ONE");
    assert!(any);
    assert_eq!(inlined, "$a = 1\n$a=2\nbind = , x, exec, ONE $ab $a_b ONE-b\n");
}

#[test]
fn hud_corner_anchors_and_key_text() {
    let a = HudPosition::BottomLeft.anchors();
    assert!(a.bottom && a.left && !a.top && !a.right);
    let b = HudPosition::TopRight.anchors();
    assert!(b.top && b.right && !b.bottom && !b.left);
    assert_eq!(hud_key_text(&HudKeybind::new("SUPER", "T", "exec", "kitty")), "SUPER + T");
    assert_eq!(hud_key_text(&HudKeybind::new("", "Print", "exec", "grim")), "Print");
    assert_eq!(recorded_pid(" 4242\n"), Some(4242));
    assert_eq!(recorded_pid("abc"), None);
}

#[test]
fn renamed_variable_leaves_no_reference() {
    let content = "$mainMod = SUPER\nbind = $mainMod, T, exec, $mainModX $mainMod$mainMod\n";
    let (out, changed) = hyprkcs::refs::replace_variable_in_content(content, "mainMod", "mod");
    assert!(changed);
    assert_eq!(out, "$mod = SUPER\nbind = $mod, T, exec, $mainModX $mod$mod\n");
    let (again, changed_again) = hyprkcs::refs::replace_variable_in_content(&out, "mainMod", "other");
    assert!(!changed_again);
    assert_eq!(again, out);
}

#[test]
fn renaming_back_gives_the_text_again() {
    let content = "$mainMod = SUPER\nbind = $mainMod, T, exec, $mainModX $modx\n";
    let (out, changed) = hyprkcs::refs::replace_variable_in_content(content, "mainMod", "mod");
    assert!(changed);
    let (back, _) = hyprkcs::refs::replace_variable_in_content(&out, "mod", "mainMod");
    assert_eq!(back, content);
}

#[test]
fn variable_save_renames_when_the_name_changed() {
    assert_eq!(hyprkcs::variable_edit::rename_needed(Some("$mainMod"), "mod"), Some("mainMod".to_string()));
    assert_eq!(hyprkcs::variable_edit::rename_needed(Some("$mainMod"), "mainMod"), None);
    assert_eq!(hyprkcs::variable_edit::rename_needed(None, "mod"), None);
    assert_eq!(hyprkcs::variable_edit::saved_message(None), "Saved successfully");
    assert_eq!(hyprkcs::variable_edit::saved_message(Some(0)), "Saved successfully. No usages found to refactor.");
    assert_eq!(hyprkcs::variable_edit::saved_message(Some(3)), "Saved successfully. Refactored 3 usages.");
}

#[test]
fn input_settings_saved_into_a_block_read_back() {
    let content = "monitor = ,preferred,auto,1\ninput {\n    kb_layout = us # main\n    follow_mouse = 2\n    sensitivity = 0.5\n}\ngesture = 4, horizontal, workspace\n";
    let v = InputValues {
        kb_layout: "de".to_string(),
        kb_variant: String::new(),
        kb_options: "caps:escape".to_string(),
        follow_mouse: 0,
        repeat_rate: 30,
        repeat_delay: 400,
    };
    let g = GesturesConfig { workspace_swipe: true, workspace_swipe_fingers: 3 };
    let text = save_input_config(content, &v, "-0.1", &g);
    let (back, sens, gb) = load_input_config(&text);
    assert_eq!(back.kb_layout, "de");
    assert_eq!(back.kb_variant, "");
    assert_eq!(back.kb_options, "caps:escape");
    assert_eq!(back.follow_mouse, 0);
    assert_eq!(back.repeat_rate, 30);
    assert_eq!(back.repeat_delay, 400);
    assert_eq!(sens, strings(&["-0.1"]));
    assert!(gb.workspace_swipe);
    assert_eq!(gb.workspace_swipe_fingers, 3);
    assert!(text.contains("    kb_layout = de # main"));
}

#[test]
fn input_settings_saved_with_swipe_off_read_back() {
    let content = "gesture = 4, horizontal, workspace\ninput {\n    repeat_rate = 25\n    kb_variant = intl\n}\n\n";
    let v = InputValues {
        kb_layout: "us".to_string(),
        kb_variant: String::new(),
        kb_options: String::new(),
        follow_mouse: 1,
        repeat_rate: 50,
        repeat_delay: 600,
    };
    let text = save_input_config(content, &v, "0", &GesturesConfig::default());
    assert!(!text.contains("gesture"));
    let (back, sens, g) = load_input_config(&text);
    assert_eq!(back.kb_layout, "us");
    assert_eq!(back.kb_variant, "");
    assert_eq!(back.repeat_rate, 50);
    assert_eq!(back.repeat_delay, 600);
    assert_eq!(sens, strings(&["0"]));
    assert!(!g.workspace_swipe);
}
