use hyprkcs::parser::resolve_variables;
use hyprkcs::vars::VarMap;

#[test]
fn test_resolve_variables() {
    let mut vars = VarMap::new();
    vars.insert("$mainMod".to_string(), "SUPER".to_string());
    vars.insert("$browser".to_string(), "firefox".to_string());

    let sorted_keys = vec!["$mainMod".to_string(), "$browser".to_string()];

    assert_eq!(
        resolve_variables("$mainMod SHIFT", &vars, &sorted_keys),
        "SUPER SHIFT"
    );
    assert_eq!(
        resolve_variables("exec, $browser", &vars, &sorted_keys),
        "exec, firefox"
    );
    assert_eq!(
        resolve_variables("no vars here", &vars, &sorted_keys),
        "no vars here"
    );
}

#[test]
fn test_variable_precedence() {
    let mut vars = VarMap::new();
    vars.insert("$term".to_string(), "kitty".to_string());
    vars.insert("$terminal".to_string(), "alacritty".to_string());

    let sorted_keys = vec!["$terminal".to_string(), "$term".to_string()];

    assert_eq!(
        resolve_variables("$terminal", &vars, &sorted_keys),
        "alacritty"
    );
}

use hyprkcs::edit::{add_keybind, delete_keybind, write_lines};
use hyprkcs::parser::{
    classify_line, config_lines, expand_tilde_with_home, is_glob_pattern, scan_keybinds, scan_variables,
    split_comment, ConfigLine, Keybind, KeybindScan,
};

fn read(content: &str) -> KeybindScan {
    let lines = config_lines(content);
    let mut vars = VarMap::new();
    let _ = scan_variables(&lines, 0, &mut vars, "hyprland.conf");
    scan_keybinds(&lines, 0, None, &vars, "hyprland.conf")
}

fn binds(content: &str) -> Vec<Keybind> {
    read(content).binds
}

#[test]
fn test_parse_config_simple() {
    let content = "$\n$mainMod = SUPER\nbind = $mainMod, Q, exec, kitty\nbind = CTRL, C, killactive,\n";
    let binds = binds(content);
    assert_eq!(binds.len(), 2);

    let b1 = &binds[0];
    assert_eq!(b1.mods, "SUPER");
    assert_eq!(b1.key, "Q");
    assert_eq!(b1.dispatcher, "exec");
    assert_eq!(b1.args, "kitty");

    let b2 = &binds[1];
    assert_eq!(b2.mods, "CTRL");
    assert_eq!(b2.key, "C");
    assert_eq!(b2.dispatcher, "killactive");
    assert!(b2.args.is_empty());
}

#[test]
fn test_add_keybind() {
    let content = "$\n$mainMod = SUPER\nbind = $mainMod, Q, exec, kitty\n";
    let (lines, _) = add_keybind(config_lines(content), "SUPER SHIFT", "F", "fullscreen", "0", None, None, "");
    let new_content = write_lines(&lines);
    assert!(new_content.contains("bind = SUPER SHIFT, F, fullscreen, 0"));
    assert_eq!(binds(&new_content).len(), 2);
}

#[test]
fn test_delete_keybind() {
    let content = "$\nbind = SUPER, 1, workspace, 1\nbind = SUPER, 2, workspace, 2\nbind = SUPER, 3, workspace, 3\n";
    let lines = delete_keybind(config_lines(content), 2).ok().expect("Failed to delete");
    let new_content = write_lines(&lines);
    assert!(!new_content.contains("workspace, 2"));
    assert!(new_content.contains("workspace, 1"));
    assert!(new_content.contains("workspace, 3"));
}

#[test]
fn test_source_inclusion() {
    let scan = read("source = ~/binds.conf\n");
    assert_eq!(scan.binds.len(), 0);
    assert_eq!(scan.source, Some((1, "~/binds.conf".to_string())));
    let sourced = binds("bind = ALT, F4, killactive,");
    assert_eq!(sourced.len(), 1);
    assert_eq!(sourced[0].mods, "ALT");
}

#[test]
fn test_submaps_parsing() {
    let content = "\nbind = SUPER, R, submap, resize\nsubmap = resize\nbinde = , l, resizeactive, 10 0\nbind = , escape, submap, reset\nsubmap = reset\nbind = SUPER, Return, exec, alacritty\n";
    let binds = binds(content);
    assert_eq!(binds.len(), 4);

    assert_eq!(binds[0].submap, None);
    assert_eq!(binds[0].dispatcher, "submap");
    assert_eq!(binds[0].args, "resize");

    assert_eq!(binds[1].submap, Some("resize".to_string()));
    assert_eq!(binds[1].flags, "e");
    assert_eq!(binds[1].dispatcher, "resizeactive");

    assert_eq!(binds[2].submap, Some("resize".to_string()));

    assert_eq!(binds[3].submap, None);
    assert_eq!(binds[3].key, "Return");
}

#[test]
fn test_add_keybind_to_submap() {
    let content = "\nsubmap = existing\nbind = , k, killactive,\nsubmap = reset\n";
    let (lines, _) = add_keybind(
        config_lines(content),
        "",
        "m",
        "movefocus",
        "l",
        Some("existing".to_string()),
        None,
        "",
    );
    let new_content = write_lines(&lines);
    assert!(new_content.contains("bind = , m, movefocus, l"));

    let (lines2, _) = add_keybind(lines, "", "q", "quit", "", Some("newmap".to_string()), None, "");
    let new_content_2 = write_lines(&lines2);
    assert!(new_content_2.contains("submap = newmap"));
    assert!(new_content_2.contains("bind = , q, quit"));
    assert!(new_content_2.contains("submap = reset"));
}

#[test]
fn test_comments_and_whitespace() {
    let content = "\n# This is a comment\nbind = SUPER, C, exec, code # Launch VS Code\n    bind   =   ALT ,  Tab  ,   cyclenext,    # messy spacing\n";
    let binds = binds(content);
    assert_eq!(binds.len(), 2);

    assert_eq!(binds[0].key, "C");
    assert_eq!(binds[0].args, "code");

    assert_eq!(binds[1].mods, "ALT");
    assert_eq!(binds[1].key, "Tab");
    assert_eq!(binds[1].dispatcher, "cyclenext");
}

#[test]
fn test_variable_chains() {
    let content = "\n$term = alacritty\n$myExec = exec, $term\nbind = SUPER, Return, $myExec\n";
    let binds = binds(content);
    assert_eq!(binds.len(), 1);
    assert_eq!(binds[0].dispatcher, "exec");
    assert_eq!(binds[0].args, "alacritty");
}

#[test]
fn test_malformed_lines() {
    let content = "\nbind = SUPER, Q\nbind =\nrandom junk text\nbind = SUPER, W, exec\n";
    let binds = binds(content);
    assert_eq!(binds.len(), 1);
    assert_eq!(binds[0].key, "W");
    assert_eq!(binds[0].dispatcher, "exec");
}

#[test]
fn line_numbers_and_file_are_recorded() {
    let binds = binds("# top\nbind = SUPER, Q, killactive,\n");
    assert_eq!(binds[0].line_number, 1);
    assert_eq!(binds[0].file_path, "hyprland.conf");
}

#[test]
fn description_comes_from_trailing_comment() {
    let binds = binds("bind = SUPER, T, exec, kitty # Terminal\n");
    assert_eq!(binds[0].description, Some("Terminal".to_string()));
    assert_eq!(binds[0].args, "kitty");
}

#[test]
fn classify_recognises_each_kind_of_line() {
    let c: Vec<char> = "source = ~/x.conf".chars().collect();
    assert!(matches!(classify_line(&c), ConfigLine::Source(p) if p == "~/x.conf"));
    let c: Vec<char> = "submap = reset".chars().collect();
    assert!(matches!(classify_line(&c), ConfigLine::Submap(None)));
    let c: Vec<char> = "submap = resize".chars().collect();
    assert!(matches!(classify_line(&c), ConfigLine::Submap(Some(n)) if n == "resize"));
    let c: Vec<char> = "# bind = SUPER, Q, exec, x".chars().collect();
    assert!(matches!(classify_line(&c), ConfigLine::Nothing));
}

#[test]
fn split_comment_separates_description() {
    let (code, comment) = split_comment("bind = SUPER, Q, exec, kitty # Terminal");
    assert_eq!(code, "bind = SUPER, Q, exec, kitty");
    assert_eq!(comment, " # Terminal");
}

#[test]
fn glob_patterns_are_detected() {
    assert!(is_glob_pattern("~/conf/*.conf"));
    assert!(is_glob_pattern("file?.conf"));
    assert!(is_glob_pattern("[ab].conf"));
    assert!(!is_glob_pattern("plain.conf"));
}

#[test]
fn tilde_expands_with_home() {
    assert_eq!(expand_tilde_with_home("~/a.conf", Some("/home/u".to_string())), "/home/u/a.conf");
    assert_eq!(expand_tilde_with_home("/etc/a.conf", Some("/home/u".to_string())), "/etc/a.conf");
}

#[test]
fn variables_defined_are_listed() {
    let lines = config_lines("$a = 1\n$b = two\nbind = SUPER, Q, exec, $b\n");
    let mut vars = VarMap::new();
    let (defined, source) = scan_variables(&lines, 0, &mut vars, "f.conf");
    assert_eq!(defined.len(), 2);
    assert_eq!(defined[0].name, "$a");
    assert_eq!(defined[1].value, "two");
    assert_eq!(defined[1].line_number, 1);
    assert!(source.is_none());
    assert_eq!(vars.len(), 2);
}

#[test]
fn written_keybind_reads_back_with_description() {
    let (lines, idx) = add_keybind(Vec::new(), "SUPER SHIFT", "Return", "exec", "kitty, --class x", None, Some(" Terminal ".to_string()), "e");
    let scan = scan_keybinds(&lines, 0, None, &VarMap::new(), "f.conf");
    assert_eq!(scan.binds.len(), 1);
    let b = &scan.binds[0];
    assert_eq!(b.line_number, idx);
    assert_eq!(b.mods, "SUPER SHIFT");
    assert_eq!(b.key, "Return");
    assert_eq!(b.dispatcher, "exec");
    assert_eq!(b.args, "kitty, --class x");
    assert_eq!(b.flags, "e");
    assert_eq!(b.description, Some("Terminal".to_string()));
}

#[test]
fn written_keybind_with_undefined_variable_reads_back() {
    let (lines, idx) = add_keybind(Vec::new(), "$mod", "T", "exec", "echo $HOME", None, None, "");
    let mut vars = VarMap::new();
    vars.insert("$term".to_string(), "kitty".to_string());
    let scan = scan_keybinds(&lines, 0, None, &vars, "f.conf");
    assert_eq!(scan.binds.len(), 1);
    let b = &scan.binds[0];
    assert_eq!(b.line_number, idx);
    assert_eq!(b.mods, "$mod");
    assert_eq!(b.args, "echo $HOME");
    let mut defined = VarMap::new();
    defined.insert("$mod".to_string(), "SUPER".to_string());
    let scan2 = scan_keybinds(&lines, 0, None, &defined, "f.conf");
    assert_eq!(scan2.binds[0].mods, "SUPER");
}
