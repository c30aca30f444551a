use hyprkcs::components::{recorded_modifiers, get_flag_from_index, get_index_from_flag, get_index_from_mouse_code, get_mouse_code_from_index};
use hyprkcs::export::export_keybinds_to_markdown;
use hyprkcs::favorites::{is_favorite, toggle_favorite, FavoriteKeybind};
use hyprkcs::keybind_object::keybind_entry;
use hyprkcs::macros::{compile_macro, parse_macro};
use hyprkcs::parser::Keybind;
use hyprkcs::search::{fuzzy_matches, SearchQuery};
use hyprkcs::wizards::get_conflict_groups;

fn kb(mods: &str, key: &str, dispatcher: &str, args: &str, line: usize) -> Keybind {
    Keybind {
        mods: mods.to_string(),
        clean_mods: mods.to_string(),
        flags: String::new(),
        key: key.to_string(),
        dispatcher: dispatcher.to_string(),
        args: args.to_string(),
        description: None,
        submap: None,
        line_number: line,
        file_path: "hyprland.conf".to_string(),
    }
}

fn pair(a: &str, b: &str) -> (String, String) {
    (a.to_string(), b.to_string())
}

#[test]
fn compile_macro_builds_bash_script() {
    let r = compile_macro(&[pair("workspace", "1"), pair("  ", "ignored"), pair("exec", "notify-send \"hi\"")]);
    assert_eq!(
        r,
        Some(pair(
            "exec",
            "bash -c \"hyprctl dispatch workspace \"1\"; hyprctl dispatch exec \"notify-send \\\"hi\\\"\"\""
        ))
    );
    assert_eq!(compile_macro(&[pair(" ", "x")]), None);
    assert_eq!(compile_macro(&[pair("killactive", " ")]), Some(pair("exec", "bash -c \"hyprctl dispatch killactive\"")));
}

#[test]
fn macro_round_trip() {
    let actions = vec![pair("workspace", "2"), pair("killactive", "")];
    let (d, a) = compile_macro(&actions).unwrap();
    assert_eq!(parse_macro(&d, &a), Some(actions));
}

#[test]
fn parse_macro_rejects_other_commands() {
    assert_eq!(parse_macro("workspace", "1"), None);
    assert_eq!(parse_macro("exec", "kitty"), None);
    assert_eq!(parse_macro("exec", "bash -c \"ls -la; hyprctl dispatch x\""), None);
    assert_eq!(parse_macro("execr", "bash -c \"hyprctl dispatch pin\""), Some(vec![pair("pin", "")]));
}

#[test]
fn flag_and_mouse_indices_round_trip() {
    for i in 0..10u32 {
        assert_eq!(get_index_from_flag(get_flag_from_index(i)), i);
    }
    assert_eq!(get_flag_from_index(4), "el");
    assert_eq!(get_flag_from_index(99), "");
    assert_eq!(get_index_from_flag("unknown"), 0);
    for i in 0..3u32 {
        assert_eq!(get_index_from_mouse_code(get_mouse_code_from_index(i)), i);
    }
    assert_eq!(get_mouse_code_from_index(0), "mouse:272");
    assert_eq!(get_index_from_mouse_code("mouse:999"), 0);
}

fn fav(key: &str) -> FavoriteKeybind {
    FavoriteKeybind {
        mods: "SUPER".to_string(),
        key: key.to_string(),
        submap: String::new(),
        dispatcher: "exec".to_string(),
        args: "kitty".to_string(),
    }
}

#[test]
fn toggling_a_favorite_twice_restores_the_list() {
    let mut favs = vec![fav("A")];
    assert!(toggle_favorite(&mut favs, fav("T")));
    assert!(is_favorite(&favs, "SUPER", "T", "", "exec", "kitty"));
    assert!(!toggle_favorite(&mut favs, fav("T")));
    assert!(!is_favorite(&favs, "SUPER", "T", "", "exec", "kitty"));
    assert_eq!(favs.len(), 1);
    assert_eq!(favs[0].key, "A");
}

#[test]
fn search_query_reads_filters() {
    let q = SearchQuery::parse("mod:Super key:Q Firefox act:exec  extra: desc:term");
    assert_eq!(q.mods, Some("super".to_string()));
    assert_eq!(q.key, Some("q".to_string()));
    assert_eq!(q.action, Some("exec".to_string()));
    assert_eq!(q.description, Some("term".to_string()));
    assert_eq!(q.args, None);
    assert_eq!(q.general_query, "firefox extra:");
}

#[test]
fn fuzzy_matching_uses_the_skim_matcher() {
    assert!(fuzzy_matches("firefox", "ffx"));
    assert!(!fuzzy_matches("firefox", "xyz"));
    assert!(fuzzy_matches("anything", ""));
}

#[test]
fn entries_match_queries_and_categories() {
    let e = keybind_entry(kb("SUPER", "1", "workspace", "1", 0), None, None, false);
    assert!(e.matches_query(&SearchQuery::parse(""), 0));
    assert!(e.matches_query(&SearchQuery::parse("key:1"), 1));
    assert!(!e.matches_query(&SearchQuery::parse(""), 4));
    assert!(!e.matches_query(&SearchQuery::parse("act:exec"), 0));
    let f = keybind_entry(kb("SUPER", "T", "exec", "kitty", 1), None, None, true);
    assert!(f.matches_query(&SearchQuery::parse("kitty"), 4));
    assert!(f.matches_query(&SearchQuery::parse(""), 6));
    assert!(!e.matches_query(&SearchQuery::parse(""), 6));
}

#[test]
fn entries_keep_their_marks() {
    let e = keybind_entry(kb("SUPER", "T", "exec", "kitty", 3), Some("Conflicts with: x".to_string()), None, false);
    assert!(e.data.is_conflicted);
    assert_eq!(e.data.conflict_reason, Some("Conflicts with: x".to_string()));
    assert!(!e.data.is_broken);
    assert_eq!(e.data.line_number, 3);
    assert_eq!(e.data.args, Some("kitty".to_string()));
    let b = keybind_entry(kb("SUPER", "Q", "killactive", "", 4), None, Some("Executable not found: x".to_string()), false);
    assert!(b.data.is_broken);
    assert_eq!(b.data.args, None);
}

#[test]
fn conflict_groups_collect_marked_collisions() {
    let c = Some("Conflicts with: x".to_string());
    let objects = vec![
        keybind_entry(kb("SUPER", "Q", "exec", "a", 7), c.clone(), None, false),
        keybind_entry(kb("SUPER", "W", "exec", "b", 2), c.clone(), None, false),
        keybind_entry(kb("super", "q", "exec", "c", 9), c.clone(), None, false),
        keybind_entry(kb("SUPER", "W", "exec", "d", 3), c.clone(), None, false),
        keybind_entry(kb("SUPER", "E", "exec", "e", 1), c.clone(), None, false),
        keybind_entry(kb("SUPER", "Q", "exec", "f", 10), None, None, false),
    ];
    assert_eq!(get_conflict_groups(&objects), vec![vec![1, 3], vec![0, 2]]);
    assert_eq!(get_conflict_groups(&objects[4..]), Vec::<Vec<usize>>::new());
}

#[test]
fn markdown_export_has_a_row_per_keybind() {
    let objects = vec![keybind_entry(kb("SUPER", "Q", "killactive", "", 0), None, None, false)];
    assert_eq!(
        export_keybinds_to_markdown(&objects),
        "# Hyprland Keybinds\n\n(Exported with HyprKCS)\n\n| Modifiers | Key | Action | Arguments | Submap | Description |\n|---|---|---|---|---|---|\n| SUPER | Q | killactive |  |  |  |\n"
    );
}

#[test]
fn submap_choices_are_sorted_and_unique() {
    let mut a = kb("SUPER", "R", "exec", "x", 0);
    a.submap = Some("resize".to_string());
    let mut b = kb("SUPER", "M", "exec", "x", 1);
    b.submap = Some("move".to_string());
    let mut c = kb("SUPER", "N", "exec", "x", 2);
    c.submap = Some("resize".to_string());
    let mut d = kb("SUPER", "E", "exec", "x", 3);
    d.submap = Some(String::new());
    let e = kb("SUPER", "F", "exec", "x", 4);
    let objects: Vec<_> = vec![a, b, c, d, e].into_iter().map(|k| keybind_entry(k, None, None, false)).collect();
    assert_eq!(hyprkcs::components::collect_submaps(&objects), vec!["move".to_string(), "resize".to_string()]);
}

#[test]
fn list_entries_carry_marks_and_favorites() {
    let ks = vec![kb("SUPER", "T", "exec", "kitty", 0), kb("SUPER", "Q", "killactive", "", 1)];
    let favs = vec![FavoriteKeybind {
        mods: "SUPER".to_string(),
        key: "T".to_string(),
        submap: String::new(),
        dispatcher: "exec".to_string(),
        args: "kitty".to_string(),
    }];
    let conflicts = vec![None, Some("Conflicts with: x".to_string())];
    let broken = vec![Some("Executable not found: kitty".to_string()), None];
    let objects = hyprkcs::keybind_object::keybind_entries(&ks, &conflicts, &broken, &favs);
    assert_eq!(objects.len(), 2);
    assert!(objects[0].data.is_favorite && objects[0].data.is_broken && !objects[0].data.is_conflicted);
    assert!(!objects[1].data.is_favorite && objects[1].data.is_conflicted);
    assert!(hyprkcs::keybind_object::entries_match(&objects, &ks));
    let other = vec![kb("SUPER", "T", "exec", "foot", 0), kb("SUPER", "Q", "killactive", "", 1)];
    assert!(!hyprkcs::keybind_object::entries_match(&objects, &other));
    assert!(!hyprkcs::keybind_object::entries_match(&objects, &ks[..1]));
    assert_eq!(hyprkcs::keybind_object::keybind_entries(&ks, &conflicts[..1], &broken, &favs).len(), 1);
}

#[test]
fn recorded_modifiers_are_named_in_order() {
    assert_eq!(recorded_modifiers(true, false, true, true), "SUPER ALT SHIFT");
    assert_eq!(recorded_modifiers(false, true, false, false), "CONTROL");
    assert_eq!(recorded_modifiers(false, false, false, false), "");
}
