use hyprkcs::edit::{
    add_keybind, add_variable, create_submap_block, delete_keybind, delete_variable, update_line,
    update_multiple_lines, update_variable, write_lines, BatchUpdate, EditError,
};
use hyprkcs::parser::{config_lines, scan_keybinds};
use hyprkcs::vars::VarMap;

fn lines(v: &[&str]) -> Vec<String> {
    v.iter().map(|s| s.to_string()).collect()
}

#[test]
fn update_line_keeps_indent_flags_and_comment() {
    let ls = lines(&["  binde = SUPER, L, resizeactive, 10 0 # grow"]);
    let r = update_line(ls, 0, "ALT", "H", "resizeactive", "-10 0", None, None).ok().unwrap();
    assert_eq!(r[0], "  binde = ALT, H, resizeactive, -10 0 # grow");
}

#[test]
fn update_line_with_description_and_no_args() {
    let ls = lines(&["bind = SUPER, Q, killactive, # old"]);
    let r = update_line(ls, 0, "SUPER", "Q", "killactive", "  ", Some("Close".to_string()), None)
        .ok()
        .unwrap();
    assert_eq!(r[0], "bind = SUPER, Q, killactive # Close");
}

#[test]
fn update_line_bindd_puts_description_in_fields() {
    let ls = lines(&["bind = SUPER, Q, killactive,"]);
    let r = update_line(ls, 0, "SUPER", "Q", "exec", "kitty", Some("Term".to_string()), Some("d".to_string()))
        .ok()
        .unwrap();
    assert_eq!(r[0], "bindd = SUPER, Q, Term, exec, kitty");
}

#[test]
fn update_line_errors() {
    let ls = lines(&["$a = 1", "bind SUPER Q"]);
    assert!(matches!(
        update_line(ls.clone(), 5, "", "", "", "", None, None),
        Err(EditError::LineOutOfBounds)
    ));
    assert!(matches!(update_line(ls.clone(), 0, "", "", "", "", None, None), Err(EditError::NotABindLine)));
    assert!(matches!(update_line(ls, 1, "", "", "", "", None, None), Err(EditError::UnparsableLine)));
    assert_eq!(EditError::LineOutOfBounds.message(), "Line number out of bounds");
    assert_eq!(EditError::NotABindLine.message(), "Not a bind line");
    assert_eq!(EditError::UnparsableLine.message(), "Could not parse original line structure");
}

#[test]
fn batch_update_skips_non_bind_lines() {
    let ls = lines(&["bind = SUPER, Q, killactive,", "$x = 1", "bind = SUPER, W, exec, a"]);
    let ups = vec![
        BatchUpdate {
            line_number: 0,
            new_mods: "ALT".to_string(),
            new_key: "Q".to_string(),
            new_dispatcher: "killactive".to_string(),
            new_args: "".to_string(),
            description: None,
        },
        BatchUpdate {
            line_number: 1,
            new_mods: "ALT".to_string(),
            new_key: "X".to_string(),
            new_dispatcher: "exec".to_string(),
            new_args: "b".to_string(),
            description: None,
        },
        BatchUpdate {
            line_number: 2,
            new_mods: "ALT".to_string(),
            new_key: "W".to_string(),
            new_dispatcher: "exec".to_string(),
            new_args: "b".to_string(),
            description: None,
        },
    ];
    let r = update_multiple_lines(ls, ups);
    assert_eq!(r, lines(&["bind = ALT, Q, killactive", "$x = 1", "bind = ALT, W, exec, b"]));
}

#[test]
fn delete_removes_exactly_one_line() {
    let ls = lines(&["a", "b", "c"]);
    assert_eq!(delete_keybind(ls.clone(), 1).ok().unwrap(), lines(&["a", "c"]));
    assert_eq!(delete_variable(ls.clone(), 0).ok().unwrap(), lines(&["b", "c"]));
    assert!(matches!(delete_keybind(ls, 3), Err(EditError::LineOutOfBounds)));
}

#[test]
fn add_keybind_appends_at_end_outside_submaps() {
    let (r, idx) = add_keybind(lines(&["bind = SUPER, Q, killactive,"]), "SUPER", "W", "exec", "kitty", None, None, "");
    assert_eq!(r, lines(&["bind = SUPER, Q, killactive,", "bind = SUPER, W, exec, kitty"]));
    assert_eq!(idx, 1);
}

#[test]
fn add_variable_joins_the_variable_block() {
    let r = add_variable(lines(&["$a = 1", "$b = 2", "", "bind = SUPER, Q, killactive,"]), "$c", "3");
    assert_eq!(r, lines(&["$a = 1", "$b = 2", "$c = 3", "", "bind = SUPER, Q, killactive,"]));
}

#[test]
fn add_variable_without_block_goes_after_comments() {
    let r = add_variable(lines(&["# header", "bind = SUPER, Q, killactive,"]), "term", "kitty");
    assert_eq!(r, lines(&["# header", "$term = kitty", "bind = SUPER, Q, killactive,"]));
    let r = add_variable(Vec::new(), "term", "kitty");
    assert_eq!(r, lines(&["$term = kitty"]));
}

#[test]
fn update_variable_keeps_comment() {
    let r = update_variable(lines(&["$term = kitty # terminal"]), 0, "$t", "foot").ok().unwrap();
    assert_eq!(r, lines(&["$t = foot  # terminal"]));
    assert!(matches!(update_variable(lines(&["x"]), 1, "a", "b"), Err(EditError::LineOutOfBounds)));
}

#[test]
fn submap_block_closes_open_submap() {
    let r = create_submap_block(lines(&["submap = resize", "bind = , l, resizeactive, 10 0"]), "move", Some("escape"), "reset");
    assert_eq!(
        r,
        lines(&[
            "submap = resize",
            "bind = , l, resizeactive, 10 0",
            "submap = reset",
            "",
            "submap = move",
            "bind = , escape, submap, reset",
            "submap = reset",
        ])
    );
    let r = create_submap_block(Vec::new(), "m", None, "reset");
    assert_eq!(r, lines(&["", "submap = m", "submap = reset"]));
}

#[test]
fn write_lines_ends_with_newline_unless_empty() {
    assert_eq!(write_lines(&lines(&["a", "b"])), "a\nb\n");
    assert_eq!(write_lines(&Vec::new()), "");
    assert_eq!(config_lines("a\nb\n"), lines(&["a", "b"]));
}

#[test]
fn rewritten_keybind_reads_back() {
    let ls = lines(&["  binde = SUPER, L, resizeactive, 10 0 # grow"]);
    let r = update_line(ls, 0, "ALT SHIFT", "H", "resizeactive", "-10 0", None, None).ok().unwrap();
    let scan = scan_keybinds(&r, 0, None, &VarMap::new(), "f.conf");
    assert_eq!(scan.binds.len(), 1);
    let b = &scan.binds[0];
    assert_eq!(b.mods, "ALT SHIFT");
    assert_eq!(b.key, "H");
    assert_eq!(b.dispatcher, "resizeactive");
    assert_eq!(b.args, "-10 0");
    assert_eq!(b.flags, "e");
    assert_eq!(b.description, Some("grow".to_string()));
}

#[test]
fn update_line_with_wide_indentation_is_not_a_bind_line() {
    let ls = vec!["\u{a0}\u{a0}bind = SUPER, T, exec, kitty".to_string()];
    assert!(hyprkcs::edit::indent_cuts(&ls[0]));
    let r = update_line(ls, 0, "ALT", "H", "exec", "foot", None, None);
    assert!(matches!(r, Err(hyprkcs::edit::EditError::NotABindLine)));
    assert!(!hyprkcs::edit::indent_cuts("\u{a0}bind = SUPER, T, exec, kitty"));
    assert!(hyprkcs::edit::indent_cuts("  bind = SUPER, T, exec, kitty"));
}

#[test]
fn keybind_added_into_a_new_submap_reads_back() {
    let ls = lines(&["bind = SUPER, Q, killactive"]);
    let (r, idx) = add_keybind(ls, "", "L", "resizeactive", "10 0", Some("resize".to_string()), None, "e");
    assert_eq!(idx, 3);
    let scan = scan_keybinds(&r, 0, None, &VarMap::new(), "f.conf");
    assert_eq!(scan.binds.len(), 2);
    let b = &scan.binds[1];
    assert_eq!(b.submap, Some("resize".to_string()));
    assert_eq!(b.key, "L");
    assert_eq!(b.args, "10 0");
    assert_eq!(b.line_number, 3);
    assert_eq!(scan.submap, None);
}
