use hyprkcs::conflicts::ConflictInfo;
use hyprkcs::forms::{
    command_to_check, conflict_details, form_error, form_submap, missing_command_message, strip_variable_prefix,
    suggestion_label, with_variable_prefix,
};

fn pair(a: &str, b: &str) -> (String, String) {
    (a.to_string(), b.to_string())
}

#[test]
fn form_submap_is_trimmed() {
    assert_eq!(form_submap("  resize "), Some("resize".to_string()));
    assert_eq!(form_submap("   "), None);
    assert_eq!(form_submap(""), None);
}

#[test]
fn form_errors_in_order() {
    assert_eq!(form_error(" ", true, false, &[], "exec"), Some("Error: Key cannot be empty".to_string()));
    assert_eq!(form_error(" ", false, false, &[], "exec"), None);
    assert_eq!(
        form_error("T", true, true, &[], ""),
        Some("Error: Macro must have at least one valid action".to_string())
    );
    assert_eq!(form_error("T", true, true, &[pair("exec", "kitty")], ""), None);
    assert_eq!(form_error("T", true, false, &[], "  "), Some("Error: Dispatcher cannot be empty".to_string()));
    assert_eq!(form_error("T", true, false, &[], "exec"), None);
}

#[test]
fn commands_checked_for_exec_only() {
    assert_eq!(command_to_check(false, "exec", " kitty ", false), Some("kitty".to_string()));
    assert_eq!(command_to_check(false, "execr", "foot", true), Some("foot".to_string()));
    assert_eq!(command_to_check(false, "exec", "$terminal", true), None);
    assert_eq!(command_to_check(false, "exec", "$terminal", false), Some("$terminal".to_string()));
    assert_eq!(command_to_check(true, "exec", "kitty", false), None);
    assert_eq!(command_to_check(false, "workspace", "1", false), None);
}

#[test]
fn form_texts() {
    assert_eq!(
        missing_command_message("kity", "add"),
        "The command 'kity' was not found in your PATH.\nAre you sure you want to add this keybind?"
    );
    let c = ConflictInfo {
        dispatcher: "exec".to_string(),
        args: "kitty".to_string(),
        file: "/home/u/.config/hypr/hyprland.conf".to_string(),
        line: 42,
    };
    assert_eq!(conflict_details(&c), "Dispatcher: exec\nArgs: kitty\nFile: /home/u/.config/hypr/hyprland.conf:42");
    assert_eq!(suggestion_label("SUPER SHIFT", "T"), "SUPER SHIFT + T");
}

#[test]
fn variable_prefix_round_trip() {
    assert_eq!(strip_variable_prefix("$mainMod"), ("mainMod".to_string(), true));
    assert_eq!(strip_variable_prefix("SUPER"), ("SUPER".to_string(), false));
    let (shown, had) = strip_variable_prefix("$mainMod SHIFT");
    assert_eq!(with_variable_prefix(&shown, had), "$mainMod SHIFT");
    assert_eq!(with_variable_prefix("ALT", false), "ALT");
}
