use hyprkcs::apps::{clean_exec_cmd, collect_apps, parse_desktop_file, AppInfo};
use hyprkcs::cli::{column_widths, search_matches, Args, CliRequest};
use hyprkcs::layouts::{detect_layout, layout_rows, LayoutRows};
use hyprkcs::numbers::{int_to_text, parse_i32_exec};
use hyprkcs::parser::Keybind;
use hyprkcs::search::SearchQuery;
use hyprkcs::style::{parse_ini_like, parse_pixels, style_file_text, style_settings, OpacityCheck};
use hyprkcs::vars::VarMap;

fn chars(s: &str) -> Vec<char> {
    s.chars().collect()
}

fn get(m: &VarMap, k: &str) -> Option<String> {
    m.get_chars(&chars(k)).map(|v| v.into_iter().collect())
}

#[test]
fn ini_entries_are_trimmed_and_comments_skipped() {
    let m = parse_ini_like("width = 800\n# height = 1\nheight=90px\nnot an entry\nwidth = 900\n");
    assert_eq!(get(&m, "width"), Some("900".to_string()));
    assert_eq!(get(&m, "height"), Some("90px".to_string()));
    assert_eq!(m.len(), 2);
}

#[test]
fn pixels_accept_px_suffix() {
    assert_eq!(parse_pixels("700px"), Some(700));
    assert_eq!(parse_pixels(" 12 "), Some(12));
    assert_eq!(parse_pixels("-3PX"), Some(-3));
    assert_eq!(parse_pixels("abc"), None);
}

#[test]
fn style_defaults_when_nothing_is_set() {
    let s = style_settings(&VarMap::new(), OpacityCheck::Valid);
    assert_eq!(s.width, 700);
    assert_eq!(s.height, 500);
    assert!(!s.show_submaps);
    assert!(s.show_args && s.show_favorites && s.alternating_row_colors);
    assert_eq!(s.default_sort, "key");
    assert_eq!(s.monitor_margin, 12);
    assert_eq!(s.row_padding, 2);
    assert_eq!(s.shadow_size, "0 4px 24px rgba(0,0,0,0.4)");
    assert_eq!(s.keyboard_layout, "ANSI");
    assert!(!s.show_description);
    assert!(s.auto_backup);
    assert!(!s.max_backups_enabled);
    assert_eq!(s.max_backups_count, 10);
    assert!(s.errors.is_empty());
}

#[test]
fn behavior_settings_read_and_saved() {
    let m = parse_ini_like("keyboardLayout = ISO\nshowDescription = true\nautoBackup = false\nmaxBackupsEnabled = TRUE\nmaxBackupsCount = 20\n");
    let s = style_settings(&m, OpacityCheck::Valid);
    assert_eq!(s.keyboard_layout, "ISO");
    assert!(s.show_description && !s.auto_backup && s.max_backups_enabled);
    assert_eq!(s.max_backups_count, 20);
    let bad = style_settings(&parse_ini_like("maxBackupsCount = -3\n"), OpacityCheck::Valid);
    assert_eq!(bad.max_backups_count, 10);
    let text = style_file_text(&s, "1");
    assert!(text.contains("# Behavior\nautoBackup = false\nmaxBackupsEnabled = true\nmaxBackupsCount = 20\n"));
    let again = style_settings(&parse_ini_like(&text), OpacityCheck::Valid);
    assert_eq!(again.keyboard_layout, "ISO");
    assert!(again.show_description && !again.auto_backup && again.max_backups_enabled);
    assert_eq!(again.max_backups_count, 20);
}

#[test]
fn style_reports_unusable_values() {
    let m = parse_ini_like("height = 90px\nwidth = wide\nopacity = 2\nshowSubmaps = TRUE\nrowPadding = -1\n");
    let s = style_settings(&m, OpacityCheck::OutOfRange);
    assert_eq!(s.width, 700);
    assert_eq!(s.height, 500);
    assert!(s.show_submaps);
    assert_eq!(s.row_padding, 2);
    assert_eq!(
        s.errors,
        vec![
            "Opacity '2' out of range (0.0 - 1.0). Using default.".to_string(),
            "Invalid width value 'wide'.".to_string(),
            "Height '90px' is too small (min 100px). Using default.".to_string(),
            "Row padding '-1' cannot be negative. Using default.".to_string(),
        ]
    );
}

#[test]
fn style_text_reads_back() {
    let m = parse_ini_like("width = 800px\nfontSize = 1rem\ndefaultSort = Dispatcher\n");
    let s = style_settings(&m, OpacityCheck::Valid);
    let text = style_file_text(&s, "0.9");
    assert!(text.starts_with("# Window dimensions\nwidth = 800px\nheight = 500px\n"));
    assert!(text.contains("fontSize = 1rem\n"));
    assert!(text.contains("opacity = 0.9\n"));
    assert!(text.contains("defaultSort = dispatcher\n"));
    let again = style_settings(&parse_ini_like(&text), OpacityCheck::Valid);
    assert_eq!(again.width, 800);
    assert_eq!(again.font_size, Some("1rem".to_string()));
    assert_eq!(again.default_sort, "dispatcher");
}

#[test]
fn saved_style_entries_read_back() {
    let m = parse_ini_like("borderSize = 2px\nshadowSize = 0 2px 8px rgba(0,0,0,0.2)\nshowArgs = FALSE\n");
    let s = style_settings(&m, OpacityCheck::Valid);
    let text = style_file_text(&s, "1.0");
    let back = parse_ini_like(&text);
    let again = style_settings(&back, OpacityCheck::Valid);
    assert_eq!(again.font_size, Some("0.9rem".to_string()));
    assert_eq!(again.border_size, Some("2px".to_string()));
    assert_eq!(again.border_radius, Some("12px".to_string()));
    assert_eq!(again.shadow_size, "0 2px 8px rgba(0,0,0,0.2)");
    assert!(!again.show_args);
    assert!(again.errors.is_empty());
}

#[test]
fn numbers_parse_and_print() {
    assert_eq!(parse_i32_exec(&chars("-2147483648")), Some(i32::MIN));
    assert_eq!(parse_i32_exec(&chars("2147483648")), None);
    assert_eq!(parse_i32_exec(&chars("+42")), Some(42));
    assert_eq!(parse_i32_exec(&chars("")), None);
    assert_eq!(parse_i32_exec(&chars("-")), None);
    assert_eq!(parse_i32_exec(&chars("4 2")), None);
    assert_eq!(int_to_text(-305), chars("-305"));
    assert_eq!(int_to_text(0), chars("0"));
    assert_eq!(parse_i32_exec(&int_to_text(i32::MAX)), Some(i32::MAX));
}

#[test]
fn layouts_follow_the_first_code() {
    assert_eq!(detect_layout("de,us"), "ISO");
    assert_eq!(detect_layout(" JP "), "JIS");
    assert_eq!(detect_layout("br"), "ABNT2");
    assert_eq!(detect_layout("hu"), "HU");
    assert_eq!(detect_layout("ru"), "ANSI");
    assert_eq!(layout_rows("HUNGARIAN"), LayoutRows::Hu);
    assert_eq!(layout_rows("ISO"), LayoutRows::Iso);
    assert_eq!(layout_rows("whatever"), LayoutRows::Ansi);
}

#[test]
fn exec_field_codes_are_removed() {
    assert_eq!(clean_exec_cmd("firefox %u"), "firefox");
    assert_eq!(clean_exec_cmd("  code --new-window   %F "), "code --new-window");
    assert_eq!(clean_exec_cmd("app %%x"), "app %%x");
}

#[test]
fn desktop_files_are_read() {
    let app = parse_desktop_file("[Desktop Entry]\nName=Firefox\nExec=firefox %u\nIcon=firefox\nType=Application\n[Desktop Action new]\nName=New Window\n").unwrap();
    assert_eq!(app.name, "Firefox");
    assert_eq!(app.command, "firefox");
    assert_eq!(app.icon, Some("firefox".to_string()));
    assert!(parse_desktop_file("[Desktop Entry]\nName=X\nExec=x\nNoDisplay=true\n").is_none());
    assert!(parse_desktop_file("[Desktop Entry]\nName=X\nExec=x\nType=Link\n").is_none());
    assert!(parse_desktop_file("Name=X\nExec=x\n").is_none());
    assert!(parse_desktop_file("[Desktop Entry]\nName=X\n").is_none());
}

fn app(name: &str) -> AppInfo {
    AppInfo { name: name.to_string(), command: name.to_lowercase(), icon: None }
}

#[test]
fn apps_keep_first_per_file_and_sort_by_name() {
    let found = vec![
        ("zed".to_string(), app("Zed")),
        ("firefox".to_string(), app("firefox")),
        ("zed".to_string(), app("Zed Other")),
        ("alacritty".to_string(), app("Alacritty")),
    ];
    let r = collect_apps(&found);
    let names: Vec<String> = r.iter().map(|a| a.name.clone()).collect();
    assert_eq!(names, vec!["Alacritty", "firefox", "Zed"]);
}

fn args(v: &[&str]) -> Vec<String> {
    v.iter().map(|s| s.to_string()).collect()
}

#[test]
fn command_line_is_read() {
    match Args::parse_from(&args(&["hyprkcs", "-p", "--config", "/tmp/x.conf", "--search", "kitty"])) {
        CliRequest::Run(a) => {
            assert!(a.print);
            assert_eq!(a.config, Some("/tmp/x.conf".to_string()));
            assert_eq!(a.search, Some("kitty".to_string()));
            assert!(!a.doctor && !a.hud);
        }
        _ => panic!("expected a run"),
    }
    assert!(matches!(Args::parse_from(&args(&["hyprkcs", "--hud", "-h"])), CliRequest::Help));
    assert!(matches!(Args::parse_from(&args(&["hyprkcs", "-V"])), CliRequest::Version));
}

fn kb(mods: &str, key: &str, dispatcher: &str, args: &str) -> Keybind {
    Keybind {
        mods: mods.to_string(),
        clean_mods: mods.to_string(),
        flags: String::new(),
        key: key.to_string(),
        dispatcher: dispatcher.to_string(),
        args: args.to_string(),
        description: Some("Open Terminal".to_string()),
        submap: None,
        line_number: 0,
        file_path: String::new(),
    }
}

#[test]
fn command_line_search_filters_keybinds() {
    let k = kb("SUPER", "Return", "exec", "kitty");
    assert!(search_matches(&k, &SearchQuery::parse("kitty")));
    assert!(search_matches(&k, &SearchQuery::parse("desc:terminal mod:super")));
    assert!(!search_matches(&k, &SearchQuery::parse("key:space")));
}

#[test]
fn table_columns_fit_the_widest_entry() {
    assert_eq!(column_widths(&[]), (11, 5, 8));
    let ks = vec![kb("SUPER SHIFT CTRL", "Return", "exec", ""), kb("ALT", "Q", "movetoworkspace", "")];
    assert_eq!(column_widths(&ks), (18, 8, 17));
}
