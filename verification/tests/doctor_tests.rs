use hyprkcs::doctor::{keyboard_report, physical_guess, pretty_name};

#[test]
fn os_release_name_is_read() {
    assert_eq!(pretty_name("NAME=Arch\nPRETTY_NAME=\"Arch Linux\"\nID=arch\n"), "Arch Linux");
    assert_eq!(pretty_name("NAME=x\n"), "Linux (Unknown)");
    assert_eq!(pretty_name("PRETTY_NAME=PRETTY_NAME=Odd\n"), "Odd");
}

#[test]
fn keyboards_are_read_from_devices_output() {
    let out = "{\n\"keyboards\": [\n{\n\"layout\": \"de\",\n\"active_keymap\": \"German\",\n\"main\": true\n}]\n}";
    let r = keyboard_report(out);
    assert!(r.has_keyboards);
    assert_eq!(r.layout_code, "de");
    assert_eq!(r.keymap_name, "German");
    assert_eq!(physical_guess(&r.layout_code), "ISO (likely)");
    let none = keyboard_report("{\"mice\": []}");
    assert!(!none.has_keyboards);
    assert_eq!(none.layout_code, "");
    assert_eq!(physical_guess("ru"), "Unknown (shape cannot be determined from code)");
    assert_eq!(physical_guess("us"), "ANSI (likely)");
}
