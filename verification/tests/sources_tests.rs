use hyprkcs::sources::{remap_candidate, source_target};

#[test]
fn missing_conf_stands_for_the_conf_files() {
    assert_eq!(source_target("/a/.conf", false, "/x", "/x", false), "/a/*.conf");
    assert_eq!(source_target("/a/.conf", true, "/x", "/x", false), "/a/.conf");
    assert_eq!(source_target("/a/b.conf", false, "/x", "/x", false), "/a/b.conf");
}

#[test]
fn paths_under_the_usual_root_are_remapped_when_found() {
    let sys = "/home/u/.config/hypr";
    let act = "/tmp/h";
    let p = "/home/u/.config/hypr/conf/keys.conf";
    assert_eq!(remap_candidate(p, true, sys, act), Some("/tmp/h/conf/keys.conf".to_string()));
    assert_eq!(source_target(p, true, sys, act, true), "/tmp/h/conf/keys.conf");
    assert_eq!(source_target(p, true, sys, act, false), p);
    assert_eq!(remap_candidate(p, true, sys, "/home/u/.config/hypr/"), None);
    assert_eq!(remap_candidate("/etc/other.conf", true, sys, act), None);
}
