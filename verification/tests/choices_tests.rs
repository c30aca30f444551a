use hyprkcs::choices::{
    default_submap_choice, layout_choice_index, layout_choice_name, position_choice, position_choice_index,
    sort_choice_index, sort_choice_name,
};
use hyprkcs::hud::HudPosition;

#[test]
fn layout_entries() {
    assert_eq!(layout_choice_index("iso"), 1);
    assert_eq!(layout_choice_index("Hu"), 4);
    assert_eq!(layout_choice_index("ortho"), 5);
    assert_eq!(layout_choice_index("auto"), 0);
    for i in 0..6 {
        assert_eq!(layout_choice_index(layout_choice_name(i)), i);
    }
    assert_eq!(layout_choice_name(9), "ANSI");
}

#[test]
fn sort_entries() {
    assert_eq!(sort_choice_index("Modifiers"), 1);
    assert_eq!(sort_choice_index("action"), 2);
    assert_eq!(sort_choice_index("arguments"), 3);
    assert_eq!(sort_choice_index("submap"), 4);
    assert_eq!(sort_choice_index("key"), 0);
    for i in 0..5 {
        assert_eq!(sort_choice_index(sort_choice_name(i)), i);
    }
}

#[test]
fn position_entries() {
    assert_eq!(position_choice_index(HudPosition::BottomRight), 2);
    assert_eq!(position_choice(3), HudPosition::BottomLeft);
    assert_eq!(position_choice(7), HudPosition::TopRight);
    for i in 0..4 {
        assert_eq!(position_choice_index(position_choice(i)), i);
    }
}

#[test]
fn default_submap_entries() {
    assert_eq!(default_submap_choice("All Submaps"), None);
    assert_eq!(default_submap_choice("resize"), Some("resize".to_string()));
}
