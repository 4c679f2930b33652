//! The order of names and the map that is kept in it.

use ui_introspect::name_map::{NameEntry, NameMap};
use ui_introspect::names::{name_equal, name_less, starts_with};

#[test]
fn names_are_ordered_by_their_bytes() {
    assert!(name_less("a", "b"));
    assert!(!name_less("b", "a"));
    assert!(!name_less("a", "a"));
    assert!(name_less("", "a"));
    assert!(!name_less("a", ""));
    assert!(!name_less("", ""));
    assert!(name_less("a", "ab"));
    assert!(!name_less("ab", "a"));
    assert!(name_less("B", "a"));
    assert!(name_less("ab", "b"));
    assert!(name_less("max-height", "max-width"));
    assert!(name_less("z", "\u{e9}"));
    assert!(name_less("\u{e9}", "\u{4e2d}"));
}

#[test]
fn name_order_agrees_with_the_order_of_strings() {
    let names = ["", "a", "B", "ab", "b", "width", "x", "\u{e9}t\u{e9}", "z-order", "Z"];
    for a in names {
        for b in names {
            assert_eq!(name_less(a, b), a < b);
            assert_eq!(name_equal(a, b), a == b);
        }
    }
}

#[test]
fn equal_names_have_equal_bytes() {
    assert!(name_equal("width", "width"));
    assert!(!name_equal("width", "widths"));
    assert!(!name_equal("width", "widtH"));
    assert!(name_equal("", ""));
    assert!(!name_equal("", "x"));
}

#[test]
fn a_prefix_is_found_at_the_start_only() {
    assert!(starts_with("padding", "padding"));
    assert!(starts_with("padding-left", "padding"));
    assert!(!starts_with("paddin", "padding"));
    assert!(!starts_with("left-padding", "padding"));
    assert!(!starts_with("Padding", "padding"));
    assert!(starts_with("anything", ""));
    assert!(starts_with("", ""));
    assert!(!starts_with("", "p"));
    assert!(starts_with("\u{e9}t\u{e9}", "\u{e9}t"));
    assert!(!starts_with("\u{e9}t\u{e9}", "et"));
}

fn names_of(map: &NameMap<u32>) -> Vec<(&str, u32)> {
    map.entries.iter().map(|e| (e.name.as_str(), e.value)).collect()
}

#[test]
fn entries_are_kept_in_the_order_of_their_names() {
    let mut map = NameMap::new();
    assert_eq!(map.len(), 0);
    map.insert(String::from("width"), 1);
    map.insert(String::from("background"), 2);
    map.insert(String::from("x"), 3);
    map.insert(String::from("height"), 4);
    assert_eq!(names_of(&map), vec![("background", 2), ("height", 4), ("width", 1), ("x", 3)]);
    assert_eq!(map.len(), 4);
    assert!(map.is_sorted());
}

#[test]
fn inserting_under_a_name_again_replaces_the_value() {
    let mut map = NameMap::new();
    map.insert(String::from("b"), 1);
    map.insert(String::from("a"), 2);
    map.insert(String::from("b"), 3);
    assert_eq!(names_of(&map), vec![("a", 2), ("b", 3)]);
    map.insert(String::from("a"), 4);
    assert_eq!(names_of(&map), vec![("a", 4), ("b", 3)]);
}

#[test]
fn values_are_found_by_name() {
    let mut map = NameMap::new();
    map.insert(String::from("width"), 10);
    map.insert(String::from("height"), 20);
    assert_eq!(map.get("width"), Some(&10));
    assert_eq!(map.get("height"), Some(&20));
    assert_eq!(map.get("depth"), None);
    assert_eq!(map.get(""), None);
    assert_eq!(map.find("height"), Some(0));
    assert_eq!(map.find("width"), Some(1));
    assert_eq!(map.find("widt"), None);
}

#[test]
fn an_empty_map_holds_nothing() {
    let map: NameMap<u32> = NameMap::new();
    assert!(map.is_sorted());
    assert_eq!(map.get("x"), None);
    assert_eq!(map.find("x"), None);
}

#[test]
fn entries_out_of_order_are_noticed() {
    let map = NameMap {
        entries: vec![
            NameEntry { name: String::from("b"), value: 1 },
            NameEntry { name: String::from("a"), value: 2 },
        ],
    };
    assert!(!map.is_sorted());
    let map = NameMap {
        entries: vec![
            NameEntry { name: String::from("a"), value: 1 },
            NameEntry { name: String::from("a"), value: 2 },
        ],
    };
    assert!(!map.is_sorted());
    let map = NameMap {
        entries: vec![
            NameEntry { name: String::from("a"), value: 1 },
            NameEntry { name: String::from("c"), value: 2 },
            NameEntry { name: String::from("b"), value: 3 },
        ],
    };
    assert!(!map.is_sorted());
}
