use muxget::help::{key_and_meaning, pages, PAGE_COUNT};

#[test]
fn the_manual_has_its_pages_in_tab_order() {
    let p = pages();
    assert_eq!(p.len(), PAGE_COUNT);
    let names: Vec<&str> = p.iter().map(|p| p.name).collect();
    assert_eq!(names, vec!["basics", "moving", "select", "items", "queues", "lists", "crawl", "settings"]);
    assert_eq!(p[0].lines.len(), 11);
    assert_eq!(p[6].lines.len(), 14);
}

#[test]
fn a_manual_line_with_a_tab_is_a_key_and_its_meaning() {
    assert_eq!(key_and_meaning("j / k\tdown / up one row"), Some(("j / k".to_string(), "down / up one row".to_string())));
    assert_eq!(key_and_meaning("a\tb\tc"), Some(("a".to_string(), "b\tc".to_string())));
    assert_eq!(key_and_meaning("plain prose"), None);
    assert_eq!(key_and_meaning(""), None);
}
