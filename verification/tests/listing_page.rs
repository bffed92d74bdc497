use ls_web::listing::{render_directory_listing, render_items, render_listing, sort_entries, DirEntryInfo};

fn entry(name: &str, is_dir: bool, is_file: bool) -> DirEntryInfo {
    DirEntryInfo { name: name.to_string(), raw_name: name.as_bytes().to_vec(), is_dir, is_file }
}

fn names(v: &[DirEntryInfo]) -> Vec<String> {
    v.iter().map(|e| e.name.clone()).collect()
}

fn sample() -> Vec<DirEntryInfo> {
    vec![
        entry("b.txt", false, true),
        entry("Zeta", true, false),
        entry("a", true, false),
        entry("link", false, false),
        entry("ä.md", false, true),
        entry("B", false, true),
    ]
}

#[test]
fn sorted_by_name_in_byte_order() {
    let s = sort_entries(sample(), false);
    assert_eq!(names(&s), vec!["B", "Zeta", "a", "b.txt", "link", "ä.md"]);
}

#[test]
fn sorted_with_non_files_first() {
    let s = sort_entries(sample(), true);
    assert_eq!(names(&s), vec!["Zeta", "a", "link", "B", "b.txt", "ä.md"]);
}

#[test]
fn sort_of_nothing() {
    assert!(sort_entries(Vec::new(), true).is_empty());
}

#[test]
fn items_at_the_root_have_no_parent_link() {
    let items = render_items("/", &vec![entry("a b", true, false), entry("x.txt", false, true)]);
    assert_eq!(
        items,
        "<li data-path=\"/a%20b/\"><a href=\"/a%20b/\">a b/</a></li><li data-path=\"/x.txt\"><a href=\"/x.txt\">x.txt</a></li>"
    );
}

#[test]
fn items_below_the_root_link_to_the_parent() {
    let items = render_items("/docs/sub", &vec![entry("f", false, true)]);
    assert_eq!(
        items,
        "<li><a href=\"/docs\">..</a></li><li data-path=\"/docs/sub/f\"><a href=\"/docs/sub/f\">f</a></li>"
    );
    let items = render_items("/docs/", &vec![entry("d", true, false)]);
    assert_eq!(
        items,
        "<li><a href=\"/\">..</a></li><li data-path=\"/docs/d/\"><a href=\"/docs/d/\">d/</a></li>"
    );
}

#[test]
fn parent_of_a_relative_target_is_the_root() {
    let items = render_items("docs", &Vec::new());
    assert_eq!(items, "<li><a href=\"/\">..</a></li>");
}

#[test]
fn the_program_itself_is_hidden() {
    let items = render_items("/", &vec![entry("ls_web", false, true), entry("ls_web2", false, true)]);
    assert_eq!(items, "<li data-path=\"/ls_web2\"><a href=\"/ls_web2\">ls_web2</a></li>");
}

#[test]
fn page_frames_the_items() {
    let html = render_listing("/srv/data", "/", &vec![entry("a", false, true)]);
    assert!(html.starts_with("<!DOCTYPE html><html><head><meta charset=\"utf-8\"><title>Directory listing</title><style>:root {"));
    assert!(html.contains("<h1>Directory listing</h1><div class=\"path\">/srv/data</div><ul><li data-path=\"/a\"><a href=\"/a\">a</a></li></ul><div class=\"note\">"));
    assert!(html.ends_with("})();</script></body></html>"));
}

#[test]
fn listing_sorts_then_renders() {
    let html = render_directory_listing("/d", sample(), "/", true);
    let expected = render_listing("/d", "/", &sort_entries(sample(), true));
    assert_eq!(html, expected);
    let zeta = html.find("Zeta/").unwrap();
    let b = html.find(">B<").unwrap();
    assert!(zeta < b);
}

#[test]
fn listing_order_does_not_depend_on_the_reading_order() {
    let mut reversed = sample();
    reversed.reverse();
    for dirs_first in [false, true] {
        assert_eq!(names(&sort_entries(sample(), dirs_first)), names(&sort_entries(reversed_copy(&reversed), dirs_first)));
    }
}

fn reversed_copy(v: &[DirEntryInfo]) -> Vec<DirEntryInfo> {
    v.iter().map(|e| entry(&e.name, e.is_dir, e.is_file)).collect()
}

#[test]
fn order_follows_the_raw_bytes_of_names() {
    let raw = |name: &str, bytes: &[u8]| DirEntryInfo {
        name: name.to_string(),
        raw_name: bytes.to_vec(),
        is_dir: false,
        is_file: true,
    };
    let s = sort_entries(vec![raw("\u{fffd}b", &[0xff, b'b']), raw("z", b"z"), raw("\u{fffd}a", &[0xfe, b'a'])], false);
    assert_eq!(names(&s), vec!["z", "\u{fffd}a", "\u{fffd}b"]);
}

#[test]
fn both_orders_show_the_same_items() {
    let split = |s: String| -> Vec<String> {
        let mut v: Vec<String> = s.split("</li>").filter(|x| !x.is_empty()).map(|x| x.to_string()).collect();
        v.sort();
        v
    };
    let a = render_items("/d/", &sort_entries(sample(), true));
    let b = render_items("/d/", &sort_entries(sample(), false));
    assert_ne!(a, b);
    assert_eq!(split(a), split(b));
}

#[test]
fn equal_names_keep_their_given_order() {
    let s = sort_entries(vec![entry("x", false, true), entry("a", false, true), entry("x", true, false)], false);
    assert_eq!(names(&s), vec!["a", "x", "x"]);
    assert!(!s[1].is_dir && s[2].is_dir);
    let s = sort_entries(vec![entry("x", true, false), entry("x", false, false), entry("a", false, true)], true);
    assert_eq!(names(&s), vec!["x", "x", "a"]);
    assert!(s[0].is_dir && !s[1].is_dir);
}
