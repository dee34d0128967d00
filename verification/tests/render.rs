//! The rendering cache: the comparator, the lazily regenerated listings, and
//! the preservation of invalid lines across renderings.

use fmark::bookmark::Bookmark;
use fmark::parsed_file::ParsedFile;
use fmark::plain_text::PlainText;
use std::cmp::Ordering;

#[test]
fn test_plain_text_alphabetic_sort() {
    assert!(PlainText::alphabetic_sort("a", "b") == Ordering::Less);
    assert!(PlainText::alphabetic_sort("b", "a") == Ordering::Greater);
    assert!(PlainText::alphabetic_sort("a", "a") == Ordering::Equal);
    assert!(PlainText::alphabetic_sort("a", "A") == Ordering::Equal);
    assert!(PlainText::alphabetic_sort("A", "a") == Ordering::Equal);
    assert!(PlainText::alphabetic_sort("1", "2") == Ordering::Less);
    assert!(PlainText::alphabetic_sort("2", "1") == Ordering::Greater);
    assert!(PlainText::alphabetic_sort("1", "1") == Ordering::Equal);
    assert!(PlainText::alphabetic_sort("1", "a") == Ordering::Less);
}

#[test]
fn comparator_orders_categories_alphanumerically() {
    // the fold ignores case and punctuation; "a-1" sorts before "a-10"
    // because its fold is a strict prefix
    let mut cats = vec!["b-2", "A1", "a-10"];
    cats.sort_by(|x, y| PlainText::alphabetic_sort(x, y));
    assert_eq!(cats, vec!["A1", "a-10", "b-2"]);
    assert!(PlainText::alphabetic_sort("a-1", "a-10") == Ordering::Less);
    assert!(PlainText::alphabetic_sort("A-1", "a1") == Ordering::Equal);
    assert!(PlainText::alphabetic_sort("1", "a") == Ordering::Less);
}

#[test]
fn sorted_categories_follow_the_comparator() {
    let mut plain_text = PlainText::new();
    let mut parsed_file = ParsedFile::new("");
    for (i, cat) in ["b-2", "A1", "a-10"].iter().enumerate() {
        let b = Bookmark::new(format!("t{}", i), cat.to_string(), format!("u{}", i));
        parsed_file.add_bookmark(&mut plain_text, b);
    }
    let cats: Vec<&str> = parsed_file.categories().iter().map(|s| s.as_str()).collect();
    assert_eq!(cats, vec!["A1", "a-10", "b-2"]);
}

#[test]
fn update_categories_joins_sorted_names() {
    let mut plain_text = PlainText::new();
    let mut parsed_file = ParsedFile::new("");
    parsed_file.add_category("category".to_string());
    plain_text.increment_categories_version();
    plain_text.update_categories(&parsed_file);
    assert!(!plain_text.categories().is_empty());
    assert_eq!(plain_text.categories(), "category\n");
}

#[test]
fn update_bookmarks_renders_records() {
    let mut plain_text = PlainText::new();
    let mut parsed_file = ParsedFile::new("");
    let b = Bookmark::new(
        "title".to_string(),
        "category".to_string(),
        "url".to_string(),
    );
    parsed_file.add_bookmark(&mut plain_text, b);
    plain_text.update_bookmarks(&parsed_file);
    assert!(!plain_text.bookmarks().is_empty());
    let decoded: Vec<Bookmark> = plain_text
        .bookmarks()
        .lines()
        .filter_map(Bookmark::from_line)
        .collect();
    assert_eq!(decoded.len(), 1);
    assert_eq!(decoded[0].title(), "title");
}

#[test]
fn rendering_is_cached_until_a_version_advances() {
    let mut plain_text = PlainText::new();
    let mut parsed_file = ParsedFile::new("");
    let b = Bookmark::new("t".to_string(), "c".to_string(), "u".to_string());
    parsed_file.add_bookmark(&mut plain_text, b);
    plain_text.update_bookmarks(&parsed_file);
    let first = plain_text.bookmarks().to_string();
    // nothing mutated in between: the text is reused as it is
    plain_text.update_bookmarks(&parsed_file);
    assert_eq!(plain_text.bookmarks(), first);
    // a mutation advances the version and the next read re-renders
    parsed_file.remove_bookmark(&mut plain_text, "u");
    plain_text.update_bookmarks(&parsed_file);
    assert_ne!(plain_text.bookmarks(), first);
}

#[test]
fn insert_render_remove_leaves_empty_listing() {
    let mut plain_text = PlainText::new();
    let mut parsed_file = ParsedFile::new("");
    let b = Bookmark::new(
        "Rust".to_string(),
        "Lang".to_string(),
        "https://rust-lang.org".to_string(),
    );
    parsed_file.add_bookmark(&mut plain_text, b.clone());
    plain_text.update_bookmarks(&parsed_file);
    let decoded: Vec<Bookmark> = plain_text
        .bookmarks()
        .lines()
        .filter_map(Bookmark::from_line)
        .collect();
    assert_eq!(decoded.len(), 1);
    assert_eq!(decoded[0].title(), "Rust");
    assert_eq!(decoded[0].category(), "Lang");
    assert_eq!(decoded[0].url(), "https://rust-lang.org");

    parsed_file.remove_bookmark(&mut plain_text, "https://rust-lang.org");
    plain_text.update_bookmarks(&parsed_file);
    // the listing is empty again: no records, no stray separator lines
    assert_eq!(plain_text.bookmarks(), "");
}

#[test]
fn separator_lines_divide_categories() {
    let mut plain_text = PlainText::new();
    let mut parsed_file = ParsedFile::new("");
    let a = Bookmark::new("a".to_string(), "Alpha".to_string(), "u1".to_string());
    let b = Bookmark::new("b".to_string(), "Beta".to_string(), "u2".to_string());
    parsed_file.add_bookmark(&mut plain_text, a);
    parsed_file.add_bookmark(&mut plain_text, b);
    plain_text.update_bookmarks(&parsed_file);
    let lines: Vec<&str> = plain_text.bookmarks().lines().collect();
    // first record, separator, second record
    assert_eq!(lines.len(), 3);
    assert!(lines[1].chars().all(|c| c == '-'));
    // separator width: longest title + longest category + 8
    assert_eq!(lines[1].len(), 1 + 5 + 8);
}

#[test]
fn category_version_advances_only_on_a_net_change() {
    let mut plain_text = PlainText::new();
    let mut parsed_file = ParsedFile::new("");
    let a = Bookmark::new("a".to_string(), "Lang".to_string(), "u1".to_string());
    parsed_file.add_bookmark(&mut plain_text, a.clone());
    let version = plain_text.current_categories_version;
    // the record changes but keeps its category: the sorted list is the same
    let a2 = Bookmark::new("a renamed".to_string(), "Lang".to_string(), "u1".to_string());
    parsed_file.modify_bookmark(&mut plain_text, a2.clone(), &a);
    assert_eq!(plain_text.current_categories_version, version);
    // the category changes: the list changes and the version advances
    let a3 = Bookmark::new("a renamed".to_string(), "Tools".to_string(), "u1".to_string());
    parsed_file.modify_bookmark(&mut plain_text, a3, &a2);
    assert_ne!(plain_text.current_categories_version, version);
}

#[test]
fn invalid_line_keeps_its_slot_between_records() {
    let a = Bookmark::new("a".to_string(), "c".to_string(), "u1".to_string());
    let b = Bookmark::new("b".to_string(), "c".to_string(), "u2".to_string());
    let file = format!("{}not a bookmark\n{}", a.to_line(0, 0), b.to_line(0, 0));
    let mut plain_text = PlainText::new();
    let parsed_file = ParsedFile::new(&file);
    plain_text.update_bookmarks(&parsed_file);
    let rendered = plain_text.bookmarks().to_string();
    let lines: Vec<&str> = rendered.lines().collect();
    assert_eq!(lines.len(), 3);
    assert_eq!(Bookmark::from_line(lines[0]).unwrap().title(), "a");
    assert_eq!(lines[1], "not a bookmark");
    assert_eq!(Bookmark::from_line(lines[2]).unwrap().title(), "b");

    // the raw line survives a re-parse with its position, and the next
    // rendering reproduces the text exactly
    let reparsed = ParsedFile::new(&rendered);
    assert_eq!(reparsed.invalid_lines.len(), 1);
    assert_eq!(reparsed.invalid_lines[0].0, 1);
    assert_eq!(reparsed.invalid_lines[0].1, "not a bookmark");
    let mut plain_text2 = PlainText::new();
    plain_text2.update_bookmarks(&reparsed);
    assert_eq!(plain_text2.bookmarks(), rendered);
}
