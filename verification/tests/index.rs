//! The record index in both of its shapes: the corrected histogram index and
//! the earlier two-slot variant.

use fmark::bookmark::Bookmark;
use fmark::parsed_file::ParsedFile;
use fmark::plain_text::PlainText;

#[test]
fn parse_file_test_parsed_file_new() {
    let default_bookmark = Bookmark::default();
    let title_padding = default_bookmark.title().chars().count();
    let category_padding = default_bookmark.category().chars().count();
    let file = default_bookmark.to_line(title_padding, category_padding);
    let parsed = fmark::parse_file::ParsedFile::new(&file);
    assert_eq!(parsed.bookmarks.len(), 1);
    assert_eq!(parsed.invalid_lines.len(), 0);
    assert_eq!(parsed.longest_title, title_padding);
    assert_eq!(parsed.longest_category, category_padding);
}

#[test]
fn test_parsed_file_update_longest_title() {
    let mut parsed_file = fmark::parse_file::ParsedFile::new("test");
    parsed_file.update_longest_title(10);
    assert_eq!(parsed_file.longest_title, 10);
}

#[test]
fn test_parsed_file_update_longest_category() {
    let mut parsed_file = fmark::parse_file::ParsedFile::new("test");
    parsed_file.update_longest_category(10);
    assert_eq!(parsed_file.longest_category, 10);
}

#[test]
fn test_parsed_file_revert_longest_title() {
    let mut parsed_file = fmark::parse_file::ParsedFile::new("test");
    parsed_file.update_longest_title(10);
    parsed_file.update_longest_title(20);
    parsed_file.revert_longest_title(20);
    assert_eq!(parsed_file.longest_title, 10);
}

#[test]
fn test_parsed_file_revert_longest_category() {
    let mut parsed_file = fmark::parse_file::ParsedFile::new("test");
    parsed_file.update_longest_category(10);
    parsed_file.update_longest_category(20);
    parsed_file.revert_longest_category(20);
    assert_eq!(parsed_file.longest_category, 10);
}

#[test]
fn parsed_file_test_parsed_file_new() {
    let default_bookmark = Bookmark::default();
    let title_padding = default_bookmark.title().chars().count();
    let category_padding = default_bookmark.category().chars().count();
    let file = default_bookmark.to_line(title_padding, category_padding);
    let parsed = ParsedFile::new(&file);
    assert_eq!(parsed.bookmarks.len(), 1);
    assert_eq!(parsed.invalid_lines.len(), 0);
    assert_eq!(parsed.longest_title, title_padding);
    assert_eq!(parsed.longest_category, category_padding);
}

#[test]
fn test_parsed_file_add_bookmark() {
    let mut plain_text = PlainText::new();
    let mut parsed_file = ParsedFile::new(plain_text.bookmarks());
    let bookmark = Bookmark::default();
    let char_count = bookmark.title().chars().count();
    parsed_file.add_bookmark(&mut plain_text, bookmark);
    assert_eq!(parsed_file.bookmarks.len(), 1);
    assert_eq!(parsed_file.categories().len(), 1);
    assert!(plain_text.edited());
    assert_eq!(parsed_file.longest_title, char_count);
}

#[test]
fn test_parsed_file_modify_bookmark() {
    let mut plain_text = PlainText::new();
    let mut parsed_file = ParsedFile::new(plain_text.bookmarks());
    let old_bookmark = Bookmark::default();
    parsed_file.add_bookmark(&mut plain_text, old_bookmark.clone());
    let title = "new title".to_string();
    let category = "new category".to_string();
    let url = "new url".to_string();
    let new_bookmark = Bookmark::new(url, title, category);
    parsed_file.modify_bookmark(&mut plain_text, new_bookmark.clone(), &old_bookmark);
    assert_eq!(parsed_file.bookmarks.len(), 1);
    assert_eq!(parsed_file.categories().len(), 1);
    assert!(plain_text.edited());
    assert_eq!(
        parsed_file.longest_title,
        new_bookmark.title().chars().count()
    );
    assert_eq!(
        parsed_file.longest_category,
        new_bookmark.category().chars().count()
    )
}

#[test]
fn test_parsed_file_remove_bookmark() {
    let mut plain_text = PlainText::new();
    let mut parsed_file = ParsedFile::new(plain_text.bookmarks());
    let bookmark = Bookmark::default();
    let char_count = bookmark.title().chars().count();
    let url = bookmark.url().to_string();
    parsed_file.add_bookmark(&mut plain_text, bookmark);
    parsed_file.remove_bookmark(&mut plain_text, &url);
    assert!(parsed_file.bookmarks.is_empty());
    assert!(parsed_file.categories().is_empty());
    assert!(plain_text.edited());
    assert_ne!(parsed_file.longest_title, char_count);
}

#[test]
fn test_parsed_file_add_category() {
    let mut parsed_file = ParsedFile::new("test");
    let category = "test".to_string();
    let char_count = category.chars().count();
    assert!(parsed_file.add_category(category));
    assert_eq!(parsed_file.longest_category, char_count);
}

#[test]
fn test_parsed_file_remove_category() {
    let mut parsed_file = ParsedFile::new("test");
    let category_1 = "test".to_string();
    let char_count_1 = category_1.chars().count();
    let category_2 = "test2".to_string();
    parsed_file.add_category(category_1);
    parsed_file.add_category(category_2.clone());
    assert!(parsed_file.remove_category(category_2.as_str()));
    assert_eq!(parsed_file.longest_category, char_count_1);
}

#[test]
fn test_parsed_file_add_char_count() {
    let mut char_count_vec = vec![0; 10];
    let mut longest: usize = 0;
    let field = "test";
    let char_count = field.chars().count();
    ParsedFile::add_char_count(&mut char_count_vec, &mut longest, field);
    assert_eq!(longest, char_count);
}

#[test]
fn test_parsed_file_remove_char_count() {
    let mut char_count_vec = vec![0; 10];
    let mut longest: usize = 0;
    let field1 = "1";
    let char_count1 = field1.chars().count();
    let field2 = "22";
    let char_count2 = field2.chars().count();
    let field3 = "333";
    let char_count3 = field3.chars().count();
    let field4 = "4444";
    let char_count4 = field4.chars().count();
    ParsedFile::add_char_count(&mut char_count_vec, &mut longest, field1);
    ParsedFile::add_char_count(&mut char_count_vec, &mut longest, field2);
    ParsedFile::add_char_count(&mut char_count_vec, &mut longest, field3);
    ParsedFile::add_char_count(&mut char_count_vec, &mut longest, field4);
    assert_eq!(longest, char_count4);
    ParsedFile::remove_char_count(&mut char_count_vec, &mut longest, field4);
    assert_eq!(longest, char_count3);
    ParsedFile::remove_char_count(&mut char_count_vec, &mut longest, field3);
    assert_eq!(longest, char_count2);
    ParsedFile::remove_char_count(&mut char_count_vec, &mut longest, field2);
    assert_eq!(longest, char_count1);
    ParsedFile::remove_char_count(&mut char_count_vec, &mut longest, field1);
    assert_eq!(longest, 0);
}

#[test]
fn longest_title_survives_removing_one_of_a_tie() {
    let mut plain_text = PlainText::new();
    let mut parsed_file = ParsedFile::new("");
    let a = Bookmark::new("12345".to_string(), "c".to_string(), "u1".to_string());
    let b = Bookmark::new("abcde".to_string(), "c".to_string(), "u2".to_string());
    parsed_file.add_bookmark(&mut plain_text, a);
    parsed_file.add_bookmark(&mut plain_text, b);
    assert_eq!(parsed_file.longest_title, 5);
    parsed_file.remove_bookmark(&mut plain_text, "u1");
    assert_eq!(parsed_file.longest_title, 5);
    parsed_file.remove_bookmark(&mut plain_text, "u2");
    assert_eq!(parsed_file.longest_title, 0);
}

#[test]
fn category_list_tracks_live_records() {
    let mut plain_text = PlainText::new();
    let mut parsed_file = ParsedFile::new("");
    let a = Bookmark::new("a".to_string(), "Lang".to_string(), "u1".to_string());
    let b = Bookmark::new("b".to_string(), "Art".to_string(), "u2".to_string());
    let c = Bookmark::new("c".to_string(), "Lang".to_string(), "u3".to_string());
    parsed_file.add_bookmark(&mut plain_text, a);
    parsed_file.add_bookmark(&mut plain_text, b);
    parsed_file.add_bookmark(&mut plain_text, c);
    assert_eq!(parsed_file.categories().len(), 2);
    assert_eq!(parsed_file.categories()[0], "Art");
    assert_eq!(parsed_file.categories()[1], "Lang");
    // one of two holders leaves: the category stays
    parsed_file.remove_bookmark(&mut plain_text, "u1");
    assert_eq!(parsed_file.categories().len(), 2);
    // the last holder leaves: the category goes
    parsed_file.remove_bookmark(&mut plain_text, "u3");
    assert_eq!(parsed_file.categories().len(), 1);
    assert_eq!(parsed_file.categories()[0], "Art");
}

#[test]
fn blank_and_separator_lines_are_dropped() {
    let parsed = ParsedFile::new("----\n\n   \n-\n");
    assert_eq!(parsed.bookmarks.len(), 0);
    assert_eq!(parsed.invalid_lines.len(), 0);
}

#[test]
fn separator_prefixed_lines_are_preserved() {
    // only pure separator-repeat lines are dropped; a note that merely
    // starts with the symbol is content and must survive
    let parsed = ParsedFile::new("-note to self\n----\n");
    assert_eq!(parsed.bookmarks.len(), 0);
    assert_eq!(parsed.invalid_lines.len(), 1);
    assert_eq!(parsed.invalid_lines[0].0, 0);
    assert_eq!(parsed.invalid_lines[0].1, "-note to self");
}

#[test]
fn invalid_lines_keep_text_and_position() {
    let parsed = ParsedFile::new("not a bookmark");
    assert_eq!(parsed.bookmarks.len(), 0);
    assert_eq!(parsed.invalid_lines.len(), 1);
    assert_eq!(parsed.invalid_lines[0].0, 0);
    assert_eq!(parsed.invalid_lines[0].1, "not a bookmark");
}

#[test]
fn later_record_replaces_same_url() {
    let a = Bookmark::new("one".to_string(), "c1".to_string(), "u".to_string());
    let b = Bookmark::new("two".to_string(), "c2".to_string(), "u".to_string());
    let file = format!("{}{}", a.to_line(0, 0), b.to_line(0, 0));
    let parsed = ParsedFile::new(&file);
    assert_eq!(parsed.bookmarks.len(), 1);
    assert_eq!(parsed.bookmarks[0].title(), "two");
    assert_eq!(parsed.categories().len(), 1);
    assert_eq!(parsed.categories()[0], "c2");
}

#[test]
fn add_bookmark_option_string_is_centered() {
    let parsed = ParsedFile::new("");
    // width 0 + 0 + 11 < the label's 18 characters: no padding at all
    assert_eq!(parsed.add_bookmark_option_string(), "-| Add Bookmark |-");
    let mut plain_text = PlainText::new();
    let mut parsed2 = ParsedFile::new("");
    let b = Bookmark::new(
        "123456789012345".to_string(),
        "1234567890".to_string(),
        "u".to_string(),
    );
    parsed2.add_bookmark(&mut plain_text, b);
    // 15 + 10 + 11 - 18 = 18 dashes, split 9 and 9
    assert_eq!(
        parsed2.add_bookmark_option_string(),
        "---------".to_string() + "-| Add Bookmark |-" + "---------"
    );
}
