//! The record type and the line codec.

use fmark::bookmark::Bookmark;

#[test]
fn test_bookmark_default() {
    let bookmark = Bookmark::default();
    assert_eq!(bookmark.title(), "Project's Github");
    assert_eq!(bookmark.category(), "Development");
    assert_eq!(bookmark.url(), "https://github.com/vannrr/fmark");
}

#[test]
fn test_bookmark_formatted_line() {
    let bookmark = Bookmark::new(
        "Rust Programming".to_string(),
        "Programming".to_string(),
        "https://www.rust-lang.org/".to_string(),
    );

    let formatted_line = bookmark.to_line(25, 25);

    assert_eq!(
        formatted_line,
        format!(
            "{{{}}}{{{}}}{:10}{{{}}}{{{}}}{:15}{{{}}}{{{}}}\n",
            'T',
            "Rust Programming",
            "",
            'C',
            "Programming",
            "",
            'U',
            "https://www.rust-lang.org/"
        )
    );
}

#[test]
fn test_bookmark_from_line() {
    let default_bookmark = Bookmark::default();
    let bookmark = Bookmark::from_line(&default_bookmark.to_line(10, 10)).unwrap();
    assert_eq!(bookmark.title(), default_bookmark.title());
    assert_eq!(bookmark.category(), default_bookmark.category());
    assert_eq!(bookmark.url(), default_bookmark.url());
}

#[test]
fn round_trip_survives_any_padding() {
    let b = Bookmark::new(
        "A Title".to_string(),
        "Cat".to_string(),
        "https://example.org/x".to_string(),
    );
    for padding in [0usize, 1, 10, 33, 34, 35, 100] {
        let line = b.to_line(padding, padding);
        let back = Bookmark::from_line(&line).unwrap();
        assert_eq!(back.title(), b.title());
        assert_eq!(back.category(), b.category());
        assert_eq!(back.url(), b.url());
    }
}

#[test]
fn round_trip_keeps_empty_fields() {
    let b = Bookmark::new(String::new(), String::new(), "u".to_string());
    let back = Bookmark::from_line(&b.to_line(5, 5)).unwrap();
    assert_eq!(back.title(), "");
    assert_eq!(back.category(), "");
    assert_eq!(back.url(), "u");
}

#[test]
fn overlong_title_is_truncated_at_the_ceiling() {
    let long_title: String = "x".repeat(40);
    let b = Bookmark::new(long_title.clone(), "c".to_string(), "u".to_string());
    let back = Bookmark::from_line(&b.to_line(0, 0)).unwrap();
    assert_eq!(back.title(), &long_title[..35]);
    assert_eq!(back.category(), "c");
    assert_eq!(back.url(), "u");
}

#[test]
fn non_record_lines_do_not_decode() {
    assert!(Bookmark::from_line("not a bookmark").is_none());
    assert!(Bookmark::from_line("").is_none());
    assert!(Bookmark::from_line("{T}{only a title}").is_none());
    assert!(Bookmark::from_line("----------------").is_none());
}

#[test]
fn markers_may_come_in_any_order() {
    let line = "{U}{https://z}   {T}{zed}  {C}{tools}\n";
    let b = Bookmark::from_line(line).unwrap();
    assert_eq!(b.title(), "zed");
    assert_eq!(b.category(), "tools");
    assert_eq!(b.url(), "https://z");
}
