//! The joined engine, the menu descriptions, and option handling.

use fmark::arguments::Arguments;
use fmark::bookmark::Bookmark;
use fmark::data::Data;
use fmark::environment::Environment;
use fmark::menu::Menu;

#[test]
fn test_data_set_bookmark() {
    let mut data = Data::new("");
    let bookmark = Bookmark::default();
    data.set_bookmark(bookmark, None);
    assert_eq!(data.parsed_file.bookmarks.len(), 1);
    assert_eq!(data.parsed_file.categories().len(), 1);
    assert!(data.plain_text.edited());
}

#[test]
fn test_data_remove_bookmark() {
    let mut data = Data::new("");
    let bookmark = Bookmark::default();
    let url = bookmark.url().to_string();
    data.set_bookmark(bookmark, None);
    data.remove_bookmark(&url);
    assert!(data.parsed_file.bookmarks.is_empty());
    assert!(data.parsed_file.categories().is_empty());
    assert!(data.plain_text.edited());
}

#[test]
fn unchanged_record_is_a_no_op() {
    // storing a record over its identical self never advances a version
    let mut data = Data::new("");
    let bookmark = Bookmark::default();
    data.set_bookmark(bookmark.clone(), None);
    let bookmarks_version = data.plain_text.current_bookmarks_version;
    let categories_version = data.plain_text.current_categories_version;
    data.set_bookmark(bookmark.clone(), Some(bookmark));
    assert_eq!(data.plain_text.current_bookmarks_version, bookmarks_version);
    assert_eq!(data.plain_text.current_categories_version, categories_version);
}

#[test]
fn write_returns_text_only_when_edited() {
    let mut data = Data::new("");
    assert!(data.write().is_none());
    let bookmark = Bookmark::default();
    data.set_bookmark(bookmark, None);
    let text = data.write().unwrap();
    assert!(text.lines().filter_map(Bookmark::from_line).count() == 1);
}

#[test]
fn parse_render_round_trip_keeps_records() {
    let a = Bookmark::new("alpha".to_string(), "one".to_string(), "u1".to_string());
    let b = Bookmark::new("beta".to_string(), "two".to_string(), "u2".to_string());
    let file = format!("{}{}", a.to_line(0, 0), b.to_line(0, 0));
    let mut data = Data::new(&file);
    let rendered = data.plain_text_bookmarks().to_string();
    let mut again = Data::new(&rendered);
    let listing = again.plain_text_bookmarks().to_string();
    let decoded: Vec<Bookmark> = listing.lines().filter_map(Bookmark::from_line).collect();
    assert_eq!(decoded.len(), 2);
    assert_eq!(decoded[0].title(), "alpha");
    assert_eq!(decoded[1].title(), "beta");
}

#[test]
fn test_menu_new() {
    let menu = Menu::new("bemenu".to_string(), "10".to_string());
    assert!(menu.is_ok());

    let menu = Menu::new("unsupported".to_string(), "10".to_string());
    assert!(menu.is_err());
}

#[test]
fn merged_items_move_the_default_to_the_top() {
    let merged = Menu::merged_items(Some("pass\nfail"), Some("pass"));
    assert_eq!(merged.unwrap(), "pass\nfail");
    let merged = Menu::merged_items(Some("a\nb\nc\n"), Some("b"));
    assert_eq!(merged.unwrap(), "b\na\nc\n");
    let merged = Menu::merged_items(Some("a\nb"), None);
    assert_eq!(merged.unwrap(), "a\nb");
    assert!(Menu::merged_items(None, Some("x")).is_none());
}

#[test]
fn command_lines_follow_the_program() {
    let menu = Menu::new("rofi".to_string(), "7".to_string()).unwrap();
    let (program, args) = menu.command_line("options");
    assert_eq!(program, "rofi");
    assert_eq!(args, vec!["-dmenu", "-i", "-l", "7", "-p", "options"]);
    let fzf = Menu::new("fzf".to_string(), "7".to_string()).unwrap();
    let (program, args) = fzf.command_line("title");
    assert_eq!(program, "fzf");
    assert_eq!(args, vec!["-i", "--print-query", "--prompt", "title> "]);
}

#[test]
fn test_arguments_get_menu_program() {
    // Test with a supported menu program
    let menu_program = Arguments::get_menu_program(Some("bemenu".to_string()));
    assert_eq!(menu_program.unwrap(), "bemenu");

    // Test with an unsupported menu program
    let menu_program = Arguments::get_menu_program(Some("unsupported".to_string()));
    assert!(menu_program.is_err());

    // Test with None, should return the default menu program
    let menu_program = Arguments::get_menu_program(None);
    assert_eq!(menu_program.unwrap(), "bemenu");
}

#[test]
fn test_arguments_get_browser() {
    // Test with a browser
    let browser = Arguments::get_browser(Some("firefox".to_string()));
    assert_eq!(browser, "firefox");

    // Test with None, should return the default browser
    let browser = Arguments::get_browser(None);
    assert_eq!(browser, "firefox");
}

#[test]
fn test_arguments_get_menu_rows() {
    // Test with a valid number of rows
    let rows = Arguments::get_menu_rows(Some("10".to_string()));
    assert_eq!(rows, "10");

    // Test with an invalid number of rows
    let rows = Arguments::get_menu_rows(Some("invalid".to_string()));
    assert_eq!(rows, "20");

    // Test with None, should return the default number of menu rows
    let rows = Arguments::get_menu_rows(None);
    assert_eq!(rows, "20");
}

#[test]
fn menu_rows_are_clamped_into_range() {
    assert_eq!(Arguments::get_menu_rows(Some("300".to_string())), "255");
    assert_eq!(Arguments::get_menu_rows(Some("-5".to_string())), "1");
    assert_eq!(Arguments::get_menu_rows(Some("0".to_string())), "1");
    assert_eq!(Arguments::get_menu_rows(Some("+7".to_string())), "7");
    assert_eq!(Arguments::get_menu_rows(Some("007".to_string())), "7");
    assert_eq!(Arguments::get_menu_rows(Some("99999999999999999999".to_string())), "20");
}

#[test]
fn argument_words_are_read_pairwise() {
    let args = vec![
        "--menu".to_string(),
        "rofi".to_string(),
        "-r".to_string(),
        "12".to_string(),
    ];
    let pending = Arguments::get_argument_values(Some(args), None).unwrap();
    assert_eq!(pending.menu_program.as_deref(), Some("rofi"));
    assert_eq!(pending.menu_rows.as_deref(), Some("12"));
    assert!(pending.browser.is_none());
    assert!(!pending.help);

    let defaults = vec!["--browser".to_string(), "qutebrowser".to_string()];
    let args = vec!["--browser".to_string(), "firefox".to_string()];
    let pending = Arguments::get_argument_values(Some(args), Some(defaults)).unwrap();
    assert_eq!(pending.browser.as_deref(), Some("firefox"));

    let help = Arguments::get_argument_values(Some(vec!["-h".to_string()]), None).unwrap();
    assert!(help.help);

    let unknown = Arguments::get_argument_values(
        Some(vec!["--bogus".to_string(), "x".to_string()]),
        None,
    );
    match unknown {
        Err(message) => {
            assert!(message.starts_with("Error: Unrecognized argument '--bogus'"));
        },
        Ok(_) => panic!("an unrecognized argument must be rejected"),
    }
}

#[test]
fn test_menu_choose() {
    let menu = Menu::new("bemenu".to_string(), "10".to_string()).unwrap();
    // the pure half of choosing: the default entry leads the merged item list,
    // so picking the first line yields it
    let items = Menu::merged_items(Some("pass\nfail"), Some("pass")).unwrap();
    let result = items.lines().next().unwrap().to_string();
    assert_eq!(result, "pass");
    let (program, _args) = menu.command_line("Choose an item");
    assert_eq!(program, "bemenu");
}

#[test]
fn environment_settles_defaults_and_rejects_unknown_menus() {
    let env = Environment::new(None, None, "/tmp/marks".to_string(), None).unwrap();
    assert_eq!(env.menu_program(), "bemenu");
    assert_eq!(env.browser(), "firefox");
    assert_eq!(env.bookmark_file_path(), "/tmp/marks");
    assert_eq!(env.menu_rows(), "10");

    let env = Environment::new(
        Some("rofi".to_string()),
        Some("luakit".to_string()),
        "/tmp/marks".to_string(),
        Some("300".to_string()),
    )
    .unwrap();
    assert_eq!(env.menu_program(), "rofi");
    assert_eq!(env.browser(), "luakit");
    // an unparseable row count falls back to the default
    assert_eq!(env.menu_rows(), "10");

    let env = Environment::new(
        Some("fzf".to_string()),
        None,
        "/tmp/marks".to_string(),
        None,
    );
    assert!(env.is_err());
}
