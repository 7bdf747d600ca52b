use offline_search::cli::{parse_arguments, Command, CommandError};
use offline_search::files::{
    file_kind, html_text, join_character_data, text_of_events, xml_document_text, FileKind,
    FileKindError, XmlItem,
};
use offline_search::lexer::lex;
use offline_search::routes::{route_request, RequestMethod, Route};
use offline_search::timestamp::Timestamp;

fn args(a: &[&str]) -> Vec<String> {
    a.iter().map(|w| w.to_string()).collect()
}

#[test]
fn timestamps_order_by_seconds_then_nanoseconds() {
    let t = |s, n| Timestamp { secs_since_epoch: s, nanos_since_epoch: n };
    assert!(t(1, 5).is_before(&t(2, 0)));
    assert!(t(1, 5).is_before(&t(1, 6)));
    assert!(!t(1, 5).is_before(&t(1, 5)));
    assert!(!t(2, 0).is_before(&t(1, 999_999_999)));
}

#[test]
fn serve_with_default_address() {
    match parse_arguments(&args(&["serve", "docs/"])) {
        Ok(Command::Serve { dir_path, index_path, address }) => {
            assert_eq!(dir_path, "docs/");
            assert_eq!(index_path, "index.json");
            assert_eq!(address, "127.0.0.1:6969");
        }
        _ => panic!("expected serve"),
    }
}

#[test]
fn serve_with_address() {
    match parse_arguments(&args(&["serve", "127.0.0.1:8080", "./docs/"])) {
        Ok(Command::Serve { dir_path, address, .. }) => {
            assert_eq!(address, "127.0.0.1:8080");
            assert_eq!(dir_path, "./docs/");
        }
        _ => panic!("expected serve"),
    }
    match parse_arguments(&args(&["serve", "0.0.0.0:80", "docs/", "extra"])) {
        Ok(Command::Serve { dir_path, address, .. }) => {
            assert_eq!(address, "0.0.0.0:80");
            assert_eq!(dir_path, "docs/");
        }
        _ => panic!("expected serve"),
    }
}

#[test]
fn no_subcommand() {
    assert!(matches!(parse_arguments(&args(&[])), Err(CommandError::NoSubcommand)));
    assert!(matches!(
        parse_arguments(&args(&["--sqlite", "--sqlite"])),
        Err(CommandError::NoSubcommand)
    ));
}

#[test]
fn serve_without_folder() {
    match parse_arguments(&args(&["serve"])) {
        Err(CommandError::MissingPath { subcommand }) => assert_eq!(subcommand, "serve"),
        _ => panic!("expected a missing path"),
    }
}

#[test]
fn serve_refuses_sqlite() {
    match parse_arguments(&args(&["--sqlite", "serve", "docs/"])) {
        Err(CommandError::SqliteNotSupported { subcommand }) => assert_eq!(subcommand, "serve"),
        _ => panic!("expected the sqlite option to be refused"),
    }
    match parse_arguments(&args(&["--sqlite", "index", "docs/"])) {
        Err(CommandError::SqliteNotSupported { subcommand }) => assert_eq!(subcommand, "index"),
        _ => panic!("expected the sqlite option to be refused"),
    }
}

#[test]
fn unknown_subcommand() {
    match parse_arguments(&args(&["--sqlite", "reindex", "docs/"])) {
        Err(CommandError::UnknownSubcommand { subcommand }) => assert_eq!(subcommand, "reindex"),
        _ => panic!("expected an unknown subcommand"),
    }
}

#[test]
fn index_subcommand() {
    match parse_arguments(&args(&["index", "docs/"])) {
        Ok(Command::Index { dir_path, index_path }) => {
            assert_eq!(dir_path, "docs/");
            assert_eq!(index_path, "index.json");
        }
        _ => panic!("expected index"),
    }
    match parse_arguments(&args(&["index"])) {
        Err(CommandError::MissingPath { subcommand }) => assert_eq!(subcommand, "index"),
        _ => panic!("expected a missing path"),
    }
}

#[test]
fn search_subcommand() {
    match parse_arguments(&args(&["search", "index.json"])) {
        Ok(Command::Search { index_path }) => assert_eq!(index_path, "index.json"),
        _ => panic!("expected search"),
    }
    match parse_arguments(&args(&["search"])) {
        Err(CommandError::MissingPath { subcommand }) => assert_eq!(subcommand, "search"),
        _ => panic!("expected a missing path"),
    }
}

#[test]
fn routes_of_the_server() {
    assert!(matches!(route_request(RequestMethod::Post, "/api/search"), Route::Search));
    assert!(matches!(route_request(RequestMethod::Get, "/api/search"), Route::NotFound));
    match route_request(RequestMethod::Get, "/index.js") {
        Route::StaticFile { file_path, content_type } => {
            assert_eq!(file_path, "index.js");
            assert_eq!(content_type, "application/javascript; charset=utf-8");
        }
        _ => panic!("expected the script"),
    }
    for url in ["/", "/index.html"] {
        match route_request(RequestMethod::Get, url) {
            Route::StaticFile { file_path, content_type } => {
                assert_eq!(file_path, "index.html");
                assert_eq!(content_type, "text/html; charset=utf-8");
            }
            _ => panic!("expected the page"),
        }
    }
    assert!(matches!(route_request(RequestMethod::Post, "/"), Route::NotFound));
    assert!(matches!(route_request(RequestMethod::Other, "/index.js"), Route::NotFound));
    assert!(matches!(route_request(RequestMethod::Get, "/other"), Route::NotFound));
}

#[test]
fn file_kinds_by_extension() {
    assert!(matches!(file_kind(Some("xml")), Ok(FileKind::Xml)));
    assert!(matches!(file_kind(Some("xhtml")), Ok(FileKind::Xml)));
    assert!(matches!(file_kind(Some("txt")), Ok(FileKind::Text)));
    assert!(matches!(file_kind(Some("md")), Ok(FileKind::Text)));
    assert!(matches!(file_kind(Some("rs")), Ok(FileKind::Text)));
    assert!(matches!(file_kind(Some("py")), Ok(FileKind::Text)));
    assert!(matches!(file_kind(Some("html")), Ok(FileKind::Html)));
    assert!(matches!(file_kind(Some("htm")), Ok(FileKind::Html)));
    assert!(matches!(file_kind(Some("pdf")), Ok(FileKind::Pdf)));
    assert!(matches!(file_kind(None), Err(FileKindError::NoExtension)));
    match file_kind(Some("docx")) {
        Err(FileKindError::Unsupported { extension }) => assert_eq!(extension, "docx"),
        _ => panic!("expected unsupported"),
    }
}

#[test]
fn character_data_is_joined_with_spaces() {
    assert_eq!(join_character_data(&args(&["Hello", "world"])), "Hello world ");
    assert_eq!(join_character_data(&Vec::new()), "");
}

fn chars(s: &str) -> Vec<char> {
    s.chars().collect()
}

#[test]
fn lex_splits_at_white_space() {
    assert_eq!(lex(&chars("  hello, world\n\tagain  ")), args(&["hello,", "world", "again"]));
    assert_eq!(lex(&chars("one")), args(&["one"]));
    assert_eq!(lex(&chars("a\u{A0}b")), args(&["a", "b"]));
    assert!(lex(&chars("")).is_empty());
    assert!(lex(&chars(" \n ")).is_empty());
}

#[test]
fn xml_text_is_its_character_data() {
    let text = xml_document_text(b"<a>Hello <b>world</b><!-- note --></a>").ok().unwrap();
    assert_eq!(text, "Hello  world ");
    let text = xml_document_text(b"<?xml version=\"1.0\"?><p>x &amp; y</p>").ok().unwrap();
    assert_eq!(text, "x & y ");
}

#[test]
fn xml_errors_give_a_position() {
    match xml_document_text(b"<a>\n<b></a>") {
        Err(e) => {
            assert_eq!(e.row, 1);
            assert!(!e.message.is_empty());
        }
        Ok(_) => panic!("expected an error"),
    }
}

#[test]
fn xml_text_leaves_out_cdata_comments_and_white_space() {
    let text = xml_document_text(b"<a>\n  <b>x</b><![CDATA[hidden]]><!-- gone -->y</a>").ok().unwrap();
    assert_eq!(text, "x y ");
}

#[test]
fn only_character_events_are_text() {
    let items = vec![
        XmlItem::StartDocument,
        XmlItem::StartElement,
        XmlItem::Characters("one".to_string()),
        XmlItem::CData("two".to_string()),
        XmlItem::Whitespace("  ".to_string()),
        XmlItem::Comment("three".to_string()),
        XmlItem::Characters("four".to_string()),
        XmlItem::EndElement,
        XmlItem::EndDocument,
    ];
    assert_eq!(text_of_events(&items), "one four ");
}

#[test]
fn html_text_drops_the_tags() {
    assert_eq!(html_text(&chars("<p>Hello <b>big</b> world</p>")), " Hello  big  world ");
    assert_eq!(html_text(&chars("plain")), "plain");
    assert_eq!(html_text(&chars("a <unclosed")), "a ");
}
