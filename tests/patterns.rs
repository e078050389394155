use tryst::parser::{Error, ErrorKind, Parser};
use tryst::pattern::regex_parser;
use tryst::position::Position;
use tryst::source::Source;

#[test]
fn test_regex_parser() {
    let source = Source::new("foo bar baz !!!");
    let result = regex_parser(r"\w+(\s+\w+)*", "words").parse(&source);

    assert_eq!(
        result,
        Ok(("foo bar baz", Source {
            inner: " !!!",
            position: Position { line: 1, col: 11 }
        }))
    )
}

#[test]
fn regex_match_elsewhere_is_no_match() {
    let source = Source::new("!! foo");
    let result = regex_parser(r"\w+", "a word").parse(&source);
    assert_eq!(result, Err(Error { kind: ErrorKind::Expected("a word"), position: Position { line: 1, col: 0 } }));
}

#[test]
fn regex_counts_columns_in_bytes_and_lines() {
    let source = Source::new("λλ\nλ rest");
    let result = regex_parser(r"^(?s:[λ\n])+", "lambdas").parse(&source);
    assert_eq!(result, Ok(("λλ\nλ", Source { inner: " rest", position: Position { line: 2, col: 2 } })));
}

#[test]
fn invalid_regex_never_matches() {
    let source = Source::new("abc");
    let result = regex_parser(r"(", "a group").parse(&source);
    assert_eq!(result, Err(Error { kind: ErrorKind::Expected("a group"), position: Position { line: 1, col: 0 } }));
}

#[test]
fn empty_regex_match_consumes_nothing() {
    let source = Source::new("abc");
    let result = regex_parser(r"^x*", "xs").parse(&source);
    assert_eq!(result, Ok(("", Source { inner: "abc", position: Position { line: 1, col: 0 } })));
}
