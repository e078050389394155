use tryst::combinators::{
    literal_parser, ChainParser, ConcatParser, Delimited, LiteralParser, MaybeParser, Or,
    RepeatParser, Surrounded, WhitespaceDelimited, WithSpanParser,
};
use tryst::parser::{Either, Error, ErrorKind, Parser};
use tryst::position::{Position, Span, WithSpan};
use tryst::source::Source;

fn pos(line: usize, col: usize) -> Position {
    Position { line, col }
}

fn at<'a>(inner: &'a str, line: usize, col: usize) -> Source<'a> {
    Source { inner, position: pos(line, col) }
}

#[test]
fn test_literal_parser() {
    let source = Source::new("foo bar");
    let result = literal_parser("foo").parse(&source);

    assert_eq!(result, Ok(("foo", at(" bar", 1, 3))))
}

#[test]
fn literal_parser_failure_names_the_literal() {
    let result = literal_parser("foo").parse(&at("fob", 2, 4));
    assert_eq!(result, Err(Error { kind: ErrorKind::Expected("foo"), position: pos(2, 4) }));
}

#[test]
fn test_chain_parser() {
    let input = at("(())", 1, 0);

    // No parser at all
    let result = WithSpanParser { inner: ConcatParser::<LiteralParser>::new(vec![]) }.parse(&input);
    assert_eq!(result, Ok((
        WithSpan { value: "", span: Span { start: pos(1, 0), end: pos(1, 0) } },
        at("(())", 1, 0),
    )));

    // One parser
    let result = WithSpanParser { inner: ConcatParser::new(vec![LiteralParser::new("(")]) }.parse(&input);
    assert_eq!(result, Ok((
        WithSpan { value: "(", span: Span { start: pos(1, 0), end: pos(1, 1) } },
        at("())", 1, 1),
    )));

    // Several parsers
    let result = WithSpanParser {
        inner: ConcatParser::new(vec![
            LiteralParser::new("("),
            LiteralParser::new("("),
            LiteralParser::new(")"),
            LiteralParser::new(")"),
        ]),
    }.parse(&input);
    assert_eq!(result, Ok((
        WithSpan { value: "(())", span: Span { start: pos(1, 0), end: pos(1, 4) } },
        at("", 1, 4),
    )));
}

#[test]
fn concat_fails_with_first_failure() {
    let input = at("(]", 1, 0);
    let result = ConcatParser::new(vec![LiteralParser::new("("), LiteralParser::new(")")]).parse(&input);
    assert_eq!(result, Err(Error { kind: ErrorKind::Expected(")"), position: pos(1, 1) }));
}

#[test]
fn chain_pairs_values() {
    let p = ChainParser::new(LiteralParser::new("a"), LiteralParser::new("b"));
    assert_eq!(p.parse(&at("abc", 1, 0)), Ok((("a", "b"), at("c", 1, 2))));
    assert_eq!(
        p.parse(&at("ac", 1, 0)),
        Err(Error { kind: ErrorKind::Expected("b"), position: pos(1, 1) })
    );
}

#[test]
fn test_maybe() {
    let input = at("a", 1, 0);
    let result = WithSpanParser { inner: MaybeParser::new(LiteralParser::new("a")) }.parse(&input);
    assert_eq!(result, Ok((
        WithSpan { value: Some("a"), span: Span { start: pos(1, 0), end: pos(1, 1) } },
        at("", 1, 1),
    )));

    let input = at("", 1, 0);
    let result = WithSpanParser { inner: MaybeParser::new(LiteralParser::new("b")) }.parse(&input);
    assert_eq!(result, Ok((
        WithSpan { value: None, span: Span { start: pos(1, 0), end: pos(1, 0) } },
        at("", 1, 0),
    )));
}

#[test]
fn or_takes_left_then_right() {
    let p = Or { left: LiteralParser::new("a"), right: LiteralParser::new("b") };
    assert_eq!(p.parse(&at("ab", 1, 0)), Ok((Either::Left("a"), at("b", 1, 1))));
    assert_eq!(p.parse(&at("ba", 1, 0)), Ok((Either::Right("b"), at("a", 1, 1))));
    assert_eq!(
        p.parse(&at("c", 1, 0)),
        Err(Error { kind: ErrorKind::Expected("b"), position: pos(1, 0) })
    );
}

#[test]
fn or_never_backtracks_after_success() {
    // The left branch takes "a"; "c" then fails on "b". The right branch
    // would have read the whole input, but it is not tried again.
    let choice = LiteralParser::new("a").or(LiteralParser::new("ab"));
    let p = ChainParser::new(choice, LiteralParser::new("c"));
    assert_eq!(
        p.parse(&at("abc", 1, 0)),
        Err(Error { kind: ErrorKind::Expected("c"), position: pos(1, 1) })
    );
}

#[test]
fn repeat_needs_one_item() {
    let p = RepeatParser::new(LiteralParser::new("a"));
    assert_eq!(
        p.parse(&at("", 1, 0)),
        Err(Error { kind: ErrorKind::Expected("a"), position: pos(1, 0) })
    );
    assert_eq!(p.parse(&at("a", 1, 0)), Ok((vec!["a"], at("", 1, 1))));
}

#[test]
fn repeat_skips_whitespace_and_keeps_it_consumed() {
    let p = WhitespaceDelimited::new(LiteralParser::new("a"));
    assert_eq!(p.parse(&at("a a\n a  b", 1, 0)), Ok((vec!["a", "a", "a"], at("b", 2, 4))));
}

#[test]
fn repeat_stops_at_an_item_that_consumes_nothing() {
    let p = LiteralParser::new("a").optional().whitespace_delimited();
    assert_eq!(p.parse(&at("a b", 1, 0)), Ok((vec![Some("a")], at("b", 1, 2))));
}

#[test]
fn delimited_needs_an_item_after_each_delimiter() {
    let p = Delimited::new(LiteralParser::new("x"), LiteralParser::new(","));
    assert_eq!(p.parse(&at("x,x,x;", 1, 0)), Ok((vec!["x", "x", "x"], at(";", 1, 5))));
    assert_eq!(p.parse(&at("x;", 1, 0)), Ok((vec!["x"], at(";", 1, 1))));
    assert_eq!(
        p.parse(&at("x,y", 1, 0)),
        Err(Error { kind: ErrorKind::Expected("x"), position: pos(1, 2) })
    );
}

#[test]
fn surrounded_reads_three_parts() {
    let p = Surrounded {
        inner: LiteralParser::new("b"),
        left: LiteralParser::new("["),
        right: LiteralParser::new("]"),
    };
    assert_eq!(p.parse(&at("[b]!", 1, 0)), Ok((("[", "b", "]"), at("!", 1, 3))));
    assert_eq!(
        p.parse(&at("[b)", 1, 0)),
        Err(Error { kind: ErrorKind::Expected("]"), position: pos(1, 2) })
    );
}

#[test]
fn with_span_covers_skipped_whitespace() {
    let p = LiteralParser::new("a").whitespace_delimited().with_span();
    let (value, next) = p.parse(&at("a\n a ", 1, 0)).unwrap();
    assert_eq!(value.value, vec!["a", "a"]);
    assert_eq!(value.span, Span { start: pos(1, 0), end: pos(2, 3) });
    assert_eq!(next, at("", 2, 3));
}

#[test]
fn with_span_measures_crlf_split_across_parsers() {
    let p = ChainParser::new(LiteralParser::new("\r"), LiteralParser::new("\n")).with_span();
    let (value, next) = p.parse(&at("\r\nz", 1, 0)).unwrap();
    assert_eq!(value.span, Span { start: pos(1, 0), end: pos(2, 0) });
    assert_eq!(next, at("z", 3, 0));
}

#[test]
fn surrounded_builder() {
    let p = LiteralParser::new("b").surrounded(LiteralParser::new("("), LiteralParser::new(")"));
    assert_eq!(p.parse(&at("(b)", 1, 0)), Ok((("(", "b", ")"), at("", 1, 3))));
    let d = LiteralParser::new("b").delimited(LiteralParser::new("-"));
    assert_eq!(d.parse(&at("b-b", 1, 0)), Ok((vec!["b", "b"], at("", 1, 3))));
}
