use tryst::grammar::{parse_close_paren, parse_open_paren, parse_atom, parse_form, parse_list_contents, parse_number, parse_symbol, read, Atom, Form};
use tryst::combinators::{LiteralParser, WithSpanParser};
use tryst::parser::{Error, ErrorKind, Parser};
use tryst::position::WithSpan;
use tryst::position::{Position, Span};
use tryst::source::Source;

fn pos(line: usize, col: usize) -> Position {
    Position { line, col }
}

fn at<'a>(inner: &'a str, line: usize, col: usize) -> Source<'a> {
    Source { inner, position: pos(line, col) }
}

/// A form without spans, numbers as their values.
#[derive(Debug, PartialEq)]
enum Shape {
    Sym(String),
    Num(f64),
    List(Vec<Shape>),
}

fn shape(f: &Form) -> Shape {
    match f {
        Form::Atom(a) => match &a.value {
            Atom::Symbol(s) => Shape::Sym(s.clone()),
            Atom::Number(n) => Shape::Num(n.literal.parse::<f64>().unwrap()),
        },
        Form::List(l) => Shape::List(l.value.iter().map(shape).collect()),
    }
}

fn sym(s: &str) -> Shape {
    Shape::Sym(s.to_string())
}

#[test]
fn test_parse_open_paren() {
    let input = at("(abc)", 1, 0);
    let result = parse_open_paren(&input);

    assert_eq!(result, Ok(("(", at("abc)", 1, 1))));
    assert_eq!(input.position.span("("), Span { start: pos(1, 0), end: pos(1, 1) });
    let (_, next) = result.unwrap();
    assert_eq!(Span::new(input.position, next.position), Span { start: pos(1, 0), end: pos(1, 1) });
}

#[test]
fn test_parse_close_paren() {
    let input = at(")", 1, 0);
    let result = parse_close_paren(&input);

    assert_eq!(result, Ok((")", at("", 1, 1))));
    let (_, next) = result.unwrap();
    assert_eq!(Span::new(input.position, next.position), Span { start: pos(1, 0), end: pos(1, 1) });
}

#[test]
fn open_paren_elsewhere_fails() {
    assert_eq!(
        parse_open_paren(&at("abc", 3, 2)),
        Err(Error { kind: ErrorKind::Expected("("), position: pos(3, 2) })
    );
}

#[test]
fn literal_with_span_on_open_paren() {
    let result = WithSpanParser { inner: LiteralParser::new("(") }.parse(&at("(abc)", 1, 0));
    assert_eq!(result, Ok((
        WithSpan { value: "(", span: Span { start: pos(1, 0), end: pos(1, 1) } },
        at("abc)", 1, 1),
    )));
}

#[test]
fn test_parse_ident() {
    let result = parse_symbol(&at("abc def", 1, 0));
    assert_eq!(result, Ok(("abc".to_string(), at(" def", 1, 3))));
}

#[test]
fn test_parse_ident_colon_end() {
    let result = parse_symbol(&at("abc: def", 1, 0));
    assert_eq!(result, Ok(("abc".to_string(), at(": def", 1, 3))));
}

#[test]
fn test_parse_ident_colon_start() {
    let result = parse_symbol(&at(":abc def", 1, 0));
    assert_eq!(result, Err(Error { kind: ErrorKind::Expected("an identifier"), position: pos(1, 0) }));
}

#[test]
fn test_parse_ident_unicode() {
    let result = parse_symbol(&at("λ def", 1, 0));
    assert_eq!(result, Ok(("λ".to_string(), at(" def", 1, 2))));
}

#[test]
fn identifier_continues_with_digits_and_underscores() {
    assert_eq!(parse_symbol(&at("a_1b-c", 1, 0)), Ok(("a_1b".to_string(), at("-c", 1, 4))));
    assert_eq!(
        parse_symbol(&at("", 1, 0)),
        Err(Error { kind: ErrorKind::Expected("an identifier"), position: pos(1, 0) })
    );
}

#[test]
fn test_parse_number() {
    let (number, next) = parse_number(&at("1.0e5)", 1, 0)).unwrap();
    assert_eq!(number.literal, "1.0e5");
    assert_eq!(number.literal.parse::<f64>().unwrap(), 100000.0f64);
    assert_eq!(next, at(")", 1, 5));
    let (atom, _) = parse_atom(&at("1.0e5)", 1, 0)).unwrap();
    assert_eq!(atom.span, Span { start: pos(1, 0), end: pos(1, 5) });
}

#[test]
fn numerals_take_the_longest_match() {
    let cases = [
        ("12", "12", ""),
        ("12.", "12.", ""),
        ("12.5e", "12.5", "e"),
        ("12.5e-3x", "12.5e-3", "x"),
        ("12.5E+10", "12.5E+10", ""),
        ("12e5", "12", "e5"),
        ("3.x", "3.", "x"),
        ("007)", "007", ")"),
    ];
    for (input, literal, rest) in cases.iter() {
        let (number, next) = parse_number(&at(input, 1, 0)).unwrap();
        assert_eq!(number.literal, *literal);
        assert_eq!(next.inner, *rest);
    }
    assert_eq!(
        parse_number(&at(".5", 1, 0)).unwrap_err(),
        Error { kind: ErrorKind::Expected("a number"), position: pos(1, 0) }
    );
}

#[test]
fn atoms_choose_by_first_character() {
    let (a, _) = parse_atom(&at("42 x", 1, 0)).unwrap();
    assert_eq!(a.value, Atom::Number(tryst::grammar::Number { literal: "42".to_string() }));
    let (a, _) = parse_atom(&at("x42", 1, 0)).unwrap();
    assert_eq!(a.value, Atom::Symbol("x42".to_string()));
    assert_eq!(
        parse_atom(&at("+1", 1, 0)).unwrap_err(),
        Error { kind: ErrorKind::Expected("an identifier"), position: pos(1, 0) }
    );
}

#[test]
fn test_parse_form() {
    let (form, next) = parse_form(&at("(add 2.5 \n  (mul 3 2))", 1, 0)).unwrap();
    assert_eq!(
        shape(&form),
        Shape::List(vec![sym("add"), Shape::Num(2.5), Shape::List(vec![sym("mul"), Shape::Num(3.0), Shape::Num(2.0)])])
    );
    match &form {
        Form::List(l) => assert_eq!(l.span, Span { start: pos(1, 0), end: pos(2, 12) }),
        _ => panic!("not a list"),
    }
    assert_eq!(next, at("", 2, 12));
}

#[test]
fn end_to_end_list_span_ends_past_the_paren() {
    let (form, next) = parse_form(&Source::new("(add 2.5 (mul 3 2))")).unwrap();
    assert_eq!(
        shape(&form),
        Shape::List(vec![sym("add"), Shape::Num(2.5), Shape::List(vec![sym("mul"), Shape::Num(3.0), Shape::Num(2.0)])])
    );
    match &form {
        Form::List(l) => {
            assert_eq!(l.span, Span { start: pos(1, 0), end: pos(1, 19) });
            match &l.value[2] {
                Form::List(inner) => assert_eq!(inner.span, Span { start: pos(1, 9), end: pos(1, 18) }),
                _ => panic!("not a list"),
            }
        },
        _ => panic!("not a list"),
    }
    assert_eq!(next, at("", 1, 19));
}

#[test]
fn lists_allow_whitespace_inside_the_parens() {
    let (form, _) = parse_form(&Source::new("( a  b )")).unwrap();
    assert_eq!(shape(&form), Shape::List(vec![sym("a"), sym("b")]));
}

#[test]
fn empty_list_is_rejected() {
    let err = parse_form(&Source::new("()")).unwrap_err();
    assert_eq!(err, Error { kind: ErrorKind::Expected("("), position: pos(1, 1) });
}

#[test]
fn unclosed_list_expects_a_paren() {
    let err = parse_form(&Source::new("(a b")).unwrap_err();
    assert_eq!(err, Error { kind: ErrorKind::Expected(")"), position: pos(1, 4) });
}

#[test]
fn read_takes_a_sequence_of_forms() {
    let list = read("a (b 1)\n  c").unwrap();
    let shapes: Vec<Shape> = list.value.iter().map(shape).collect();
    assert_eq!(shapes, vec![sym("a"), Shape::List(vec![sym("b"), Shape::Num(1.0)]), sym("c")]);
    assert_eq!(list.span, Span { start: pos(1, 0), end: pos(2, 3) });
}

#[test]
fn read_leaves_trailing_input() {
    let (list, next) = parse_list_contents(&Source::new("a ) b")).unwrap();
    assert_eq!(list.value.len(), 1);
    assert_eq!(next, at(") b", 1, 2));
}

#[test]
fn read_of_empty_text_fails() {
    assert_eq!(read("").unwrap_err(), Error { kind: ErrorKind::Expected("("), position: pos(1, 0) });
}

#[test]
fn repl_steps_pass_text_through() {
    let repl = tryst::repl::Repl::new();
    assert_eq!(repl.rep("(a b)"), "(a b)");
    assert_eq!(tryst::repl::eval("x"), "x");
    assert_eq!(tryst::repl::print("y"), "y");
    assert_eq!(tryst::repl::read("z"), "z");
}
