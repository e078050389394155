use tryst::position::{Position, Span};
use tryst::source::Source;

fn pos(line: usize, col: usize) -> Position {
    Position { line, col }
}

#[test]
fn crlf_is_one_line_break() {
    assert_eq!(pos(1, 0).advance("a\r\nb"), pos(2, 1));
}

#[test]
fn advance_by_nothing_stays() {
    assert_eq!(pos(3, 7).advance(""), pos(3, 7));
}

#[test]
fn advance_in_two_steps_matches_one() {
    let p = pos(1, 0);
    let texts = ["ab\ncd", "x\ry", "λ\u{2028}z", "\r\n\n"];
    for a in texts.iter() {
        for b in texts.iter() {
            let whole = format!("{}{}", a, b);
            if a.ends_with('\r') && b.starts_with('\n') {
                continue;
            }
            assert_eq!(p.advance(a).advance(b), p.advance(&whole));
        }
    }
}

#[test]
fn split_crlf_counts_twice() {
    let p = pos(1, 0);
    assert_eq!(p.advance("\r").advance("\n"), pos(3, 0));
    assert_eq!(p.advance("\r\n"), pos(2, 0));
}

#[test]
fn every_line_terminator_breaks_a_line() {
    for t in ["\n", "\r", "\u{0b}", "\u{0c}", "\u{85}", "\u{2028}", "\u{2029}"].iter() {
        assert_eq!(pos(4, 9).advance(t), pos(5, 0));
    }
}

#[test]
fn lone_lf_after_crlf_breaks_again() {
    assert_eq!(pos(1, 0).advance("\r\n\n"), pos(3, 0));
    assert_eq!(pos(1, 0).advance("\r\r"), pos(3, 0));
}

#[test]
fn columns_count_utf8_bytes() {
    assert_eq!(pos(1, 0).advance("λ"), pos(1, 2));
    assert_eq!(pos(1, 0).advance("ツ"), pos(1, 3));
    assert_eq!(pos(1, 0).advance("🥺"), pos(1, 4));
    assert_eq!(pos(1, 0).advance("abc"), pos(1, 3));
}

#[test]
fn span_runs_over_the_text() {
    assert_eq!(pos(2, 3).span("ab\nc"), Span::new(pos(2, 3), pos(3, 1)));
    assert_eq!(Span::new(pos(1, 0), pos(1, 2)), Span { start: pos(1, 0), end: pos(1, 2) });
}

#[test]
fn advance_line_and_bytes() {
    let mut p = pos(1, 5);
    p.advance_line();
    assert_eq!(p, pos(2, 0));
    p.advance_bytes('λ');
    assert_eq!(p, pos(2, 2));
    p.advance_bytes('a');
    assert_eq!(p, pos(2, 3));
}

#[test]
fn test_skip_whitespace() {
    let mut input = Source { inner: "   \n   3", position: pos(1, 0) };
    input.skip_whitespace();
    assert_eq!(input, Source { inner: "3", position: pos(2, 3) });
}

#[test]
fn skip_whitespace_without_whitespace_stays() {
    let mut input = Source { inner: "abc", position: pos(1, 4) };
    input.skip_whitespace();
    assert_eq!(input, Source { inner: "abc", position: pos(1, 4) });
}

#[test]
fn skip_whitespace_over_unicode_space() {
    let mut input = Source::new("\u{a0}\u{3000}\tx");
    input.skip_whitespace();
    assert_eq!(input, Source { inner: "x", position: pos(1, 6) });
}
