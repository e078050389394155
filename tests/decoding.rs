use tryst::chars::{chars, decode, decode_step, Error};
use tryst::lexer::{lexer, Error as LexError, Token};
use tryst::utf8::{Error as EncodingError, Expected, Utf8CharSink};

fn decoded(bytes: &[u8]) -> Result<String, Error> {
    decode(bytes).map(|cs| cs.into_iter().collect())
}

#[test]
fn mod_test_ascii() {
    let buffer = "app".as_bytes();
    let output = decoded(buffer);
    assert_eq!(output.unwrap(), "app".to_string());
}

#[test]
fn test_unicode() {
    let buffer = "Ελλάδα".as_bytes();
    let output = decoded(buffer);
    assert_eq!(output.unwrap(), "Ελλάδα".to_string());
}

#[test]
fn test_mid_char_eof() {
    let buffer: &[u8] = &[0xce];
    let output = decoded(buffer);
    assert_eq!(output.is_err(), true);
    assert!(matches!(output, Err(Error::Eof)));
}

#[test]
fn round_trip_of_mixed_text() {
    for s in ["", "a", "λx ツ🥺\r\n", "\u{7f}\u{80}\u{7ff}\u{800}\u{ffff}\u{10000}\u{10ffff}"].iter() {
        assert_eq!(decoded(s.as_bytes()).unwrap(), s.to_string());
    }
}

#[test]
fn lone_continuation_byte_wants_a_start_byte() {
    let output = decoded(&[0x80]);
    match output {
        Err(Error::Encoding(EncodingError::UnexpectedByte { expected, actual })) => {
            assert_eq!(expected, Expected::StartByte);
            assert_eq!(actual, 0x80);
        },
        other => panic!("unexpected {:?}", other),
    }
}

#[test]
fn four_byte_start_then_end_is_eof() {
    assert!(matches!(decoded(&[0xf0]), Err(Error::Eof)));
    assert!(matches!(decoded(&[b'a', 0xf0]), Err(Error::Eof)));
    assert!(matches!(decoded(&[0xf0, 0x9f, 0xa5]), Err(Error::Eof)));
}

#[test]
fn overlong_and_surrogate_are_rejected() {
    let bad: [&[u8]; 4] = [&[0xc0, 0x80], &[0xe0, 0x80, 0x80], &[0xed, 0xa0, 0x80], &[0xf4, 0x90, 0x80, 0x80]];
    for b in bad.iter() {
        assert!(matches!(decoded(b), Err(Error::Encoding(_))), "{:?}", b);
    }
}

#[test]
fn invalid_byte_is_rejected() {
    match decoded(&[b'a', 0xff]) {
        Err(Error::Encoding(EncodingError::UnexpectedByte { expected: Expected::StartByte, actual: 0xff })) => {},
        other => panic!("unexpected {:?}", other),
    }
}

#[test]
fn an_error_ends_the_characters() {
    let mut it = chars(&[b'a', 0x80, b'b']);
    assert_eq!(it.next().unwrap().unwrap(), 'a');
    assert!(matches!(it.next(), Some(Err(Error::Encoding(_)))));
    assert!(it.next().is_none());
    assert!(it.next().is_none());
}

#[test]
fn end_of_characters_stays_ended() {
    let mut it = chars("é".as_bytes());
    assert_eq!(it.next().unwrap().unwrap(), 'é');
    assert!(it.next().is_none());
    assert!(it.next().is_none());
}

#[test]
fn utf8_char_sink_test_ascii() {
    let mut sink = Utf8CharSink::new();
    assert_eq!(sink.push(b'A'), Some(Ok('A')));
}

#[test]
fn test_two_bytes() {
    let mut sink = Utf8CharSink::new();
    assert_eq!(sink.push(0xce), None);
    assert_eq!(sink.push(0xbb), Some(Ok('λ')))
}

#[test]
fn test_three_bytes() {
    let mut sink = Utf8CharSink::new();
    assert_eq!(sink.push(0xe3), None);
    assert_eq!(sink.push(0x83), None);
    assert_eq!(sink.push(0x84), Some(Ok('ツ')));
}

#[test]
fn test_four_bytes() {
    let mut sink = Utf8CharSink::new();
    assert_eq!(sink.push(0xf0), None);
    assert_eq!(sink.push(0x9f), None);
    assert_eq!(sink.push(0xa5), None);
    assert_eq!(sink.push(0xba), Some(Ok('🥺')));
}

#[test]
fn test_invalid_start() {
    let mut sink = Utf8CharSink::new();
    assert_eq!(sink.push(0x90), Some(Err(EncodingError::UnexpectedByte {
        expected: Expected::StartByte,
        actual: 0x90
    })));
}

#[test]
fn test_invalid_cont() {
    let mut sink = Utf8CharSink::new();
    assert_eq!(sink.push(0xf0), None);
    assert_eq!(sink.push(0xf0), Some(Err(EncodingError::UnexpectedByte {
        expected: Expected::ContByte,
        actual: 0xf0
    })));
}

#[test]
fn sink_is_pending_inside_a_character() {
    let mut sink = Utf8CharSink::new();
    assert!(!sink.pending());
    assert_eq!(sink.push(0xe3), None);
    assert!(sink.pending());
    assert_eq!(sink.push(0x41), Some(Err(EncodingError::UnexpectedByte {
        expected: Expected::ContByte,
        actual: 0x41
    })));
    assert!(!sink.pending());
    assert_eq!(sink.push(0x41), Some(Ok('A')));
}

#[test]
fn test_parens() {
    let source = "()".as_bytes();
    let mut lexer = lexer(source);

    assert_eq!(lexer.next().unwrap().unwrap(), Token::LeftParen);
    assert_eq!(lexer.next().unwrap().unwrap(), Token::RightParen);
    assert_eq!(lexer.next().is_none(), true);
}

#[test]
fn test_empty() {
    let source = "".as_bytes();
    let mut lexer = lexer(source);

    assert_eq!(lexer.next().is_none(), true);
}

#[test]
fn lexer_rejects_other_characters() {
    let mut lexer = lexer("(x".as_bytes());
    assert_eq!(lexer.next().unwrap().unwrap(), Token::LeftParen);
    assert!(matches!(lexer.next(), Some(Err(LexError::UnexpectedChar('x')))));
}

#[test]
fn lexer_reports_decoding_errors() {
    let mut lexer = lexer(&[0xce]);
    assert!(matches!(lexer.next(), Some(Err(LexError::Chars(Error::Eof)))));
}

#[test]
fn errors_convert_into_wider_errors() {
    let e = EncodingError::UnexpectedByte { expected: Expected::ContByte, actual: 0x41 };
    assert!(matches!(Error::from(e), Error::Encoding(x) if x == e));
    let io = std::io::Error::new(std::io::ErrorKind::Other, "closed");
    assert!(matches!(Error::from(io), Error::Io(_)));
    assert!(matches!(LexError::from(Error::Eof), LexError::Chars(Error::Eof)));
}

#[test]
fn decode_step_follows_a_byte_source() {
    let mut sink = Utf8CharSink::new();
    assert!(decode_step(&mut sink, Some(0xce)).is_none());
    assert_eq!(decode_step(&mut sink, Some(0xbb)).unwrap().unwrap(), 'λ');
    assert!(decode_step(&mut sink, None).is_none());
    assert!(decode_step(&mut sink, Some(0xe3)).is_none());
    assert!(matches!(decode_step(&mut sink, None), Some(Err(Error::Eof))));
    assert!(matches!(
        decode_step(&mut sink, Some(0xbf)),
        Some(Err(Error::Encoding(EncodingError::UnexpectedByte { expected: Expected::StartByte, actual: 0xbf })))
    ));
}
