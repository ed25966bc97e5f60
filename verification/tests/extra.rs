use json_reader::JsonToken;
use json_reader::LevelReader;
use json_reader::LexError;
use json_reader::ReaderLexer;

fn lexer(body: &str) -> ReaderLexer {
    ReaderLexer::new(body.as_bytes().to_vec())
}

#[test]
fn escape_round_trip() {
    let mut r = lexer("\"a\\\\b\\nc\\rd\\te\\\"f\"");
    assert_eq!(
        r.next().unwrap().unwrap(),
        JsonToken::String("a\\b\nc\rd\te\"f".to_string())
    );
    assert!(r.next().is_none());
}

#[test]
fn invalid_escape_errors() {
    let mut r = lexer("\"a\\qb\"");
    assert_eq!(r.next().unwrap().unwrap_err(), LexError::InvalidEscape(113));
}

#[test]
fn unterminated_string_errors() {
    let mut r = lexer("\"abc");
    assert_eq!(
        r.next().unwrap().unwrap_err(),
        LexError::UnterminatedString
    );
}

#[test]
fn invalid_utf8_errors() {
    let mut r = ReaderLexer::new(vec![34, 0xff, 34]);
    assert_eq!(r.next().unwrap().unwrap_err(), LexError::InvalidUtf8);
}

#[test]
fn mismatched_object_close_errors() {
    let mut r = lexer("[}");
    assert_eq!(r.next().unwrap().unwrap(), JsonToken::ArrayStart);
    assert_eq!(
        r.next().unwrap().unwrap_err(),
        LexError::NotExpectingObjectEnd
    );
}

#[test]
fn mismatched_array_close_errors() {
    let mut r = lexer("{\"a\":]");
    assert_eq!(r.next().unwrap().unwrap(), JsonToken::ObjectStart);
    assert_eq!(r.next().unwrap().unwrap(), JsonToken::Key("a".to_string()));
    assert_eq!(
        r.next().unwrap().unwrap_err(),
        LexError::NotExpectingArrayEnd
    );
}

#[test]
fn expected_key_errors() {
    let mut r = lexer("{1:2}");
    assert_eq!(r.next().unwrap().unwrap(), JsonToken::ObjectStart);
    assert_eq!(r.next().unwrap().unwrap_err(), LexError::ExpectedKey(49));
}

#[test]
fn expected_key_separator_errors() {
    let mut r = lexer("{\"a\"1}");
    assert_eq!(r.next().unwrap().unwrap(), JsonToken::ObjectStart);
    assert_eq!(
        r.next().unwrap().unwrap_err(),
        LexError::ExpectedKeySeparator(49)
    );
}

#[test]
fn eof_after_key_errors() {
    let mut r = lexer("{\"a\"");
    assert_eq!(r.next().unwrap().unwrap(), JsonToken::ObjectStart);
    assert_eq!(r.next().unwrap().unwrap_err(), LexError::EofAfterKey);
}

#[test]
fn expected_separator_errors() {
    let mut r = lexer("[1 2]");
    assert_eq!(r.next().unwrap().unwrap(), JsonToken::ArrayStart);
    assert_eq!(
        r.next().unwrap().unwrap(),
        JsonToken::Number("1".to_string())
    );
    assert_eq!(
        r.next().unwrap().unwrap_err(),
        LexError::ExpectedSeparator(50)
    );
}

#[test]
fn literal_cut_short_by_eof_errors() {
    let mut r = lexer("tru");
    assert_eq!(r.next().unwrap().unwrap_err(), LexError::EofInLiteral);
}

#[test]
fn literal_mismatch_errors() {
    let mut r = lexer("trxe");
    assert_eq!(r.next().unwrap().unwrap_err(), LexError::IncompleteLiteral);
}

#[test]
fn unclosed_containers_error() {
    let mut r = lexer("[1");
    assert_eq!(r.next().unwrap().unwrap(), JsonToken::ArrayStart);
    assert_eq!(
        r.next().unwrap().unwrap(),
        JsonToken::Number("1".to_string())
    );
    assert_eq!(
        r.next().unwrap().unwrap_err(),
        LexError::UnclosedContainers
    );
}

#[test]
fn terminal_error_repeats() {
    let mut r = lexer("12.5.6");
    assert_eq!(
        r.next().unwrap().unwrap(),
        JsonToken::Number("12.5".to_string())
    );
    let first = r.next().unwrap().unwrap_err();
    assert_eq!(first, LexError::ExpectedSeparator(46));
    assert_eq!(r.next().unwrap().unwrap_err(), first);
    assert_eq!(r.next().unwrap().unwrap_err(), first);
}

#[test]
fn end_of_sequence_repeats() {
    let mut r = lexer("true");
    assert_eq!(r.next().unwrap().unwrap(), JsonToken::True);
    assert!(r.next().is_none());
    assert!(r.next().is_none());
}

#[test]
fn empty_input_ends_immediately() {
    let mut r = ReaderLexer::new(Vec::new());
    assert!(r.next().is_none());

    let mut l = LevelReader::new(Vec::new(), 0);
    assert!(l.next().is_none());
}

#[test]
fn whitespace_is_skipped() {
    let mut r = lexer(" \t\r\n true ");
    assert_eq!(r.next().unwrap().unwrap(), JsonToken::True);
    assert!(r.next().is_none());
}

#[test]
fn lone_minus_is_captured_raw() {
    let mut r = lexer("-");
    assert_eq!(r.next().unwrap().unwrap(), JsonToken::Number("-".to_string()));
}

#[test]
fn nested_objects_require_keys_again() {
    let mut r = lexer("{\"a\":{\"b\":1},\"c\":2}");
    let expected = [
        JsonToken::ObjectStart,
        JsonToken::Key("a".to_string()),
        JsonToken::ObjectStart,
        JsonToken::Key("b".to_string()),
        JsonToken::Number("1".to_string()),
        JsonToken::ObjectEnd,
        JsonToken::Key("c".to_string()),
        JsonToken::Number("2".to_string()),
        JsonToken::ObjectEnd,
    ];
    for t in expected.iter() {
        assert_eq!(&r.next().unwrap().unwrap(), t);
    }
    assert!(r.next().is_none());
}

#[test]
fn depth_underflow_errors_and_repeats() {
    let mut l = LevelReader::new("]".as_bytes().to_vec(), 0);
    assert_eq!(l.next().unwrap().unwrap_err(), LexError::DepthUnderflow);
    assert_eq!(l.next().unwrap().unwrap_err(), LexError::DepthUnderflow);
}

#[test]
fn level_reader_ignores_brackets_in_strings() {
    let mut l = LevelReader::new("[\"[[\",{}]".as_bytes().to_vec(), 1);
    assert_eq!(l.next().unwrap().unwrap(), "{}".as_bytes());
    assert!(l.next().is_none());
}

#[test]
fn level_reader_honors_escapes_in_strings() {
    let mut l = LevelReader::new("[\"\\\"{\",{}]".as_bytes().to_vec(), 1);
    assert_eq!(l.next().unwrap().unwrap(), "{}".as_bytes());
    assert!(l.next().is_none());
}
