use extract_xml_rechnung::error::ParseError;
use extract_xml_rechnung::lexer::{next_token, skip_blank_from, Token};

fn tokens(input: &[u8]) -> Vec<Token> {
    let mut out = Vec::new();
    let mut pos = 0;
    loop {
        let (token, next) = next_token(input, pos).unwrap();
        if token == Token::Eof {
            return out;
        }
        assert!(next > pos);
        out.push(token);
        pos = next;
    }
}

#[test]
fn integers_with_and_without_sign() {
    assert_eq!(
        tokens(b"0 17 +5 -42 0012"),
        vec![
            Token::Integer(0),
            Token::Integer(17),
            Token::Integer(5),
            Token::Integer(-42),
            Token::Integer(12)
        ]
    );
}

#[test]
fn integer_limits() {
    assert_eq!(
        next_token(b"9223372036854775807", 0),
        Ok((Token::Integer(i64::MAX), 19))
    );
    assert_eq!(
        next_token(b"-9223372036854775807", 0),
        Ok((Token::Integer(-i64::MAX), 20))
    );
    assert_eq!(next_token(b"9223372036854775808", 0), Err(ParseError::MalformedToken));
    assert_eq!(
        next_token(b"99999999999999999999999999", 0),
        Err(ParseError::MalformedToken)
    );
}

#[test]
fn reals_keep_their_lexeme() {
    assert_eq!(
        tokens(b"3.14 -.5 4. +0.0"),
        vec![
            Token::Real(b"3.14".to_vec()),
            Token::Real(b"-.5".to_vec()),
            Token::Real(b"4.".to_vec()),
            Token::Real(b"+0.0".to_vec())
        ]
    );
}

#[test]
fn lone_sign_and_dot_are_keywords() {
    assert_eq!(
        tokens(b"+ - . 1.2.3 12ab"),
        vec![
            Token::Keyword(b"+".to_vec()),
            Token::Keyword(b"-".to_vec()),
            Token::Keyword(b".".to_vec()),
            Token::Keyword(b"1.2.3".to_vec()),
            Token::Keyword(b"12ab".to_vec())
        ]
    );
}

#[test]
fn literal_string_with_nested_parentheses() {
    assert_eq!(
        next_token(b"(a (b (c)) d) tail", 0),
        Ok((Token::LiteralString(b"a (b (c)) d".to_vec()), 13))
    );
}

#[test]
fn literal_string_escapes() {
    assert_eq!(
        tokens(b"(\\n\\r\\t\\b\\f\\(\\)\\\\\\q)"),
        vec![Token::LiteralString(vec![10, 13, 9, 8, 12, b'(', b')', b'\\', b'q'])]
    );
}

#[test]
fn literal_string_octal_escapes() {
    assert_eq!(
        tokens(b"(\\101\\7\\53x\\0053\\777)"),
        vec![Token::LiteralString(vec![b'A', 7, b'+', b'x', 5, b'3', 0xff])]
    );
}

#[test]
fn literal_string_line_continuation() {
    assert_eq!(
        tokens(b"(ab\\\ncd\\\r\nef\\\rgh)"),
        vec![Token::LiteralString(b"abcdefgh".to_vec())]
    );
}

#[test]
fn unterminated_literal_string_is_malformed() {
    assert_eq!(next_token(b"(never closed", 0), Err(ParseError::MalformedToken));
    assert_eq!(next_token(b"(open (inner)", 0), Err(ParseError::MalformedToken));
    assert_eq!(next_token(b"(ends in backslash\\", 0), Err(ParseError::MalformedToken));
}

#[test]
fn hex_strings() {
    assert_eq!(
        tokens(b"<48656C6c6f> <4 8\n6> <> <7>"),
        vec![
            Token::HexString(b"Hello".to_vec()),
            Token::HexString(vec![0x48, 0x60]),
            Token::HexString(vec![]),
            Token::HexString(vec![0x70])
        ]
    );
}

#[test]
fn invalid_hex_digit_is_malformed() {
    assert_eq!(next_token(b"<48G5>", 0), Err(ParseError::MalformedToken));
    assert_eq!(next_token(b"<4865", 0), Err(ParseError::MalformedToken));
}

#[test]
fn names_with_escapes() {
    assert_eq!(
        tokens(b"/Type /A#20B /text#2Fxml / /F1.5"),
        vec![
            Token::Name(b"Type".to_vec()),
            Token::Name(b"A B".to_vec()),
            Token::Name(b"text/xml".to_vec()),
            Token::Name(vec![]),
            Token::Name(b"F1.5".to_vec())
        ]
    );
}

#[test]
fn name_with_bad_escape_is_malformed() {
    assert_eq!(next_token(b"/A#2", 0), Err(ParseError::MalformedToken));
    assert_eq!(next_token(b"/A#ZZ", 0), Err(ParseError::MalformedToken));
}

#[test]
fn delimiters() {
    assert_eq!(
        tokens(b"<< >> [ ] <<>>[]"),
        vec![
            Token::DictOpen,
            Token::DictClose,
            Token::ArrayOpen,
            Token::ArrayClose,
            Token::DictOpen,
            Token::DictClose,
            Token::ArrayOpen,
            Token::ArrayClose
        ]
    );
}

#[test]
fn stray_delimiters_are_malformed() {
    assert_eq!(next_token(b"> x", 0), Err(ParseError::MalformedToken));
    assert_eq!(next_token(b") x", 0), Err(ParseError::MalformedToken));
    assert_eq!(next_token(b"{ x", 0), Err(ParseError::MalformedToken));
    assert_eq!(next_token(b"} x", 0), Err(ParseError::MalformedToken));
}

#[test]
fn keywords_and_stream_markers() {
    assert_eq!(
        tokens(b"obj endobj stream endstream R true null xref streams"),
        vec![
            Token::Keyword(b"obj".to_vec()),
            Token::Keyword(b"endobj".to_vec()),
            Token::StreamBegin,
            Token::StreamEnd,
            Token::Keyword(b"R".to_vec()),
            Token::Keyword(b"true".to_vec()),
            Token::Keyword(b"null".to_vec()),
            Token::Keyword(b"xref".to_vec()),
            Token::Keyword(b"streams".to_vec())
        ]
    );
}

#[test]
fn comments_and_white_space_are_skipped() {
    assert_eq!(
        tokens(b"  % a comment (with parens\n\t12 % another\r/Name%tail"),
        vec![Token::Integer(12), Token::Name(b"Name".to_vec())]
    );
    assert_eq!(skip_blank_from(b"  %x\n  y", 0), 7);
    assert_eq!(skip_blank_from(b"abc", 1), 1);
    assert_eq!(skip_blank_from(b"% no end of line", 0), 16);
}

#[test]
fn end_of_input_gives_eof() {
    assert_eq!(next_token(b"", 0), Ok((Token::Eof, 0)));
    assert_eq!(next_token(b"  \n% only a comment", 0), Ok((Token::Eof, 19)));
    assert_eq!(next_token(b"12", 2), Ok((Token::Eof, 2)));
    assert_eq!(next_token(b"12", 7), Ok((Token::Eof, 7)));
}

#[test]
fn tokenizer_restarts_at_any_offset() {
    let input = b"1 0 obj << /Length 5 >> stream";
    assert_eq!(next_token(input, 8), Ok((Token::DictOpen, 10)));
    assert_eq!(next_token(input, 10), Ok((Token::Name(b"Length".to_vec()), 18)));
    assert_eq!(next_token(input, 13), Ok((Token::Keyword(b"ength".to_vec()), 18)));
    assert_eq!(next_token(input, 23), Ok((Token::StreamBegin, 30)));
}
