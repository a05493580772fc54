use extract_xml_rechnung::error::ParseError;
use extract_xml_rechnung::object::{clone_object, dict_lookup, ObjRef, PdfObject};
use extract_xml_rechnung::parser::{insert_entry, parse_dictionary, parse_object, MAX_NESTING};

fn parse(input: &[u8]) -> Result<PdfObject, ParseError> {
    parse_object(input, 0, MAX_NESTING).map(|(o, _)| o)
}

fn name(s: &str) -> PdfObject {
    PdfObject::Name(s.as_bytes().to_vec())
}

fn key(s: &str) -> Vec<u8> {
    s.as_bytes().to_vec()
}

#[test]
fn scalar_objects() {
    assert_eq!(parse(b"null"), Ok(PdfObject::Null));
    assert_eq!(parse(b"true"), Ok(PdfObject::Boolean(true)));
    assert_eq!(parse(b"false"), Ok(PdfObject::Boolean(false)));
    assert_eq!(parse(b"-7"), Ok(PdfObject::Integer(-7)));
    assert_eq!(parse(b"2.50"), Ok(PdfObject::Real(b"2.50".to_vec())));
    assert_eq!(parse(b"(text)"), Ok(PdfObject::String(b"text".to_vec())));
    assert_eq!(parse(b"<7465>"), Ok(PdfObject::String(b"te".to_vec())));
    assert_eq!(parse(b"/Name"), Ok(name("Name")));
}

#[test]
fn reference_needs_both_numbers_and_the_keyword() {
    assert_eq!(
        parse_object(b"12 3 R /Next", 0, MAX_NESTING),
        Ok((PdfObject::Reference(ObjRef { number: 12, generation: 3 }), 6))
    );
    assert_eq!(parse_object(b"12 3 /Next", 0, MAX_NESTING), Ok((PdfObject::Integer(12), 2)));
    assert_eq!(parse_object(b"12 3 obj", 0, MAX_NESTING), Ok((PdfObject::Integer(12), 2)));
    assert_eq!(parse_object(b"-1 0 R", 0, MAX_NESTING), Ok((PdfObject::Integer(-1), 2)));
    assert_eq!(parse_object(b"1 70000 R", 0, MAX_NESTING), Ok((PdfObject::Integer(1), 1)));
}

#[test]
fn arrays_keep_order_and_references() {
    assert_eq!(
        parse(b"[1 2 0 R (s) /N [true] null]"),
        Ok(PdfObject::Array(vec![
            PdfObject::Integer(1),
            PdfObject::Reference(ObjRef { number: 2, generation: 0 }),
            PdfObject::String(b"s".to_vec()),
            name("N"),
            PdfObject::Array(vec![PdfObject::Boolean(true)]),
            PdfObject::Null
        ]))
    );
    assert_eq!(parse(b"[]"), Ok(PdfObject::Array(vec![])));
}

#[test]
fn dictionaries_keep_file_order() {
    assert_eq!(
        parse(b"<< /Type /Catalog /Pages 2 0 R /Names << /EmbeddedFiles 4 0 R >> >>"),
        Ok(PdfObject::Dictionary(vec![
            (key("Type"), name("Catalog")),
            (key("Pages"), PdfObject::Reference(ObjRef { number: 2, generation: 0 })),
            (
                key("Names"),
                PdfObject::Dictionary(vec![(
                    key("EmbeddedFiles"),
                    PdfObject::Reference(ObjRef { number: 4, generation: 0 })
                )])
            ),
        ]))
    );
}

#[test]
fn first_entry_of_a_repeated_key_stands() {
    let parsed = parse(b"<< /A 1 /B 2 /A 3 >>").unwrap();
    assert_eq!(
        parsed,
        PdfObject::Dictionary(vec![
            (key("A"), PdfObject::Integer(1)),
            (key("B"), PdfObject::Integer(2))
        ])
    );
    if let PdfObject::Dictionary(entries) = &parsed {
        assert_eq!(dict_lookup(entries, b"A"), Some(&PdfObject::Integer(1)));
        assert_eq!(dict_lookup(entries, b"B"), Some(&PdfObject::Integer(2)));
        assert_eq!(dict_lookup(entries, b"C"), None);
    }
}

#[test]
fn insert_entry_skips_known_keys() {
    let mut entries = vec![(key("A"), PdfObject::Integer(1))];
    insert_entry(&mut entries, key("B"), PdfObject::Null);
    insert_entry(&mut entries, key("A"), PdfObject::Integer(9));
    assert_eq!(
        entries,
        vec![(key("A"), PdfObject::Integer(1)), (key("B"), PdfObject::Null)]
    );
}

#[test]
fn position_behind_the_object_is_returned() {
    assert_eq!(
        parse_object(b"  [1 2]  /Next", 0, MAX_NESTING),
        Ok((PdfObject::Array(vec![PdfObject::Integer(1), PdfObject::Integer(2)]), 7))
    );
    assert_eq!(
        parse_dictionary(b"<< /K (v) >> rest", 2, MAX_NESTING),
        Ok((vec![(key("K"), PdfObject::String(b"v".to_vec()))], 12))
    );
}

#[test]
fn unfinished_containers_fail() {
    assert_eq!(parse(b"[1 2"), Err(ParseError::UnexpectedToken));
    assert_eq!(parse(b"<< /A 1"), Err(ParseError::UnexpectedToken));
    assert_eq!(parse(b"<< /A >>"), Err(ParseError::UnexpectedToken));
    assert_eq!(parse(b"<< 1 2 >>"), Err(ParseError::UnexpectedToken));
    assert_eq!(parse(b"[ (open ]"), Err(ParseError::MalformedToken));
    assert_eq!(parse(b""), Err(ParseError::UnexpectedToken));
    assert_eq!(parse(b"endobj"), Err(ParseError::UnexpectedToken));
    assert_eq!(parse(b"]"), Err(ParseError::UnexpectedToken));
    assert_eq!(parse(b">>"), Err(ParseError::UnexpectedToken));
}

#[test]
fn nesting_is_bounded() {
    let mut deep = Vec::new();
    for _ in 0..MAX_NESTING {
        deep.push(b'[');
    }
    for _ in 0..MAX_NESTING {
        deep.push(b']');
    }
    assert!(parse(&deep).is_ok());
    let mut deeper = vec![b'['];
    deeper.extend_from_slice(&deep);
    deeper.push(b']');
    assert_eq!(parse(&deeper), Err(ParseError::NestingTooDeep));
    assert_eq!(parse_object(b"[]", 0, 0), Err(ParseError::NestingTooDeep));
    assert_eq!(parse_object(b"<< >>", 0, 0), Err(ParseError::NestingTooDeep));
    assert_eq!(parse_object(b"[[]]", 0, 1), Err(ParseError::NestingTooDeep));
    assert_eq!(parse_object(b"7", 0, 0), Ok((PdfObject::Integer(7), 1)));
}

#[test]
fn long_flat_array_is_parsed() {
    let mut input = vec![b'['];
    for i in 0..20000 {
        input.extend_from_slice(format!("{} ", i).as_bytes());
    }
    input.push(b']');
    match parse(&input) {
        Ok(PdfObject::Array(items)) => {
            assert_eq!(items.len(), 20000);
            assert_eq!(items[19999], PdfObject::Integer(19999));
        }
        other => panic!("unexpected: {:?}", other),
    }
}

#[test]
fn copy_has_the_same_value() {
    let original = parse(b"<< /A [1 (two) << /B 3 0 R >>] /C 1.5 /D null >>").unwrap();
    assert_eq!(clone_object(&original), original);
}
