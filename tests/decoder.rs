use asn1::decoder::DEFAULT_MAX_DEPTH;
use asn1::{
    Class, DecodeError, LengthError, Node, Parser, Tag, TagError, Token, TypeId, Value,
};

fn universal(constructed: bool, tag: Tag) -> TypeId {
    TypeId { class: Class::Universal, is_constructed: constructed, tag }
}

#[test]
fn accepts_empty_input() {
    let input = b"";
    let mut parser = Parser::new(input);
    assert_eq!(Ok(Token::NoMoreTokens), parser.next_token());
}

#[test]
fn accepts_valid_objectid() {
    let input: [u8; 6] = [0x06, 0x04, 0xDE, 0xAD, 0xBE, 0xEF];
    let mut parser = Parser::new(&input);
    assert_eq!(Ok(Token::ObjectIdentifier(&input[2..])), parser.next_token());
    assert_eq!(Ok(Token::NoMoreTokens), parser.next_token());
}

#[test]
fn empty_input_has_no_records() {
    let mut parser = Parser::new(&[]);
    assert_eq!(Ok(None), parser.next());
    assert_eq!(Ok(None), parser.next());
}

#[test]
fn object_identifier_record_end_to_end() {
    let input: [u8; 6] = [0x06, 0x04, 0xDE, 0xAD, 0xBE, 0xEF];
    let mut parser = Parser::new(&input);
    let node = parser.next().unwrap().unwrap();
    assert_eq!(node.type_id, universal(false, Tag::ObjectId));
    assert_eq!(node.value, Value::Primitive(&[0xDE, 0xAD, 0xBE, 0xEF]));
    assert_eq!((node.start, node.end), (2, 6));
    assert_eq!(Ok(None), parser.next());
}

#[test]
fn buffer_of_exactly_one_record() {
    let input: [u8; 4] = [0x04, 0x02, 0xAA, 0xBB];
    let mut parser = Parser::new(&input);
    let node = parser.next().unwrap().unwrap();
    assert_eq!(node.type_id, universal(false, Tag::OctetString));
    assert_eq!(node.value, Value::Primitive(&[0xAA, 0xBB]));
    assert_eq!(parser.remainder(), 0);
    assert_eq!(Ok(None), parser.next());
}

#[test]
fn buffer_of_one_empty_record() {
    let input: [u8; 2] = [0x05, 0x00];
    let mut parser = Parser::new(&input);
    let node = parser.next().unwrap().unwrap();
    assert_eq!(node.type_id, universal(false, Tag::Null));
    assert_eq!(node.value, Value::Primitive(&[]));
    assert_eq!(Ok(None), parser.next());
}

#[test]
fn records_laid_end_to_end() {
    let input: [u8; 7] = [0x01, 0x01, 0xFF, 0x02, 0x02, 0x01, 0x00];
    let mut parser = Parser::new(&input);
    assert_eq!(parser.remainder(), 7);
    let first = parser.next().unwrap().unwrap();
    assert_eq!(first.type_id, universal(false, Tag::Boolean));
    assert_eq!(first.value, Value::Primitive(&[0xFF]));
    assert_eq!(parser.remainder(), 4);
    let second = parser.next().unwrap().unwrap();
    assert_eq!(second.type_id, universal(false, Tag::Integer));
    assert_eq!(second.value, Value::Primitive(&[0x01, 0x00]));
    assert_eq!((second.start, second.end), (5, 7));
    assert_eq!(Ok(None), parser.next());
}

#[test]
fn declared_length_past_the_end_is_bad_length() {
    let input: [u8; 3] = [0x04, 0x05, 0x01];
    let mut parser = Parser::new(&input);
    assert_eq!(Err(DecodeError::BadLength(5)), parser.next());
}

#[test]
fn an_error_comes_again_on_the_next_call() {
    let input: [u8; 5] = [0x04, 0x01, 0x00, 0x04, 0x09];
    let mut parser = Parser::new(&input);
    assert!(parser.next().unwrap().is_some());
    assert_eq!(Err(DecodeError::BadLength(9)), parser.next());
    assert_eq!(parser.remainder(), 2);
    assert_eq!(Err(DecodeError::BadLength(9)), parser.next());
}

#[test]
fn sequence_of_two_integers() {
    let input: [u8; 8] = [0x30, 0x06, 0x02, 0x01, 0x01, 0x02, 0x01, 0x02];
    let mut parser = Parser::new(&input);
    let node = parser.next().unwrap().unwrap();
    assert_eq!(node.type_id, universal(true, Tag::Sequence));
    assert_eq!((node.start, node.end), (2, 8));
    let expected = vec![
        Node {
            type_id: universal(false, Tag::Integer),
            start: 4,
            end: 5,
            value: Value::Primitive(&[1]),
        },
        Node {
            type_id: universal(false, Tag::Integer),
            start: 7,
            end: 8,
            value: Value::Primitive(&[2]),
        },
    ];
    assert_eq!(node.value, Value::Constructed(expected));
    assert_eq!(Ok(None), parser.next());
}

#[test]
fn nested_constructed_records() {
    // SET { SEQUENCE { NULL }, [0] { } }
    let input: [u8; 8] = [0x31, 0x06, 0x30, 0x02, 0x05, 0x00, 0xA0, 0x00];
    let mut parser = Parser::new(&input);
    let node = parser.next().unwrap().unwrap();
    assert_eq!(node.type_id, universal(true, Tag::SetOf));
    let children = match node.value {
        Value::Constructed(children) => children,
        Value::Primitive(_) => panic!("expected constructed content"),
    };
    assert_eq!(children.len(), 2);
    assert_eq!(
        children[0].value,
        Value::Constructed(vec![Node {
            type_id: universal(false, Tag::Null),
            start: 6,
            end: 6,
            value: Value::Primitive(&[]),
        }])
    );
    assert_eq!(
        children[1].type_id,
        TypeId { class: Class::ContextSpecific, is_constructed: true, tag: Tag::EndOfContent }
    );
    assert_eq!(children[1].value, Value::Constructed(vec![]));
}

#[test]
fn child_running_past_its_parent_is_bad_length() {
    let input: [u8; 6] = [0x30, 0x03, 0x02, 0x02, 0x01, 0x01];
    let mut parser = Parser::new(&input);
    assert_eq!(Err(DecodeError::BadLength(2)), parser.next());
}

#[test]
fn child_cut_short_inside_its_parent() {
    let input: [u8; 3] = [0x30, 0x01, 0x02];
    let mut parser = Parser::new(&input);
    assert_eq!(Err(DecodeError::Length(LengthError::InsufficientBytes)), parser.next());
}

#[test]
fn nesting_deeper_than_allowed_is_refused() {
    let input: [u8; 6] = [0x30, 0x04, 0x30, 0x02, 0x05, 0x00];
    let mut parser = Parser::with_max_depth(&input, 1);
    assert_eq!(Err(DecodeError::TooDeep), parser.next());
    let mut parser = Parser::with_max_depth(&input, 2);
    assert!(parser.next().unwrap().is_some());
    let mut parser = Parser::with_max_depth(&input, 0);
    assert_eq!(Err(DecodeError::TooDeep), parser.next());
}

#[test]
fn default_depth_limit_is_enforced() {
    let depth = DEFAULT_MAX_DEPTH + 1;
    let mut input: Vec<u8> = Vec::new();
    for i in 0..depth {
        input.push(0x30);
        input.push((2 * (depth - 1 - i)) as u8);
    }
    let mut parser = Parser::new(&input);
    assert_eq!(Err(DecodeError::TooDeep), parser.next());
    let mut parser = Parser::new(&input[2..]);
    assert!(parser.next().unwrap().is_some());
}

#[test]
fn header_errors_are_reported() {
    let mut parser = Parser::new(&[0x1F]);
    assert_eq!(Err(DecodeError::Tag(TagError::InsufficientBytes)), parser.next());
    let mut parser = Parser::new(&[0x02]);
    assert_eq!(Err(DecodeError::Length(LengthError::InsufficientBytes)), parser.next());
    let mut parser = Parser::new(&[0x02, 0x81, 0x05]);
    assert_eq!(
        Err(DecodeError::Length(LengthError::BadRepresentation(1, 5))),
        parser.next()
    );
    let mut parser = Parser::new(&[0x02, 0x80, 0x00, 0x00]);
    assert_eq!(Err(DecodeError::Length(LengthError::UnsupportedLength(0))), parser.next());
    let mut parser = Parser::new(&[0x1F, 0x80, 0x80, 0x80, 0x80, 0x01, 0x00]);
    assert_eq!(Err(DecodeError::Tag(TagError::UnsupportedTag(0x1F))), parser.next());
}

#[test]
fn unknown_tags_still_decode() {
    let input: [u8; 4] = [0x9F, 0x81, 0x00, 0x00];
    let mut parser = Parser::new(&input);
    let node = parser.next().unwrap().unwrap();
    assert_eq!(
        node.type_id,
        TypeId { class: Class::ContextSpecific, is_constructed: false, tag: Tag::Unknown(128) }
    );
    assert_eq!(node.value, Value::Primitive(&[]));
}

#[test]
fn next_token_refuses_other_types() {
    let input: [u8; 3] = [0x02, 0x01, 0x05];
    let mut parser = Parser::new(&input);
    assert_eq!(
        Err(DecodeError::UnknownType(universal(false, Tag::Integer))),
        parser.next_token()
    );
    assert_eq!(Ok(Token::NoMoreTokens), parser.next_token());
}

#[test]
fn decode_error_from_length_error() {
    assert_eq!(
        DecodeError::from(LengthError::InsufficientBytes),
        DecodeError::Length(LengthError::InsufficientBytes)
    );
    assert_eq!(
        DecodeError::from(TagError::UnsupportedTag(0x1F)),
        DecodeError::Tag(TagError::UnsupportedTag(0x1F))
    );
}
