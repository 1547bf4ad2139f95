use appendable::index_file::IndexKey;
use appendable::json_tokenizer::{JSONTokenizer, Token};
use appendable::walker::{handle_json_object, RecordError};

#[test]
fn tokens_carry_their_offsets() {
    let mut t = JSONTokenizer::new(b" { \"k\" : [true, null, -0.5] } ".to_vec());
    assert!(matches!(t.next(), Ok(Some((Token::OpenBracket, 1)))));
    match t.next() {
        Ok(Some((Token::String(s), 4))) => assert_eq!(s, "k"),
        _ => panic!("expected a string"),
    }
    assert!(matches!(t.next(), Ok(Some((Token::Colon, 7)))));
    assert!(matches!(t.next(), Ok(Some((Token::OpenArray, 9)))));
    assert!(matches!(t.next(), Ok(Some((Token::Boolean(true), 10)))));
    assert!(matches!(t.next(), Ok(Some((Token::Comma, 14)))));
    assert!(matches!(t.next(), Ok(Some((Token::Null, 16)))));
    assert!(matches!(t.next(), Ok(Some((Token::Comma, 20)))));
    match t.next() {
        Ok(Some((Token::Number(n), 22))) => assert_eq!(n, "-0.5"),
        _ => panic!("expected a number"),
    }
    assert!(matches!(t.next(), Ok(Some((Token::CloseArray, 26)))));
    assert!(matches!(t.next(), Ok(Some((Token::CloseBracket, 28)))));
    assert!(matches!(t.next(), Ok(None)));
}

#[test]
fn string_tokens_start_after_their_quote() {
    let mut t = JSONTokenizer::new(vec![34, 97, 92, 34, 98, 34]);
    match t.next() {
        Ok(Some((Token::String(s), 1))) => assert_eq!(s, "a\"b"),
        _ => panic!("expected a string at offset 1"),
    }
    assert_eq!(t.position(), 6);
    let mut t = JSONTokenizer::new(b" \"x\"".to_vec());
    match t.next_token() {
        Ok(Some((Token::String(s), 1))) => assert_eq!(s, "x"),
        _ => panic!("expected a string token at its quote"),
    }
}

#[test]
fn bad_bytes_are_reported_where_they_stand() {
    let mut t = JSONTokenizer::new(b"  tru".to_vec());
    assert_eq!(t.next().err(), Some(2));
    let mut t = JSONTokenizer::new(b"\"open".to_vec());
    assert_eq!(t.next().err(), Some(0));
    let mut t = JSONTokenizer::new(b"1.".to_vec());
    assert_eq!(t.next().err(), Some(0));
    let mut t = JSONTokenizer::new(b"@".to_vec());
    assert_eq!(t.next().err(), Some(0));
}

#[test]
fn record_walk_lists_fields_with_value_ranges() {
    let line = b"{\"a\":{\"b\":[1]},\"c\":null}\n".to_vec();
    let out = match handle_json_object(line, 3, 100) {
        Ok(o) => o,
        Err(_) => panic!("the record should walk"),
    };
    assert_eq!(out.len(), 2);
    assert_eq!(out[0].field_name, "a.b");
    assert_eq!(out[0].key, IndexKey::Array(vec![IndexKey::Number("1".to_string())]));
    assert_eq!(out[0].record.data_number, 3);
    assert_eq!(out[0].record.field_start_byte_offset, 110);
    assert_eq!(out[0].record.field_length, 3);
    assert_eq!(out[1].field_name, "c");
    assert_eq!(out[1].key, IndexKey::Null);
    assert_eq!(out[1].record.field_start_byte_offset, 119);
    assert_eq!(out[1].record.field_length, 4);
    assert!(matches!(handle_json_object(b"  7\n".to_vec(), 0, 0), Err(RecordError::InvalidShape(2))));
    assert!(matches!(handle_json_object(b"{\"a\":1,}\n".to_vec(), 0, 0), Err(RecordError::Parse(7))));
    assert!(matches!(handle_json_object(b"{\"a\":1} x\n".to_vec(), 0, 0), Err(RecordError::Parse(8))));
}
