use fitscan::HeaderCard;
use fitscan::HeaderValueType;
use fitscan::string_contains;
use fitscan::value::infer;

#[test]
fn parsing_a_boolean_card() {
    //                            1         2         3         4         5         6         7         8
    //                   123456789012345678901234567890123456789012345678901234567890123456789012345678901
    let header_string = "SIMPLE  =                                  T / file does conform to FITS standard".to_string();
    let header_string_raw = header_string.as_bytes();

    let card = HeaderCard::from_raw(header_string_raw).unwrap();
    match card.value {
        HeaderValueType::Boolean(value) => assert_eq!(value, true),
        _ => panic!("Invalid card value"),
    }

    match card.comment {
        Some(comment) => assert_eq!(comment, b"file does conform to FITS standard".to_vec()),
        _ => panic!("Invalid card comment"),
    }
}

#[test]
fn parsing_an_integer_card() {
    //                            1         2         3         4         5         6         7         8
    //                   123456789012345678901234567890123456789012345678901234567890123456789012345678901
    let header_string = "BITPIX  =                                      32 / number of bits per data pixel".to_string();
    let header_string_raw = header_string.as_bytes();

    let card = HeaderCard::from_raw(header_string_raw).unwrap();
    match card.value {
        HeaderValueType::Integer(value) => assert_eq!(value, 32),
        _ => panic!("Invalid card type"),
    }

    match card.comment {
        Some(comment) => assert_eq!(comment, b"number of bits per data pixel".to_vec()),
        _ => panic!("Invalid card comment"),
    }
}

#[test]
fn parsing_a_floating_point_card() {
    //                            1         2         3         4         5         6         7         8
    //                   123456789012345678901234567890123456789012345678901234567890123456789012345678901
    let header_string = "DBLTEST =                                 0.09375 / Double value                 ".to_string();
    let header_string_raw = header_string.as_bytes();

    let card = HeaderCard::from_raw(header_string_raw).unwrap();
    match card.value {
        HeaderValueType::Real(literal) => {
            assert_eq!(literal, b"0.09375".to_vec());
            let value: f64 = String::from_utf8(literal).unwrap().parse().unwrap();
            assert_eq!(value, 0.09375);
        },
        _ => panic!("Invalid card type"),
    }

    match card.comment {
        Some(comment) => assert_eq!(comment, b"Double value".to_vec()),
        _ => panic!("Invalid card comment"),
    }
}

fn card_bytes(text: &str) -> Vec<u8> {
    format!("{:<80}", text).into_bytes()
}

#[test]
fn keyword_only_card_is_undefined() {
    let card = HeaderCard::from_raw(&card_bytes("END")).unwrap();
    assert_eq!(card.keyword, b"END".to_vec());
    assert!(matches!(card.value, HeaderValueType::Undefined));
    assert!(card.comment.is_none());
}

#[test]
fn short_slice_is_rejected() {
    assert!(HeaderCard::from_raw(b"SIMPLE  =  T").is_none());
}

#[test]
fn slash_inside_quotes_does_not_split() {
    let card = HeaderCard::from_raw(&card_bytes("PATH    = 'a/b''c'   / a note")).unwrap();
    match card.value {
        HeaderValueType::Text(text) => assert_eq!(text, b"a/b'c".to_vec()),
        _ => panic!("expected text"),
    }
    assert_eq!(card.comment, Some(b"a note".to_vec()));
}

#[test]
fn card_without_comment_infers_whole_remainder() {
    let card = HeaderCard::from_raw(&card_bytes("NAXIS   =                    2")).unwrap();
    match card.value {
        HeaderValueType::Integer(value) => assert_eq!(value, 2),
        _ => panic!("expected an integer"),
    }
    assert!(card.comment.is_none());
}

#[test]
fn boolean_literals_never_become_text() {
    match infer(b"  T  ") {
        HeaderValueType::Boolean(v) => assert!(v),
        _ => panic!("T must infer as Boolean"),
    }
    match infer(b"F") {
        HeaderValueType::Boolean(v) => assert!(!v),
        _ => panic!("F must infer as Boolean"),
    }
}

#[test]
fn integer_literals_decode_exactly() {
    match infer(b"32") {
        HeaderValueType::Integer(v) => assert_eq!(v, 32),
        _ => panic!("expected Integer"),
    }
    match infer(b"  -17 ") {
        HeaderValueType::Integer(v) => assert_eq!(v, -17),
        _ => panic!("expected Integer"),
    }
    match infer(b"9223372036854775807") {
        HeaderValueType::Integer(v) => assert_eq!(v, i64::MAX),
        _ => panic!("expected Integer"),
    }
    match infer(b"-9223372036854775808") {
        HeaderValueType::Integer(v) => assert_eq!(v, i64::MIN),
        _ => panic!("expected Integer"),
    }
}

#[test]
fn real_literals_keep_their_text() {
    match infer(b"3.4e2") {
        HeaderValueType::Real(lit) => assert_eq!(lit, b"3.4e2".to_vec()),
        _ => panic!("expected Real"),
    }
    match infer(b"0.09375") {
        HeaderValueType::Real(lit) => assert_eq!(lit, b"0.09375".to_vec()),
        _ => panic!("expected Real"),
    }
    // an integer literal too large for the widest integer width
    match infer(b"9223372036854775808") {
        HeaderValueType::Real(lit) => assert_eq!(lit, b"9223372036854775808".to_vec()),
        _ => panic!("expected Real"),
    }
}

#[test]
fn malformed_numerics_fall_through_to_text() {
    match infer(b" 3.4.5 ") {
        HeaderValueType::Text(t) => assert_eq!(t, b"3.4.5".to_vec()),
        _ => panic!("expected Text"),
    }
    match infer(b"12x") {
        HeaderValueType::Text(t) => assert_eq!(t, b"12x".to_vec()),
        _ => panic!("expected Text"),
    }
}

#[test]
fn quoted_text_collapses_doubled_quotes() {
    match infer(b"'it''s'") {
        HeaderValueType::Text(t) => assert_eq!(t, b"it's".to_vec()),
        _ => panic!("expected Text"),
    }
}

#[test]
fn rendering_a_commented_card_keyword() {
    let card = HeaderCard::from_raw(&card_bytes("BITPIX  =  8 / bits")).unwrap();
    assert_eq!(card.to_string(), "BITPIX  =");
    let bare = HeaderCard::from_raw(&card_bytes("HISTORY nothing here")).unwrap();
    assert_eq!(bare.to_string(), "");
}

#[test]
fn string_contains_finds_substrings() {
    let s = "value / comment".to_string();
    assert!(string_contains(&s, "/"));
    assert!(string_contains(&s, "comment"));
    assert!(string_contains(&s, ""));
    assert!(!string_contains(&s, "absent"));
}
