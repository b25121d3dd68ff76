use std::rc::Rc;

use jigsaw::parser::{BencodeParser, Error};
use jigsaw::types::{
    BencodeDict, BencodeElement, BencodeElementMap, BencodeList, OriginalBytes,
};

#[test]
fn correct_decoding() {
    let bencoded = b"d3:bar4:spam3:fooi-42e4:listli43ei44ei-73eee";
    let bytes: Rc<[u8]> = Rc::from(bencoded.to_vec());
    let mut decoder = BencodeParser::new(Rc::clone(&bytes));

    let mut map = BencodeElementMap::new();
    map.insert("bar".into(), BencodeElement::String("spam".into()));
    map.insert("foo".into(), BencodeElement::Int((-42i64).into()));
    map.insert("list".into(), BencodeElement::List(BencodeList::from(vec![
        BencodeElement::Int((43i64).into()),
        BencodeElement::Int((44i64).into()),
        BencodeElement::Int((-73i64).into())
    ])));

    let original = OriginalBytes::new(Rc::clone(&bytes), 0, bytes.len() - 1);
    let expected = BencodeElement::Dict(BencodeDict::new(map, original));

    assert_eq!(expected, decoder.parse().unwrap());
}

#[test]
fn eof_error() {
    let bencoded = b"d3:bar4:spam3:fooi-42e4:listli43ei44ei-73ee";
    let bytes: Rc<[u8]> = Rc::from(bencoded.to_vec());
    let mut decoder = BencodeParser::new(Rc::clone(&bytes));

    assert!(matches!(decoder.parse_dict().expect_err("should have unexpected eof!"), Error::UnexpectedEOF));
}

#[test]
fn zero_length_string() {
    let bencoded = b"d0:i73ee"; // 0 length strings are valid
    let bytes: Rc<[u8]> = Rc::from(bencoded.to_vec());
    let mut decoder = BencodeParser::new(Rc::clone(&bytes));

    let mut map = BencodeElementMap::new();
    map.insert("".into(), BencodeElement::Int(73i64.into()));

    let original = OriginalBytes::new(Rc::clone(&bytes), 0, bytes.len() - 1);
    let expected = BencodeDict::new(map, original);

    assert_eq!(decoder.parse_dict().expect("zero length string should be valid!"), expected);
}

#[test]
fn negative_string_length() {
    let bencoded = b"d-1:i73ee";
    let bytes: Rc<[u8]> = Rc::from(bencoded.to_vec());
    let mut decoder = BencodeParser::new(Rc::clone(&bytes));

    assert!(matches!(decoder.parse_dict().expect_err("negative string length should be invalid!"), Error::NegativeStringLength));
}

#[test]
fn invalid_string_length() {
    let bencoded = b"d3lmao1:testi73ee";
    let bytes: Rc<[u8]> = Rc::from(bencoded.to_vec());
    let mut decoder = BencodeParser::new(Rc::clone(&bytes));

    assert!(matches!(decoder.parse_dict().expect_err("string length should be invalid!"), Error::InvalidInteger(int) if int == "3lmao1"));
}

#[test]
fn string_length_too_long() {
    let bencoded = b"d7342:testi43ee";
    let bytes: Rc<[u8]> = Rc::from(bencoded.to_vec());
    let mut decoder = BencodeParser::new(Rc::clone(&bytes));

    assert!(matches!(decoder.parse_dict().expect_err("string reading should have gone out of bounds!"), Error::UnexpectedEOF));
}

#[test]
fn unexpected_character() {
    let bencoded = b"d4:spam4:eggs3:foobi43ee";
    let bytes: Rc<[u8]> = Rc::from(bencoded.to_vec());
    let mut decoder = BencodeParser::new(Rc::clone(&bytes));

    assert!(matches!(decoder.parse_dict().expect_err("character should be unexpected!"), Error::UnexpectedCharacter));
}

#[test]
fn invalid_integer() {
    let bencoded = b"d4:spami3dsee";
    let bytes: Rc<[u8]> = Rc::from(bencoded.to_vec());
    let mut decoder = BencodeParser::new(Rc::clone(&bytes));

    assert!(matches!(decoder.parse_dict().expect_err("integer should be invalid!"), Error::InvalidInteger(int) if int == "3ds"));
}

#[test]
fn duplicate_keys() {
    let bencoded = b"d4:spami3e4:spami4ee";
    let bytes: Rc<[u8]> = Rc::from(bencoded.to_vec());
    let mut decoder = BencodeParser::new(Rc::clone(&bytes));

    assert!(matches!(decoder.parse_dict().expect_err("should have caught duplicate keys!"), Error::DuplicateKey(key) if key == "spam"));
}

// ---------------------------------------------------------------------------

fn parser_for(input: &[u8]) -> BencodeParser {
    BencodeParser::new(Rc::from(input.to_vec()))
}

#[test]
fn keys_come_out_in_ascending_order() {
    let mut parser = parser_for(b"d1:ci1e1:ai2e2:abi3e1:bi4ee");
    let dict = parser.parse_dict().unwrap();
    let keys: Vec<Vec<u8>> = (0..dict.len()).map(|i| dict.map().entry(i).0.bytes().clone()).collect();
    assert_eq!(keys, vec![b"a".to_vec(), b"ab".to_vec(), b"b".to_vec(), b"c".to_vec()]);
}

#[test]
fn map_insert_replaces_and_returns_old_value() {
    let mut map = BencodeElementMap::new();
    assert!(map.insert("k".into(), BencodeElement::Int(1i64.into())).is_none());
    let old = map.insert("k".into(), BencodeElement::Int(2i64.into()));
    assert_eq!(old, Some(BencodeElement::Int(1i64.into())));
    assert_eq!(map.len(), 1);
    assert_eq!(map.get(&"k".into()), Some(&BencodeElement::Int(2i64.into())));
    assert!(map.get(&"x".into()).is_none());
}

#[test]
fn original_bytes_cover_the_dictionary() {
    let mut parser = parser_for(b"d4:infod1:ai1eeetrailing");
    let dict = parser.parse_dict().unwrap();
    assert_eq!(dict.original_bytes(), b"d4:infod1:ai1eee");
    match dict.get(&"info".into()) {
        Some(BencodeElement::Dict(inner)) => assert_eq!(inner.original_bytes(), b"d1:ai1ee"),
        _ => panic!("info should be a dictionary"),
    }
}

#[test]
fn trailing_bytes_are_ignored() {
    let mut a = parser_for(b"d1:ai1ee");
    let mut b = parser_for(b"d1:ai1eeXYZ");
    let da = a.parse_dict().unwrap();
    let db = b.parse_dict().unwrap();
    assert_eq!(da.map(), db.map());
}

#[test]
fn integers_accept_signs_and_reject_overflow() {
    let mut p = parser_for(b"d1:ai+5e1:bi-0e1:ci-9223372036854775808ee");
    let d = p.parse_dict().unwrap();
    assert_eq!(d.get(&"a".into()), Some(&BencodeElement::Int(5i64.into())));
    assert_eq!(d.get(&"b".into()), Some(&BencodeElement::Int(0i64.into())));
    assert_eq!(d.get(&"c".into()), Some(&BencodeElement::Int(i64::MIN.into())));
    let mut q = parser_for(b"d1:ai9223372036854775808ee");
    assert!(matches!(q.parse_dict(), Err(Error::InvalidInteger(s)) if s == "9223372036854775808"));
    let mut r = parser_for(b"d1:aiee");
    assert!(matches!(r.parse_dict(), Err(Error::InvalidInteger(s)) if s.is_empty()));
}

#[test]
fn string_length_with_plus_sign() {
    let mut p = parser_for(b"d+1:ai1ee");
    let d = p.parse_dict().unwrap();
    assert_eq!(d.get(&"a".into()), Some(&BencodeElement::Int(1i64.into())));
}

#[test]
fn empty_string_length_is_refused() {
    let mut p = parser_for(b"d:ai1ee");
    assert!(matches!(p.parse_dict(), Err(Error::EmptyStringLength)));
}

#[test]
fn duplicate_key_shown_as_hex_when_not_utf8() {
    let mut p = parser_for(b"d1:\xffi1e1:\xffi2ee");
    assert!(matches!(p.parse_dict(), Err(Error::DuplicateKey(s)) if s == "ff"));
}

#[test]
fn nested_lists_and_dicts() {
    let mut p = parser_for(b"d1:ald1:xleee1:b0:e");
    let d = p.parse_dict().unwrap();
    match d.get(&"a".into()) {
        Some(BencodeElement::List(l)) => {
            assert_eq!(l.len(), 1);
            match l.get(0) {
                BencodeElement::Dict(inner) => {
                    assert_eq!(inner.get(&"x".into()), Some(&BencodeElement::List(BencodeList::new())));
                }
                _ => panic!("expected a dictionary"),
            }
        }
        _ => panic!("expected a list"),
    }
    assert_eq!(d.get(&"b".into()), Some(&BencodeElement::String("".into())));
}

#[test]
fn empty_input_is_eof() {
    let mut p = parser_for(b"");
    assert!(matches!(p.parse(), Err(Error::UnexpectedEOF)));
    let mut q = parser_for(b"d");
    assert!(matches!(q.parse(), Err(Error::UnexpectedEOF)));
}
