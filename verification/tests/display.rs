use std::rc::Rc;

use jigsaw::parser::BencodeParser;
use jigsaw::types::{
    BencodeDict, BencodeElement, BencodeElementMap, BencodeList, BencodeNumber, ByteString, OriginalBytes,
};

fn parse(input: &[u8]) -> BencodeElement {
    BencodeParser::new(Rc::from(input.to_vec())).parse().unwrap()
}

#[test]
fn byte_string_text_is_utf8_or_hex() {
    let s: ByteString = "spam".into();
    assert_eq!(s.to_string(), "spam");
    assert_eq!(s.display(), "4:spam");
    assert_eq!(s.len(), 4);
    let raw: ByteString = vec![0xffu8, 0x00, 0xab].into();
    assert_eq!(raw.to_string(), "ff00ab");
    assert_eq!(raw.display(), "3:ff00ab");
    let utf8: ByteString = String::from("héllo").into();
    assert_eq!(utf8.display(), "6:héllo");
}

#[test]
fn number_display() {
    let n: BencodeNumber = (-42i64).into();
    assert_eq!(n.display(), "i-42e");
    assert_eq!(*n, -42);
    let m: BencodeNumber = i64::MIN.into();
    assert_eq!(m.display(), "i-9223372036854775808e");
    assert_eq!(BencodeNumber::from(0i64).to_string(), "0");
}

#[test]
fn dictionary_text_is_indented() {
    assert_eq!(parse(b"d1:ai1ee").to_string(), "d\n\t1:a\n\t\ti1e\ne");
    assert_eq!(parse(b"d1:ali1eee").to_string(), "d\n\t1:a\n\t\tl\n\t\ti1e\n\te\ne");
    assert_eq!(parse(b"de").to_string(), "d\ne");
}

#[test]
fn list_text_is_indented() {
    let list = BencodeList::from(vec![
        BencodeElement::Int(1i64.into()),
        BencodeElement::String("x".into()),
    ]);
    assert_eq!(list.to_string(), "l\n\ti1e\n\t1:x\ne");
    assert_eq!(BencodeList::new().to_string(), "l\ne");
    let mut out = String::new();
    list.fmt_indent(&mut out, 2);
    assert_eq!(out, "l\n\t\t\ti1e\n\t\t\t1:x\n\t\te");
}

#[test]
fn dictionaries_with_equal_pairs_print_alike() {
    let mut first = BencodeElementMap::new();
    first.insert("foo".into(), BencodeElement::Int(1i64.into()));
    first.insert("bar".into(), BencodeElement::String("x".into()));
    let mut second = BencodeElementMap::new();
    second.insert("bar".into(), BencodeElement::String("x".into()));
    second.insert("foo".into(), BencodeElement::Int(1i64.into()));
    let a = BencodeDict::new(first, OriginalBytes::new(Rc::from(vec![0u8; 4]), 0, 3));
    let b = BencodeDict::new(second, OriginalBytes::default());
    assert_eq!(a.to_string(), b.to_string());
    assert_eq!(a.to_string(), "d\n\t3:bar\n\t\t1:x\n\t3:foo\n\t\ti1e\ne");
}
