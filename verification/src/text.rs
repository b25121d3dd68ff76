//! Text rendering helpers shared by the bencode types and the torrent logic:
//! byte strings shown as UTF-8 or hex, decimal numbers and tab indentation.
use vstd::prelude::*;
use vstd::utf8::{decode_utf8, encode_utf8, valid_utf8};

verus! {

/// The lowercase hexadecimal digit for a value below 16.
pub open spec fn hex_digit(v: u8) -> char {
    if v < 10 {
        ((v + 48) as u8) as char
    } else {
        ((v - 10 + 97) as u8) as char
    }
}

/// Lowercase hexadecimal text of a byte sequence, two digits per byte,
/// high nibble first.
pub open spec fn hex_lower(b: Seq<u8>) -> Seq<char>
    decreases b.len(),
{
    if b.len() == 0 {
        Seq::empty()
    } else {
        seq![hex_digit(b[0] / 16), hex_digit(b[0] % 16)] + hex_lower(b.drop_first())
    }
}

/// How a byte string is shown as text: its UTF-8 decoding when it is valid
/// UTF-8, its lowercase hex encoding otherwise.
pub open spec fn text_of(b: Seq<u8>) -> Seq<char> {
    if valid_utf8(b) {
        decode_utf8(b)
    } else {
        hex_lower(b)
    }
}

/// Text encoded as UTF-8 shows as that text again.
pub proof fn lemma_text_of_utf8(s: Seq<char>)
    ensures
        text_of(encode_utf8(s)) == s,
{
    vstd::utf8::encode_utf8_valid_utf8(s);
    vstd::utf8::encode_utf8_decode_utf8(s);
}

/// Each byte taken as the character with the same code point.
pub open spec fn latin1(b: Seq<u8>) -> Seq<char> {
    b.map_values(|x: u8| x as char)
}

/// The decimal digit character for a value below 10.
pub open spec fn dec_digit(d: nat) -> char {
    ((d + 48) as u8) as char
}

/// Decimal text of a natural number, without leading zeros ("0" for zero).
pub open spec fn dec_text(n: nat) -> Seq<char>
    decreases n,
{
    if n < 10 {
        seq![dec_digit(n)]
    } else {
        dec_text(n / 10).push(dec_digit(n % 10))
    }
}

/// Decimal text of an integer, with a leading '-' when it is negative.
pub open spec fn int_text(v: int) -> Seq<char> {
    if v < 0 {
        seq!['-'] + dec_text((-v) as nat)
    } else {
        dec_text(v as nat)
    }
}

/// A run of `n` tab characters.
pub open spec fn tabs(n: nat) -> Seq<char> {
    Seq::new(n, |i: int| '\t')
}

/// `String::push`: appends one character.
#[verifier::external_body]
pub(crate) fn push_char(s: &mut String, c: char)
    ensures
        final(s)@ == old(s)@.push(c),
{
    s.push(c)
}

/// `String::from_utf8`: the decoded text when the bytes are valid UTF-8.
#[verifier::external_body]
fn string_from_utf8(bytes: Vec<u8>) -> (res: Option<String>)
    ensures
        res is Some <==> valid_utf8(bytes@),
        res matches Some(s) ==> s@ == decode_utf8(bytes@),
{
    String::from_utf8(bytes).ok()
}

/// `hex::encode`: the lowercase hex text of the bytes, two digits per byte,
/// high nibble first.
#[verifier::external_body]
fn hex_encode(bytes: &[u8]) -> (res: String)
    ensures
        res@ == hex_lower(bytes@),
{
    hex::encode(bytes)
}

/// An owned copy of `s`.
pub fn text_string(s: &str) -> (r: String)
    ensures
        r@ == s@,
{
    s.to_string()
}

/// Appends `other` to `s`.
pub fn push_str(s: &mut String, other: &String)
    ensures
        final(s)@ == old(s)@ + other@,
{
    s.append(other.as_str());
}

/// The text of a byte string: UTF-8 when valid, lowercase hex otherwise.
pub fn bytes_text(bytes: &Vec<u8>) -> (res: String)
    ensures
        res@ == text_of(bytes@),
{
    match string_from_utf8(bytes.clone()) {
        Some(s) => s,
        None => hex_encode(bytes.as_slice()),
    }
}

/// The bytes `bytes[start..end]`, each taken as a character.
pub fn latin1_text(bytes: &[u8], start: usize, end: usize) -> (res: String)
    requires
        start <= end <= bytes@.len(),
    ensures
        res@ == latin1(bytes@.subrange(start as int, end as int)),
{
    let mut s = String::new();
    let mut k = start;
    while k < end
        invariant
            start <= k <= end <= bytes@.len(),
            s@ == latin1(bytes@.subrange(start as int, k as int)),
        decreases end - k,
    {
        push_char(&mut s, bytes[k] as char);
        k = k + 1;
        assert(latin1(bytes@.subrange(start as int, k as int)) =~= latin1(
            bytes@.subrange(start as int, k - 1),
        ).push(bytes@[k - 1] as char));
    }
    s
}

/// Appends the decimal text of `n`.
pub fn push_decimal(s: &mut String, n: u64)
    ensures
        final(s)@ == old(s)@ + dec_text(n as nat),
    decreases n,
{
    if n >= 10 {
        push_decimal(s, n / 10);
    }
    let d: u8 = (n % 10) as u8;
    push_char(s, (d + 48) as char);
    assert(dec_digit((n % 10) as nat) == (d + 48) as char);
    if n >= 10 {
        assert(old(s)@ + dec_text(n as nat) =~= old(s)@ + dec_text((n / 10) as nat) + seq![
            dec_digit((n % 10) as nat),
        ]);
    } else {
        assert(old(s)@ + dec_text(n as nat) =~= old(s)@ + seq![dec_digit((n % 10) as nat)]);
    }
}

/// Appends the decimal text of `v`, with a leading '-' when negative.
pub fn push_int(s: &mut String, v: i64)
    ensures
        final(s)@ == old(s)@ + int_text(v as int),
{
    if v < 0 {
        push_char(s, '-');
        let m: u64 = if v == i64::MIN {
            9223372036854775808u64
        } else {
            (-v) as u64
        };
        push_decimal(s, m);
        assert(old(s)@.push('-') + dec_text(m as nat) =~= old(s)@ + (seq!['-'] + dec_text(
            m as nat,
        )));
    } else {
        push_decimal(s, v as u64);
    }
}

/// Appends `n` tab characters.
pub fn push_tabs(s: &mut String, n: usize)
    ensures
        final(s)@ == old(s)@ + tabs(n as nat),
{
    let mut k: usize = 0;
    while k < n
        invariant
            k <= n,
            s@ == old(s)@ + tabs(k as nat),
        decreases n - k,
    {
        push_char(s, '\t');
        k = k + 1;
        assert(old(s)@ + tabs(k as nat) =~= (old(s)@ + tabs((k - 1) as nat)).push('\t'));
    }
}

} // verus!
