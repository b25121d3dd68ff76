//! Talking to a tracker: the announce URL and the reading of its bencoded
//! response (interval and compact peer list).
use vstd::prelude::*;

use crate::parser::{BencodeParser, Error as ParseError, ParseFailure, rc_from_vec, spec_parse};
use crate::text::{push_char, push_decimal, push_str, text_of, text_string};
use crate::torrentfile::key;
use crate::types::{Bencode, BencodeDict, BencodeElement, ByteString, lookup};
use crate::{DecodeError, DecodeFailure};

verus! {

/// Why an announce failed.
#[derive(Debug)]
pub enum AnnounceError {
    Failed(String),
    Decode(DecodeError),
    Parse(ParseError),
}

/// The model of an `AnnounceError`.
pub enum AnnounceFailure {
    Failed(Seq<char>),
    Decode(DecodeFailure),
    Parse(ParseFailure),
}

impl View for AnnounceError {
    type V = AnnounceFailure;

    open spec fn view(&self) -> AnnounceFailure {
        match self {
            AnnounceError::Failed(s) => AnnounceFailure::Failed(s@),
            AnnounceError::Decode(d) => AnnounceFailure::Decode(d@),
            AnnounceError::Parse(p) => AnnounceFailure::Parse(p@),
        }
    }
}

/// A peer: IPv4 address and port.
#[derive(Debug, Clone, Copy, PartialEq, Eq)]
pub struct Peer {
    pub ip: [u8; 4],
    pub port: u16,
}

/// A tracker's answer: how long to wait before the next announce, and the
/// peers.
#[derive(Debug)]
pub struct AnnouceResponse {
    pub interval: u64,
    pub peers: Vec<Peer>,
}

pub struct AnnounceModel {
    pub interval: u64,
    pub peers: Seq<(Seq<u8>, u16)>,
}

impl View for AnnouceResponse {
    type V = AnnounceModel;

    open spec fn view(&self) -> AnnounceModel {
        AnnounceModel {
            interval: self.interval,
            peers: self.peers@.map_values(|p: Peer| (p.ip@, p.port)),
        }
    }
}

/// The model of an outcome.
pub open spec fn announce_outcome(r: Result<AnnouceResponse, AnnounceError>) -> Result<
    AnnounceModel,
    AnnounceFailure,
> {
    match r {
        Ok(v) => Ok(v@),
        Err(e) => Err(e@),
    }
}

/// The compact peer list: six bytes per peer, four of address and two of
/// port in big-endian order; bytes that do not fill a whole peer are
/// ignored.
pub open spec fn spec_peers(p: Seq<u8>) -> Seq<(Seq<u8>, u16)> {
    Seq::new(p.len() / 6, |i: int| (p.subrange(6 * i, 6 * i + 4), (p[6 * i + 4] * 256 + p[6 * i + 5]) as u16))
}

/// Reading a tracker response dictionary.
pub open spec fn spec_announce(d: Seq<(Seq<u8>, Bencode)>) -> Result<AnnounceModel, AnnounceFailure> {
    match lookup(d, key("failure reason"@)) {
        Some(Bencode::Str(reason)) => Err(AnnounceFailure::Failed(text_of(reason))),
        Some(_) => Err(AnnounceFailure::Decode(DecodeFailure::WrongType("failure reason"@))),
        None => match lookup(d, key("interval"@)) {
            Some(Bencode::Int(interval)) => match lookup(d, key("peers"@)) {
                Some(Bencode::Str(p)) => Ok(
                    AnnounceModel { interval: interval as u64, peers: spec_peers(p) },
                ),
                Some(_) => Err(AnnounceFailure::Decode(DecodeFailure::WrongType("peers"@))),
                None => Err(AnnounceFailure::Decode(DecodeFailure::RequiredKeyMissing("peers"@))),
            },
            Some(_) => Err(AnnounceFailure::Decode(DecodeFailure::WrongType("interval"@))),
            None => Err(AnnounceFailure::Decode(DecodeFailure::RequiredKeyMissing("interval"@))),
        },
    }
}

/// Reading a tracker response from its bytes.
pub open spec fn spec_response(b: Seq<u8>) -> Result<AnnounceModel, AnnounceFailure> {
    match spec_parse(b, 0).0 {
        Err(f) => Err(AnnounceFailure::Parse(f)),
        Ok(Bencode::Dict(entries, _)) => spec_announce(entries),
        Ok(_) => Err(AnnounceFailure::Decode(DecodeFailure::WrongType("(initial value)"@))),
    }
}

/// A tracker answer without a failure reason, with an integer interval and
/// a byte-string peer list, is read in full: one peer for every whole six
/// bytes of the list, in order, peer `i` having as address the four bytes
/// at `6 * i` and as port the next two bytes read big-endian.
pub proof fn lemma_announce_peers(d: Seq<(Seq<u8>, Bencode)>, interval: i64, p: Seq<u8>)
    requires
        lookup(d, key("failure reason"@)) is None,
        lookup(d, key("interval"@)) == Some(Bencode::Int(interval)),
        lookup(d, key("peers"@)) == Some(Bencode::Str(p)),
    ensures
        spec_announce(d) is Ok,
        spec_announce(d) matches Ok(m) ==> {
            &&& interval >= 0 ==> m.interval == interval
            &&& m.peers.len() == p.len() / 6
            &&& forall|i: int|
                0 <= i < m.peers.len() ==> {
                    &&& (#[trigger] m.peers[i]).0 == p.subrange(6 * i, 6 * i + 4)
                    &&& m.peers[i].1 == 256 * p[6 * i + 4] + p[6 * i + 5]
                }
        },
{
    if let Ok(m) = spec_announce(d) {
        assert forall|i: int| 0 <= i < m.peers.len() implies {
            &&& (#[trigger] m.peers[i]).0 == p.subrange(6 * i, 6 * i + 4)
            &&& m.peers[i].1 == 256 * p[6 * i + 4] + p[6 * i + 5]
        } by {
            assert(6 * i + 6 <= p.len()) by (nonlinear_arith)
                requires
                    0 <= i < p.len() / 6,
            ;
            let hi = p[6 * i + 4];
            let lo = p[6 * i + 5];
            assert(0 <= hi * 256 + lo <= 65535) by (nonlinear_arith)
                requires
                    0 <= hi <= 255,
                    0 <= lo <= 255,
            ;
        }
    }
}

/// The peers of a compact peer list.
fn read_peers(bytes: &Vec<u8>) -> (r: Vec<Peer>)
    ensures
        r@.map_values(|p: Peer| (p.ip@, p.port)) == spec_peers(bytes@),
{
    let count = bytes.len() / 6;
    let mut out: Vec<Peer> = Vec::new();
    let mut i: usize = 0;
    while i < count
        invariant
            count == bytes@.len() / 6,
            bytes@.len() <= usize::MAX,
            i <= count,
            out@.len() == i,
            forall|m: int|
                0 <= m < i ==> ((#[trigger] out@[m]).ip@, out@[m].port) == spec_peers(bytes@)[m],
        decreases count - i,
    {
        assert(6 * i + 6 <= bytes@.len()) by (nonlinear_arith)
            requires
                i < count,
                count == bytes@.len() / 6,
        ;
        let at = 6 * i;
        let ip = [bytes[at], bytes[at + 1], bytes[at + 2], bytes[at + 3]];
        let port = (bytes[at + 4] as u16) * 256 + (bytes[at + 5] as u16);
        assert(ip@ =~= bytes@.subrange(6 * i, 6 * i + 4));
        out.push(Peer { ip, port });
        i = i + 1;
    }
    assert(out@.map_values(|p: Peer| (p.ip@, p.port)) =~= spec_peers(bytes@));
    out
}

impl AnnouceResponse {
    /// Reads a tracker response from its bytes: a dictionary, bencoded.
    pub fn from_bytes(bytes: Vec<u8>) -> (r: Result<Self, AnnounceError>)
        ensures
            announce_outcome(r) == spec_response(bytes@),
    {
        let mut parser = BencodeParser::new(rc_from_vec(bytes));
        let bencode_element = match parser.parse() {
            Ok(e) => e,
            Err(e) => {
                return Err(AnnounceError::Parse(e));
            },
        };
        match bencode_element {
            BencodeElement::Dict(dict) => Self::from_bencode(dict),
            _ => Err(
                AnnounceError::Decode(DecodeError::WrongType(text_string("(initial value)"))),
            ),
        }
    }

    /// Reads a tracker response dictionary. A failure reason given by the
    /// tracker comes back as `Failed`.
    pub fn from_bencode(dict: BencodeDict) -> (r: Result<Self, AnnounceError>)
        ensures
            announce_outcome(r) == spec_announce(dict@.0),
    {
        match dict.get(&ByteString::from("failure reason")) {
            Some(BencodeElement::String(reason)) => {
                return Err(AnnounceError::Failed(reason.to_string()));
            },
            Some(_) => {
                return Err(
                    AnnounceError::Decode(DecodeError::WrongType(text_string("failure reason"))),
                );
            },
            None => {},
        }
        let interval = match dict.get(&ByteString::from("interval")) {
            Some(BencodeElement::Int(x)) => x.value() as u64,
            Some(_) => {
                return Err(AnnounceError::Decode(DecodeError::WrongType(text_string("interval"))));
            },
            None => {
                return Err(
                    AnnounceError::Decode(DecodeError::RequiredKeyMissing(text_string("interval"))),
                );
            },
        };
        let peers = match dict.get(&ByteString::from("peers")) {
            Some(BencodeElement::String(byte_string)) => read_peers(byte_string.bytes()),
            Some(_) => {
                return Err(AnnounceError::Decode(DecodeError::WrongType(text_string("peers"))));
            },
            None => {
                return Err(
                    AnnounceError::Decode(DecodeError::RequiredKeyMissing(text_string("peers"))),
                );
            },
        };
        Ok(AnnouceResponse { interval, peers })
    }
}

// ---------------------------------------------------------------------------
// The announce URL
// ---------------------------------------------------------------------------

/// Bytes that stand for themselves in a URL: letters, digits and `-._~`.
pub open spec fn is_unreserved(c: u8) -> bool {
    (65 <= c <= 90) || (97 <= c <= 122) || (48 <= c <= 57) || c == 45 || c == 46 || c == 95
        || c == 126
}

/// The uppercase hexadecimal digit for a value below 16.
pub open spec fn hex_upper_digit(v: u8) -> char {
    if v < 10 {
        ((v + 48) as u8) as char
    } else {
        ((v - 10 + 65) as u8) as char
    }
}

/// Percent-encoding: unreserved bytes as themselves, any other byte as '%'
/// and two uppercase hex digits.
pub open spec fn percent_text(b: Seq<u8>) -> Seq<char>
    decreases b.len(),
{
    if b.len() == 0 {
        Seq::empty()
    } else {
        let c = b.last();
        percent_text(b.drop_last()) + if is_unreserved(c) {
            seq![c as char]
        } else {
            seq!['%', hex_upper_digit(c / 16), hex_upper_digit(c % 16)]
        }
    }
}

/// The value of a hexadecimal digit character of either case.
pub open spec fn hex_value(c: char) -> Option<u8> {
    if 48 <= (c as u32) <= 57 {
        Some((c as u32 - 48) as u8)
    } else if 65 <= (c as u32) <= 70 {
        Some((c as u32 - 55) as u8)
    } else if 97 <= (c as u32) <= 102 {
        Some((c as u32 - 87) as u8)
    } else {
        None
    }
}

/// How a tracker reads a query value: '%' and two hex digits give that
/// byte, '+' gives a space, and any other character gives its own byte.
pub open spec fn query_decode(s: Seq<char>) -> Seq<u8>
    decreases s.len(),
{
    if s.len() == 0 {
        Seq::empty()
    } else if s[0] == '%' && s.len() >= 3 && hex_value(s[1]) is Some && hex_value(s[2]) is Some {
        seq![(hex_value(s[1])->0 * 16 + hex_value(s[2])->0) as u8] + query_decode(
            s.subrange(3, s.len() as int),
        )
    } else if s[0] == '+' {
        seq![32u8] + query_decode(s.drop_first())
    } else {
        seq![s[0] as u8] + query_decode(s.drop_first())
    }
}

/// Percent-encoding works byte by byte: the text of two byte strings
/// joined is the two texts joined.
pub proof fn lemma_percent_concat(a: Seq<u8>, b: Seq<u8>)
    ensures
        percent_text(a + b) == percent_text(a) + percent_text(b),
    decreases b.len(),
{
    if b.len() == 0 {
        assert(a + b =~= a);
        assert(percent_text(a) + percent_text(b) =~= percent_text(a));
    } else {
        lemma_percent_concat(a, b.drop_last());
        assert((a + b).drop_last() =~= a + b.drop_last());
        assert((a + b).last() == b.last());
        let c = b.last();
        let tail = if is_unreserved(c) {
            seq![c as char]
        } else {
            seq!['%', hex_upper_digit(c / 16), hex_upper_digit(c % 16)]
        };
        assert(percent_text(a) + percent_text(b.drop_last()) + tail =~= percent_text(a) + (
        percent_text(b.drop_last()) + tail));
    }
}

proof fn lemma_hex_digit_value(v: u8)
    requires
        v < 16,
    ensures
        hex_value(hex_upper_digit(v)) == Some(v),
        !(97 <= (hex_upper_digit(v) as u32) <= 102),
{
}

/// One byte's text: letters, digits and `-._~` stand for themselves; every
/// other byte is '%' and two uppercase hex digits, the high one first.
pub proof fn lemma_percent_byte(c: u8)
    ensures
        ((65 <= c <= 90) || (97 <= c <= 122) || (48 <= c <= 57) || c == 45 || c == 46 || c == 95
            || c == 126) ==> percent_text(seq![c]) == seq![c as char],
        !((65 <= c <= 90) || (97 <= c <= 122) || (48 <= c <= 57) || c == 45 || c == 46 || c == 95
            || c == 126) ==> {
            let t = percent_text(seq![c]);
            &&& t.len() == 3
            &&& t[0] == '%'
            &&& hex_value(t[1]) == Some(c / 16)
            &&& hex_value(t[2]) == Some(c % 16)
            &&& !(97 <= (t[1] as u32) <= 102)
            &&& !(97 <= (t[2] as u32) <= 102)
        },
{
    assert(seq![c].drop_last() =~= Seq::<u8>::empty());
    assert(seq![c].last() == c);
    assert(percent_text(Seq::<u8>::empty()) =~= Seq::<char>::empty());
    lemma_hex_digit_value(c / 16);
    lemma_hex_digit_value(c % 16);
    let t = percent_text(seq![c]);
    if is_unreserved(c) {
        assert(t =~= seq![c as char]);
    } else {
        assert(t =~= seq!['%', hex_upper_digit(c / 16), hex_upper_digit(c % 16)]);
    }
}

/// A tracker that reads the query value back gets exactly the bytes that
/// were encoded; in particular no byte is written as '+'.
pub proof fn lemma_percent_decodes(b: Seq<u8>)
    ensures
        query_decode(percent_text(b)) == b,
    decreases b.len(),
{
    if b.len() > 0 {
        let c = b[0];
        let rest = b.drop_first();
        assert(b =~= seq![c] + rest);
        lemma_percent_concat(seq![c], rest);
        lemma_percent_byte(c);
        lemma_percent_decodes(rest);
        let t = percent_text(seq![c]);
        let s = t + percent_text(rest);
        if is_unreserved(c) {
            assert(s[0] == c as char);
            assert(s.drop_first() =~= percent_text(rest));
        } else {
            assert(s[0] == '%' && s[1] == t[1] && s[2] == t[2]);
            assert(s.subrange(3, s.len() as int) =~= percent_text(rest));
            assert((c / 16) * 16 + c % 16 == c);
        }
        assert(query_decode(s) =~= b);
    }
}

fn hex_upper(v: u8) -> (c: char)
    requires
        v < 16,
    ensures
        c == hex_upper_digit(v),
{
    if v < 10 {
        (v + 48) as char
    } else {
        (v - 10 + 65) as char
    }
}

/// Percent-encodes bytes for a URL query.
pub fn percent_encode(bytes: &[u8]) -> (r: String)
    ensures
        r@ == percent_text(bytes@),
{
    let mut s = String::new();
    let mut i: usize = 0;
    while i < bytes.len()
        invariant
            i <= bytes@.len(),
            s@ == percent_text(bytes@.take(i as int)),
        decreases bytes@.len() - i,
    {
        let c = bytes[i];
        let ghost before = s@;
        if (65 <= c && c <= 90) || (97 <= c && c <= 122) || (48 <= c && c <= 57) || c == 45 || c
            == 46 || c == 95 || c == 126 {
            push_char(&mut s, c as char);
        } else {
            push_char(&mut s, '%');
            push_char(&mut s, hex_upper(c / 16));
            push_char(&mut s, hex_upper(c % 16));
        }
        proof {
            let t = bytes@.take(i + 1);
            assert(t.drop_last() =~= bytes@.take(i as int));
            assert(t.last() == c);
            assert(s@ =~= percent_text(t));
        }
        i = i + 1;
    }
    assert(bytes@.take(bytes@.len() as int) =~= bytes@);
    s
}

/// The URL of the first announce of a download.
pub open spec fn spec_announce_url(
    tracker_url: Seq<char>,
    info_hash: Seq<u8>,
    peer_id: Seq<u8>,
    port: u16,
    left: u64,
) -> Seq<char> {
    tracker_url + "?info_hash="@ + percent_text(info_hash) + "&peer_id="@ + percent_text(peer_id)
        + "&port="@ + crate::text::dec_text(port as nat) + "&uploaded=0&downloaded=0&left="@
        + crate::text::dec_text(left as nat) + "&compact=1&event=started"@
}

/// The URL of the first announce of a download: the tracker URL with the
/// query that names the torrent, the client, its port and what is left.
pub fn announce_url(
    tracker_url: &str,
    info_hash: &[u8; 20],
    peer_id: &[u8; 20],
    port: u16,
    left: u64,
) -> (r: String)
    ensures
        r@ == spec_announce_url(tracker_url@, info_hash@, peer_id@, port, left),
{
    let mut s = text_string(tracker_url);
    s.append("?info_hash=");
    let ih = percent_encode(info_hash);
    push_str(&mut s, &ih);
    s.append("&peer_id=");
    let pid = percent_encode(peer_id);
    push_str(&mut s, &pid);
    s.append("&port=");
    push_decimal(&mut s, port as u64);
    s.append("&uploaded=0&downloaded=0&left=");
    push_decimal(&mut s, left);
    s.append("&compact=1&event=started");
    s
}

/// The URL of a regular announce made while a download runs: like the
/// first announce, with the transfer counters and without an event.
pub open spec fn spec_refresh_url(
    tracker_url: Seq<char>,
    info_hash: Seq<u8>,
    peer_id: Seq<u8>,
    port: u16,
    uploaded: u64,
    downloaded: u64,
    left: u64,
) -> Seq<char> {
    tracker_url + "?info_hash="@ + percent_text(info_hash) + "&peer_id="@ + percent_text(peer_id)
        + "&port="@ + crate::text::dec_text(port as nat) + "&uploaded="@ + crate::text::dec_text(
        uploaded as nat,
    ) + "&downloaded="@ + crate::text::dec_text(downloaded as nat) + "&left="@
        + crate::text::dec_text(left as nat) + "&compact=1"@
}

/// The URL of a regular announce: the tracker URL with the query that names
/// the torrent, the client, its port and the bytes uploaded, downloaded and
/// left.
pub fn refresh_url(
    tracker_url: &str,
    info_hash: &[u8; 20],
    peer_id: &[u8; 20],
    port: u16,
    uploaded: u64,
    downloaded: u64,
    left: u64,
) -> (r: String)
    ensures
        r@ == spec_refresh_url(tracker_url@, info_hash@, peer_id@, port, uploaded, downloaded, left),
{
    let mut s = text_string(tracker_url);
    s.append("?info_hash=");
    let ih = percent_encode(info_hash);
    push_str(&mut s, &ih);
    s.append("&peer_id=");
    let pid = percent_encode(peer_id);
    push_str(&mut s, &pid);
    s.append("&port=");
    push_decimal(&mut s, port as u64);
    s.append("&uploaded=");
    push_decimal(&mut s, uploaded);
    s.append("&downloaded=");
    push_decimal(&mut s, downloaded);
    s.append("&left=");
    push_decimal(&mut s, left);
    s.append("&compact=1");
    s
}

} // verus!
