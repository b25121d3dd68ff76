use std::path::PathBuf;

use sha1::{Digest, Sha1};
use std::rc::Rc;

use jigsaw::parser::BencodeParser;
use jigsaw::parser::Error as ParseError;
use jigsaw::torrentfile::{FileMode, StructureError, TorrentError, TorrentFile};
use jigsaw::types::{BencodeDict, BencodeElement};

fn bstring(s: &str) -> String {
    format!("{}:{}", s.len(), s)
}

fn bint(n: i64) -> String {
    format!("i{}e", n)
}

fn key_value(key: &str, value: &str) -> String {
    format!("{}{}", bstring(key), value)
}

fn single_file_info() -> String {
    let piece_hash = "01234567890123456789"; // 20 bytes, one fake piece
    format!(
        "d{}{}{}{}e",
        key_value("length", &bint(12345)),
        key_value("name", &bstring("test.txt")),
        key_value("piece length", &bint(16384)),
        key_value("pieces", &bstring(piece_hash)),
    )
}

fn multi_file_info() -> String {
    let piece_hash = "01234567890123456789".repeat(2); // 40 bytes, two fake pieces
    let file_a = format!(
        "d{}{}e",
        key_value("length", &bint(100)),
        key_value("path", &format!("l{}e", bstring("dir/file_a.txt"))),
    );
    let file_b = format!(
        "d{}{}e",
        key_value("length", &bint(200)),
        key_value("path", &format!("l{}{}e", bstring("dir"), bstring("file_b.txt"))),
    );
    format!(
        "d{}{}{}{}e",
        key_value("files", &format!("l{}{}e", file_a, file_b)),
        key_value("name", &bstring("test_dir")),
        key_value("piece length", &bint(16384)),
        key_value("pieces", &bstring(&piece_hash)),
    )
}

fn parse_dict(bencoded: &str) -> BencodeDict {
    let bytes: Rc<[u8]> = Rc::from(bencoded.as_bytes().to_vec());
    let mut parser = BencodeParser::new(bytes);

    match parser.parse().expect("input should be valid bencode") {
        BencodeElement::Dict(dict) => dict,
        _ => panic!("top-level bencode element should be a dict"),
    }
}

fn expected_hash(info: &str) -> [u8; 20] {
    let mut hasher = Sha1::new();
    hasher.update(info.as_bytes());
    hasher.finalize().into()
}

fn path_of(parts: &[String]) -> PathBuf {
    parts.iter().collect()
}

#[test]
fn parses_single_file_torrent() {
    let info = single_file_info();
    let torrent = format!(
        "d{}{}{}{}{}e",
        key_value("announce", &bstring("http://tracker.example.com/announce")),
        key_value("comment", &bstring("test comment")),
        key_value("created by", &bstring("jigsaw-test")),
        key_value("creation date", &bint(1700000000)),
        key_value("info", &info),
    );

    let dict = parse_dict(&torrent);
    let torrent_file = TorrentFile::from_bencoded(dict).expect("structure should be valid");

    assert_eq!(torrent_file.announce, "http://tracker.example.com/announce");
    assert_eq!(torrent_file.comment.as_deref(), Some("test comment"));
    assert_eq!(torrent_file.created_by.as_deref(), Some("jigsaw-test"));
    assert_eq!(torrent_file.creation_date, Some(1700000000));

    assert_eq!(torrent_file.info.name, "test.txt");
    assert_eq!(torrent_file.info.piece_length, 16384);
    assert_eq!(torrent_file.info.pieces_hashes.len(), 1);
    assert!(matches!(torrent_file.info.file, FileMode::SingleFile { length: 12345 }));

    assert_eq!(torrent_file.info_hash, expected_hash(&info));
}

#[test]
fn parses_multi_file_torrent() {
    let info = multi_file_info();
    let torrent = format!("d{}{}e", key_value("announce", &bstring("http://tracker.example.com/announce")), key_value("info", &info));

    let dict = parse_dict(&torrent);
    let torrent_file = TorrentFile::from_bencoded(dict).expect("structure should be valid");

    assert_eq!(torrent_file.comment, None);
    assert_eq!(torrent_file.created_by, None);
    assert_eq!(torrent_file.creation_date, None);

    assert_eq!(torrent_file.info.name, "test_dir");
    assert_eq!(torrent_file.info.pieces_hashes.len(), 2);

    match torrent_file.info.file {
        FileMode::MultipleFiles { files } => {
            assert_eq!(files.len(), 2);
            assert_eq!(files[0].length, 100);
            assert_eq!(path_of(&files[0].path), PathBuf::from("dir/file_a.txt"));
            assert_eq!(files[1].length, 200);
            assert_eq!(path_of(&files[1].path), PathBuf::from("dir/file_b.txt"));
        }
        _ => panic!("expected multiple files"),
    }

    assert_eq!(torrent_file.info_hash, expected_hash(&info));
}

#[test]
fn fails_when_announce_is_missing() {
    let info = single_file_info();
    let torrent = format!("d{}e", key_value("info", &info));

    let dict = parse_dict(&torrent);
    let err = TorrentFile::from_bencoded(dict).unwrap_err();

    assert!(matches!(err, StructureError::RequiredKeyMissing(key) if key == "announce"));
}

#[test]
fn fails_when_pieces_length_is_not_divisible_by_20() {
    let info = format!(
        "d{}{}{}{}e",
        key_value("length", &bint(1)),
        key_value("name", &bstring("test.txt")),
        key_value("piece length", &bint(16384)),
        key_value("pieces", &bstring("short")),
    );
    let torrent = format!("d{}{}e", key_value("announce", &bstring("http://tracker.example.com/announce")), key_value("info", &info));

    let dict = parse_dict(&torrent);
    let err = TorrentFile::from_bencoded(dict).unwrap_err();

    assert!(matches!(err, StructureError::PiecesBytesLengthError));
}

// ---------------------------------------------------------------------------

fn torrent_with_info(info: &str) -> TorrentFile {
    let torrent = format!("d{}{}e", key_value("announce", &bstring("http://t/a")), key_value("info", info));
    TorrentFile::from_bencoded(parse_dict(&torrent)).unwrap()
}

fn torrent_err_with_info(info: &str) -> StructureError {
    let torrent = format!("d{}{}e", key_value("announce", &bstring("http://t/a")), key_value("info", info));
    TorrentFile::from_bencoded(parse_dict(&torrent)).unwrap_err()
}

#[test]
fn pieces_are_split_into_twenty_byte_hashes() {
    let pieces = "aaaaaaaaaaaaaaaaaaaabbbbbbbbbbbbbbbbbbbb";
    let info = format!(
        "d{}{}{}{}e",
        key_value("length", &bint(5)),
        key_value("name", &bstring("x")),
        key_value("piece length", &bint(1)),
        key_value("pieces", &bstring(pieces)),
    );
    let t = torrent_with_info(&info);
    assert_eq!(t.info.pieces_hashes, vec![[b'a'; 20], [b'b'; 20]]);
    let joined: Vec<u8> = t.info.pieces_hashes.concat();
    assert_eq!(joined, pieces.as_bytes());
}

#[test]
fn missing_files_and_length() {
    let info = format!("d{}e", key_value("name", &bstring("x")));
    assert!(matches!(torrent_err_with_info(&info), StructureError::RequiredKeyMissing(k) if k == "files/length"));
}

#[test]
fn negative_single_length() {
    let info = format!(
        "d{}{}{}{}e",
        key_value("length", &bint(-1)),
        key_value("name", &bstring("x")),
        key_value("piece length", &bint(1)),
        key_value("pieces", &bstring("")),
    );
    assert!(matches!(torrent_err_with_info(&info), StructureError::NegativeLength));
}

#[test]
fn negative_piece_length() {
    let info = format!(
        "d{}{}{}{}e",
        key_value("length", &bint(1)),
        key_value("name", &bstring("x")),
        key_value("piece length", &bint(-5)),
        key_value("pieces", &bstring("")),
    );
    assert!(matches!(torrent_err_with_info(&info), StructureError::NegativeLength));
}

#[test]
fn wrong_types_are_reported_by_key() {
    let info = format!(
        "d{}{}{}{}e",
        key_value("length", &bint(1)),
        key_value("name", &bint(3)),
        key_value("piece length", &bint(1)),
        key_value("pieces", &bstring("")),
    );
    assert!(matches!(torrent_err_with_info(&info), StructureError::WrongType(k) if k == "name"));
    let files = format!(
        "d{}{}{}{}e",
        key_value("files", &format!("l{}e", bint(1))),
        key_value("name", &bstring("x")),
        key_value("piece length", &bint(1)),
        key_value("pieces", &bstring("")),
    );
    assert!(matches!(torrent_err_with_info(&files), StructureError::WrongType(k) if k == "(file entry)"));
    let part = format!(
        "d{}{}{}{}e",
        key_value("files", &format!("ld{}{}ee", key_value("length", &bint(1)), key_value("path", &format!("l{}e", bint(2))))),
        key_value("name", &bstring("x")),
        key_value("piece length", &bint(1)),
        key_value("pieces", &bstring("")),
    );
    assert!(matches!(torrent_err_with_info(&part), StructureError::WrongType(k) if k == "(path part)"));
    let torrent = format!("d{}{}e", key_value("announce", &bstring("http://t/a")), key_value("info", &bint(1)));
    assert!(matches!(TorrentFile::from_bencoded(parse_dict(&torrent)).unwrap_err(), StructureError::WrongType(k) if k == "info"));
}

#[test]
fn piece_length_is_truncated_to_32_bits() {
    let info = format!(
        "d{}{}{}{}e",
        key_value("length", &bint(1)),
        key_value("name", &bstring("x")),
        key_value("piece length", &bint(4294967296 + 7)),
        key_value("pieces", &bstring("")),
    );
    assert_eq!(torrent_with_info(&info).info.piece_length, 7);
}

#[test]
fn multi_file_length_wraps_negative_values() {
    let info = format!(
        "d{}{}{}{}e",
        key_value("files", &format!("ld{}{}ee", key_value("length", &bint(-1)), key_value("path", &format!("l{}e", bstring("a"))))),
        key_value("name", &bstring("x")),
        key_value("piece length", &bint(1)),
        key_value("pieces", &bstring("")),
    );
    match torrent_with_info(&info).info.file {
        FileMode::MultipleFiles { files } => assert_eq!(files[0].length, u64::MAX),
        _ => panic!("expected multiple files"),
    }
}

#[test]
fn reads_torrent_from_file_bytes() {
    let info = single_file_info();
    let torrent = format!(
        "d{}{}e",
        key_value("announce", &bstring("http://tracker.example.com/announce")),
        key_value("info", &info),
    );
    let parsed = TorrentFile::from_bytes(torrent.into_bytes()).expect("torrent should parse");
    assert_eq!(parsed.announce, "http://tracker.example.com/announce");
    assert_eq!(parsed.info.name, "test.txt");
    assert_eq!(parsed.info_hash, expected_hash(&info));
    assert!(matches!(parsed.info.file, FileMode::SingleFile { length: 12345 }));
}

#[test]
fn file_bytes_that_are_not_bencode_are_refused() {
    let err = TorrentFile::from_bytes(b"d8:announce".to_vec()).unwrap_err();
    assert!(matches!(err, TorrentError::Parse(ParseError::UnexpectedEOF)));

    let err = TorrentFile::from_bytes(b"d1:axe".to_vec()).unwrap_err();
    assert!(matches!(err, TorrentError::Parse(ParseError::UnexpectedCharacter)));
}

#[test]
fn file_bytes_without_info_are_refused() {
    let torrent = format!("d{}e", key_value("announce", &bstring("http://t/a")));
    let err = TorrentFile::from_bytes(torrent.into_bytes()).unwrap_err();
    assert!(matches!(err, TorrentError::Structure(StructureError::RequiredKeyMissing(ref k)) if k == "info"));
}
