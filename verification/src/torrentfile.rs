//! The structure of a .torrent file (metainfo), read from its bencoded
//! top-level dictionary.
use sha1::{Digest, Sha1};
use vstd::prelude::*;
use vstd::utf8::encode_utf8;

use crate::parser::{BencodeParser, Error as ParseError, ParseFailure, rc_from_vec, spec_parse};
use crate::text::{text_of, text_string};
use crate::types::{
    Bencode, BencodeDict, BencodeElement, BencodeElementMap, BencodeList, ByteString, elements_view,
    find_key, lemma_entries_wf, lemma_find_key_bounds, lookup, spans_valid,
};

verus! {

// ---------------------------------------------------------------------------
// Errors
// ---------------------------------------------------------------------------

/// Why a dictionary does not describe a torrent.
#[derive(Debug)]
pub enum StructureError {
    WrongType(String),
    RequiredKeyMissing(String),
    PiecesBytesLengthError,
    NegativeLength,
}

/// The model of a `StructureError`.
pub enum StructureFailure {
    WrongType(Seq<char>),
    RequiredKeyMissing(Seq<char>),
    PiecesBytesLengthError,
    NegativeLength,
}

impl View for StructureError {
    type V = StructureFailure;

    open spec fn view(&self) -> StructureFailure {
        match self {
            StructureError::WrongType(s) => StructureFailure::WrongType(s@),
            StructureError::RequiredKeyMissing(s) => StructureFailure::RequiredKeyMissing(s@),
            StructureError::PiecesBytesLengthError => StructureFailure::PiecesBytesLengthError,
            StructureError::NegativeLength => StructureFailure::NegativeLength,
        }
    }
}

/// Why bytes are not a torrent: they are no bencoded dictionary, or the
/// dictionary does not describe a torrent.
#[derive(Debug)]
pub enum TorrentError {
    Parse(ParseError),
    Structure(StructureError),
}

/// The model of a `TorrentError`.
pub enum TorrentFailure {
    Parse(ParseFailure),
    Structure(StructureFailure),
}

impl View for TorrentError {
    type V = TorrentFailure;

    open spec fn view(&self) -> TorrentFailure {
        match self {
            TorrentError::Parse(e) => TorrentFailure::Parse(e@),
            TorrentError::Structure(e) => TorrentFailure::Structure(e@),
        }
    }
}

/// The model of an outcome.
pub open spec fn structure_outcome<T: View>(r: Result<T, StructureError>) -> Result<
    T::V,
    StructureFailure,
> {
    match r {
        Ok(v) => Ok(v@),
        Err(e) => Err(e@),
    }
}

// ---------------------------------------------------------------------------
// The torrent structures and their models
// ---------------------------------------------------------------------------

/// A file of a multi-file torrent: its length and the parts of its path.
#[derive(Debug)]
pub struct FileEntry {
    pub length: u64,
    pub path: Vec<String>,
}

pub struct FileEntryModel {
    pub length: u64,
    pub path: Seq<Seq<char>>,
}

impl View for FileEntry {
    type V = FileEntryModel;

    open spec fn view(&self) -> FileEntryModel {
        FileEntryModel { length: self.length, path: self.path@.map_values(|p: String| p@) }
    }
}

/// One file of a given length, or a list of files.
#[derive(Debug)]
pub enum FileMode {
    SingleFile { length: u64 },
    MultipleFiles { files: Vec<FileEntry> },
}

pub enum FileModeModel {
    SingleFile(u64),
    MultipleFiles(Seq<FileEntryModel>),
}

impl View for FileMode {
    type V = FileModeModel;

    open spec fn view(&self) -> FileModeModel {
        match self {
            FileMode::SingleFile { length } => FileModeModel::SingleFile(*length),
            FileMode::MultipleFiles { files } => FileModeModel::MultipleFiles(
                files@.map_values(|f: FileEntry| f@),
            ),
        }
    }
}

/// The `info` dictionary of a torrent.
#[derive(Debug)]
pub struct Info {
    pub name: String,
    pub file: FileMode,
    pub piece_length: u32,
    pub pieces_hashes: Vec<[u8; 20]>,
}

pub struct InfoModel {
    pub name: Seq<char>,
    pub file: FileModeModel,
    pub piece_length: u32,
    pub pieces_hashes: Seq<Seq<u8>>,
}

impl View for Info {
    type V = InfoModel;

    open spec fn view(&self) -> InfoModel {
        InfoModel {
            name: self.name@,
            file: self.file@,
            piece_length: self.piece_length,
            pieces_hashes: self.pieces_hashes@.map_values(|h: [u8; 20]| h@),
        }
    }
}

/// A torrent: its tracker, its `info` dictionary with the SHA-1 of that
/// dictionary's encoded form, and the optional descriptive fields.
#[derive(Debug)]
pub struct TorrentFile {
    pub announce: String,
    pub info: Info,
    pub info_hash: [u8; 20],
    pub comment: Option<String>,
    pub created_by: Option<String>,
    pub creation_date: Option<u64>,
}

pub struct TorrentModel {
    pub announce: Seq<char>,
    pub info: InfoModel,
    pub info_hash: Seq<u8>,
    pub comment: Option<Seq<char>>,
    pub created_by: Option<Seq<char>>,
    pub creation_date: Option<u64>,
}

/// The model of an optional text.
pub open spec fn opt_text(o: Option<String>) -> Option<Seq<char>> {
    match o {
        Some(s) => Some(s@),
        None => None,
    }
}

impl View for TorrentFile {
    type V = TorrentModel;

    open spec fn view(&self) -> TorrentModel {
        TorrentModel {
            announce: self.announce@,
            info: self.info@,
            info_hash: self.info_hash@,
            comment: opt_text(self.comment),
            created_by: opt_text(self.created_by),
            creation_date: self.creation_date,
        }
    }
}

// ---------------------------------------------------------------------------
// Reading fields, as mathematics
// ---------------------------------------------------------------------------

/// The dictionary key spelled by `name`.
pub open spec fn key(name: Seq<char>) -> Seq<u8> {
    encode_utf8(name)
}

/// A required byte-string field, as text.
pub open spec fn required_text(d: Seq<(Seq<u8>, Bencode)>, name: Seq<char>) -> Result<
    Seq<char>,
    StructureFailure,
> {
    match lookup(d, key(name)) {
        Some(Bencode::Str(s)) => Ok(text_of(s)),
        Some(_) => Err(StructureFailure::WrongType(name)),
        None => Err(StructureFailure::RequiredKeyMissing(name)),
    }
}

/// An optional byte-string field, as text.
pub open spec fn optional_text(d: Seq<(Seq<u8>, Bencode)>, name: Seq<char>) -> Result<
    Option<Seq<char>>,
    StructureFailure,
> {
    match lookup(d, key(name)) {
        Some(Bencode::Str(s)) => Ok(Some(text_of(s))),
        Some(_) => Err(StructureFailure::WrongType(name)),
        None => Ok(None),
    }
}

/// A required integer field.
pub open spec fn required_int(d: Seq<(Seq<u8>, Bencode)>, name: Seq<char>) -> Result<
    i64,
    StructureFailure,
> {
    match lookup(d, key(name)) {
        Some(Bencode::Int(v)) => Ok(v),
        Some(_) => Err(StructureFailure::WrongType(name)),
        None => Err(StructureFailure::RequiredKeyMissing(name)),
    }
}

/// An optional integer field.
pub open spec fn optional_int(d: Seq<(Seq<u8>, Bencode)>, name: Seq<char>) -> Result<
    Option<i64>,
    StructureFailure,
> {
    match lookup(d, key(name)) {
        Some(Bencode::Int(v)) => Ok(Some(v)),
        Some(_) => Err(StructureFailure::WrongType(name)),
        None => Ok(None),
    }
}

/// The path parts of a file entry, each a byte string shown as text.
pub open spec fn spec_path(parts: Seq<Bencode>) -> Result<Seq<Seq<char>>, StructureFailure>
    decreases parts.len(),
{
    if parts.len() == 0 {
        Ok(Seq::empty())
    } else {
        match spec_path(parts.drop_last()) {
            Err(e) => Err(e),
            Ok(p) => match parts.last() {
                Bencode::Str(s) => Ok(p.push(text_of(s))),
                _ => Err(StructureFailure::WrongType("(path part)"@)),
            },
        }
    }
}

/// One entry of the `files` list: its length (an integer taken as `u64`)
/// and its path.
pub open spec fn spec_file_entry(v: Bencode) -> Result<FileEntryModel, StructureFailure> {
    match v {
        Bencode::Dict(e, _) => match required_int(e, "length"@) {
            Err(f) => Err(f),
            Ok(len) => match lookup(e, key("path"@)) {
                Some(Bencode::List(parts)) => match spec_path(parts) {
                    Ok(p) => Ok(FileEntryModel { length: len as u64, path: p }),
                    Err(f) => Err(f),
                },
                Some(_) => Err(StructureFailure::WrongType("path"@)),
                None => Err(StructureFailure::RequiredKeyMissing("path"@)),
            },
        },
        _ => Err(StructureFailure::WrongType("(file entry)"@)),
    }
}

/// The entries of the `files` list, the first failing one deciding the error.
pub open spec fn spec_files(items: Seq<Bencode>) -> Result<Seq<FileEntryModel>, StructureFailure>
    decreases items.len(),
{
    if items.len() == 0 {
        Ok(Seq::empty())
    } else {
        match spec_files(items.drop_last()) {
            Err(e) => Err(e),
            Ok(fs) => match spec_file_entry(items.last()) {
                Ok(f) => Ok(fs.push(f)),
                Err(e) => Err(e),
            },
        }
    }
}

/// Multiple files when `files` is present, otherwise a single file of
/// non-negative `length`.
pub open spec fn spec_file_mode(d: Seq<(Seq<u8>, Bencode)>) -> Result<
    FileModeModel,
    StructureFailure,
> {
    match lookup(d, key("files"@)) {
        Some(Bencode::List(items)) => match spec_files(items) {
            Ok(fs) => Ok(FileModeModel::MultipleFiles(fs)),
            Err(e) => Err(e),
        },
        Some(_) => Err(StructureFailure::WrongType("files"@)),
        None => match required_int(d, "length"@) {
            Err(e) => Err(e),
            Ok(len) => if len < 0 {
                Err(StructureFailure::NegativeLength)
            } else {
                Ok(FileModeModel::SingleFile(len as u64))
            },
        },
    }
}

/// The 20-byte pieces of a byte string whose length is a multiple of 20.
pub open spec fn chunks20(p: Seq<u8>) -> Seq<Seq<u8>> {
    Seq::new(p.len() / 20, |i: int| p.subrange(20 * i, 20 * i + 20))
}

/// Reading an `info` dictionary.
pub open spec fn spec_info(d: Seq<(Seq<u8>, Bencode)>) -> Result<InfoModel, StructureFailure> {
    if lookup(d, key("files"@)) is None && lookup(d, key("length"@)) is None {
        Err(StructureFailure::RequiredKeyMissing("files/length"@))
    } else {
        match required_text(d, "name"@) {
            Err(e) => Err(e),
            Ok(name) => match spec_file_mode(d) {
                Err(e) => Err(e),
                Ok(file) => match required_int(d, "piece length"@) {
                    Err(e) => Err(e),
                    Ok(pl) => if pl < 0 {
                        Err(StructureFailure::NegativeLength)
                    } else {
                        match lookup(d, key("pieces"@)) {
                            Some(Bencode::Str(p)) => if p.len() % 20 != 0 {
                                Err(StructureFailure::PiecesBytesLengthError)
                            } else {
                                Ok(
                                    InfoModel {
                                        name,
                                        file,
                                        piece_length: pl as u32,
                                        pieces_hashes: chunks20(p),
                                    },
                                )
                            },
                            Some(_) => Err(StructureFailure::WrongType("pieces"@)),
                            None => Err(StructureFailure::RequiredKeyMissing("pieces"@)),
                        }
                    },
                },
            },
        }
    }
}

/// SHA-1 of a byte sequence.
pub uninterp spec fn sha1_digest(data: Seq<u8>) -> Seq<u8>;

/// The rest of a torrent once its tracker, its `info` and the hash of its
/// `info` are known: the optional descriptive fields.
pub open spec fn spec_torrent_rest(
    d: Seq<(Seq<u8>, Bencode)>,
    announce: Seq<char>,
    info: InfoModel,
    info_hash: Seq<u8>,
) -> Result<TorrentModel, StructureFailure> {
    match optional_text(d, "comment"@) {
        Err(e) => Err(e),
        Ok(comment) => match optional_text(d, "created by"@) {
            Err(e) => Err(e),
            Ok(created_by) => match optional_int(d, "creation date"@) {
                Err(e) => Err(e),
                Ok(date) => Ok(
                    TorrentModel {
                        announce,
                        info,
                        info_hash,
                        comment,
                        created_by,
                        creation_date: match date {
                            Some(x) => Some(x as u64),
                            None => None,
                        },
                    },
                ),
            },
        },
    }
}

/// Reading a torrent from its top-level dictionary; `info_hash` is the
/// SHA-1 of the encoded form of the `info` dictionary.
pub open spec fn spec_torrent(d: Seq<(Seq<u8>, Bencode)>) -> Result<TorrentModel, StructureFailure> {
    match required_text(d, "announce"@) {
        Err(e) => Err(e),
        Ok(announce) => match lookup(d, key("info"@)) {
            Some(Bencode::Dict(ie, span)) => match spec_info(ie) {
                Err(e) => Err(e),
                Ok(info) => spec_torrent_rest(d, announce, info, sha1_digest(span.slice())),
            },
            Some(_) => Err(StructureFailure::WrongType("info"@)),
            None => Err(StructureFailure::RequiredKeyMissing("info"@)),
        },
    }
}

/// Reading a torrent from the bytes of a .torrent file.
pub open spec fn spec_torrent_bytes(b: Seq<u8>) -> Result<TorrentModel, TorrentFailure> {
    match spec_parse(b, 0).0 {
        Err(e) => Err(TorrentFailure::Parse(e)),
        Ok(Bencode::Dict(entries, _)) => match spec_torrent(entries) {
            Ok(t) => Ok(t),
            Err(e) => Err(TorrentFailure::Structure(e)),
        },
        Ok(_) => Err(TorrentFailure::Structure(StructureFailure::WrongType("(initial value)"@))),
    }
}

// ---------------------------------------------------------------------------
// Laws of the reading
// ---------------------------------------------------------------------------

/// A single-file `info` dictionary with fields of the right kinds is read
/// in full: the name is the text of its bytes, the file is one file of
/// exactly the given length (the whole 64-bit value), the piece length is
/// the given one when it fits in 32 bits, and the piece hashes are the
/// consecutive 20-byte slices of `pieces`, in order.
pub proof fn lemma_single_file_info(
    d: Seq<(Seq<u8>, Bencode)>,
    name: Seq<u8>,
    length: i64,
    piece_length: i64,
    pieces: Seq<u8>,
)
    requires
        lookup(d, key("files"@)) is None,
        lookup(d, key("length"@)) == Some(Bencode::Int(length)),
        lookup(d, key("name"@)) == Some(Bencode::Str(name)),
        lookup(d, key("piece length"@)) == Some(Bencode::Int(piece_length)),
        lookup(d, key("pieces"@)) == Some(Bencode::Str(pieces)),
        length >= 0,
        piece_length >= 0,
        pieces.len() % 20 == 0,
    ensures
        spec_info(d) is Ok,
        spec_info(d) matches Ok(info) ==> {
            &&& info.name == text_of(name)
            &&& info.file matches FileModeModel::SingleFile(n) && n == length
            &&& piece_length <= u32::MAX ==> info.piece_length == piece_length
            &&& info.pieces_hashes.len() * 20 == pieces.len()
            &&& forall|i: int|
                0 <= i < info.pieces_hashes.len() ==> #[trigger] info.pieces_hashes[i]
                    == pieces.subrange(20 * i, 20 * i + 20)
        },
{
}

/// The descriptive fields of a torrent are exactly its optional fields:
/// absent keys give nothing, a comment or author is the text of its bytes,
/// a creation date is the given number, and a field of the wrong kind is
/// refused. The tracker, `info` and hash are carried through unchanged.
pub proof fn lemma_torrent_optional_fields(
    d: Seq<(Seq<u8>, Bencode)>,
    announce: Seq<char>,
    info: InfoModel,
    info_hash: Seq<u8>,
)
    ensures
        spec_torrent_rest(d, announce, info, info_hash) is Ok <==> {
            &&& (lookup(d, key("comment"@)) is None || lookup(d, key("comment"@)) is Some
                && lookup(d, key("comment"@))->0 is Str)
            &&& (lookup(d, key("created by"@)) is None || lookup(d, key("created by"@)) is Some
                && lookup(d, key("created by"@))->0 is Str)
            &&& (lookup(d, key("creation date"@)) is None || lookup(d, key("creation date"@))
                is Some && lookup(d, key("creation date"@))->0 is Int)
        },
        spec_torrent_rest(d, announce, info, info_hash) matches Ok(t) ==> {
            &&& t.announce == announce
            &&& t.info == info
            &&& t.info_hash == info_hash
            &&& match lookup(d, key("comment"@)) {
                Some(Bencode::Str(c)) => t.comment == Some(text_of(c)),
                _ => t.comment is None,
            }
            &&& match lookup(d, key("created by"@)) {
                Some(Bencode::Str(c)) => t.created_by == Some(text_of(c)),
                _ => t.created_by is None,
            }
            &&& match lookup(d, key("creation date"@)) {
                Some(Bencode::Int(v)) => t.creation_date matches Some(x) && (v >= 0 ==> x == v),
                _ => t.creation_date is None,
            }
        },
{
}

// ---------------------------------------------------------------------------
// Reading fields
// ---------------------------------------------------------------------------

/// `Sha1::digest`: the SHA-1 digest of the bytes.
#[verifier::external_body]
fn sha1(data: &[u8]) -> (r: [u8; 20])
    ensures
        r@ == sha1_digest(data@),
{
    Sha1::digest(data).into()
}

fn get_required_text(d: &BencodeElementMap, name: &str) -> (r: Result<String, StructureError>)
    ensures
        structure_outcome(r) == required_text(d@, name@),
{
    match d.get(&ByteString::from(name)) {
        Some(BencodeElement::String(val)) => Ok(val.to_string()),
        Some(_) => Err(StructureError::WrongType(text_string(name))),
        None => Err(StructureError::RequiredKeyMissing(text_string(name))),
    }
}

fn get_optional_text(d: &BencodeElementMap, name: &str) -> (r: Result<
    Option<String>,
    StructureError,
>)
    ensures
        match r {
            Ok(o) => optional_text(d@, name@) == Ok::<_, StructureFailure>(opt_text(o)),
            Err(e) => optional_text(d@, name@) == Err::<Option<Seq<char>>, _>(e@),
        },
{
    match d.get(&ByteString::from(name)) {
        Some(BencodeElement::String(val)) => Ok(Some(val.to_string())),
        Some(_) => Err(StructureError::WrongType(text_string(name))),
        None => Ok(None),
    }
}

fn get_required_int(d: &BencodeElementMap, name: &str) -> (r: Result<i64, StructureError>)
    ensures
        structure_outcome(r) == required_int(d@, name@),
{
    match d.get(&ByteString::from(name)) {
        Some(BencodeElement::Int(val)) => Ok(val.value()),
        Some(_) => Err(StructureError::WrongType(text_string(name))),
        None => Err(StructureError::RequiredKeyMissing(text_string(name))),
    }
}

fn get_optional_int(d: &BencodeElementMap, name: &str) -> (r: Result<
    Option<i64>,
    StructureError,
>)
    ensures
        structure_outcome(r) == optional_int(d@, name@),
{
    match d.get(&ByteString::from(name)) {
        Some(BencodeElement::Int(val)) => Ok(Some(val.value())),
        Some(_) => Err(StructureError::WrongType(text_string(name))),
        None => Ok(None),
    }
}

/// The 20-byte pieces of `bytes`, whose length is a multiple of 20.
fn split_hashes(bytes: &Vec<u8>) -> (r: Vec<[u8; 20]>)
    requires
        bytes@.len() % 20 == 0,
    ensures
        r@.map_values(|h: [u8; 20]| h@) == chunks20(bytes@),
{
    let count = bytes.len() / 20;
    let mut out: Vec<[u8; 20]> = Vec::new();
    let mut i: usize = 0;
    while i < count
        invariant
            count == bytes@.len() / 20,
            bytes@.len() <= usize::MAX,
            i <= count,
            out@.len() == i,
            forall|m: int| 0 <= m < i ==> (#[trigger] out@[m])@ == bytes@.subrange(20 * m, 20 * m + 20),
        decreases count - i,
    {
        assert(20 * i + 20 <= bytes@.len()) by (nonlinear_arith)
            requires
                i < count,
                count == bytes@.len() / 20,
        ;
        let mut h = [0u8; 20];
        let mut j: usize = 0;
        while j < 20
            invariant
                i < count,
                20 * i + 20 <= bytes@.len(),
                bytes@.len() <= usize::MAX,
                count == bytes@.len() / 20,
                j <= 20,
                forall|m: int| 0 <= m < j ==> h@[m] == bytes@[20 * i + m],
            decreases 20 - j,
        {
            h[j] = bytes[20 * i + j];
            j = j + 1;
        }
        assert(h@ =~= bytes@.subrange(20 * i, 20 * i + 20));
        out.push(h);
        i = i + 1;
    }
    assert(out@.map_values(|h: [u8; 20]| h@) =~= chunks20(bytes@));
    out
}

/// A failure on a prefix is the failure of the whole.
proof fn lemma_path_prefix_err(s: Seq<Bencode>, n: int)
    requires
        0 <= n <= s.len(),
        spec_path(s.take(n)) is Err,
    ensures
        spec_path(s) == spec_path(s.take(n)),
    decreases s.len() - n,
{
    if n == s.len() {
        assert(s.take(n) =~= s);
    } else {
        let t = s.drop_last();
        assert(t.take(n) =~= s.take(n));
        lemma_path_prefix_err(t, n);
    }
}

/// A failure on a prefix is the failure of the whole.
proof fn lemma_files_prefix_err(s: Seq<Bencode>, n: int)
    requires
        0 <= n <= s.len(),
        spec_files(s.take(n)) is Err,
    ensures
        spec_files(s) == spec_files(s.take(n)),
    decreases s.len() - n,
{
    if n == s.len() {
        assert(s.take(n) =~= s);
    } else {
        let t = s.drop_last();
        assert(t.take(n) =~= s.take(n));
        lemma_files_prefix_err(t, n);
    }
}

/// The path parts of a file entry.
fn read_path(parts: &Vec<BencodeElement>) -> (r: Result<Vec<String>, StructureError>)
    ensures
        match r {
            Ok(p) => spec_path(elements_view(parts@)) == Ok::<_, StructureFailure>(
                p@.map_values(|s: String| s@),
            ),
            Err(e) => spec_path(elements_view(parts@)) == Err::<Seq<Seq<char>>, _>(e@),
        },
{
    let ghost all = elements_view(parts@);
    let mut out: Vec<String> = Vec::new();
    let mut i: usize = 0;
    assert(all.take(0) =~= Seq::<Bencode>::empty());
    assert(out@.map_values(|s: String| s@) =~= Seq::<Seq<char>>::empty());
    while i < parts.len()
        invariant
            i <= parts@.len(),
            all == elements_view(parts@),
            spec_path(all.take(i as int)) == Ok::<_, StructureFailure>(
                out@.map_values(|s: String| s@),
            ),
        decreases parts@.len() - i,
    {
        let ghost t = all.take(i + 1);
        assert(t.drop_last() =~= all.take(i as int));
        assert(t.last() == parts@[i as int]@);
        match &parts[i] {
            BencodeElement::String(part) => {
                let ghost before = out@;
                let text = part.to_string();
                out.push(text);
                assert(out@.map_values(|s: String| s@) =~= before.map_values(|s: String| s@).push(
                    text_of(part@),
                ));
            },
            _ => {
                proof {
                    lemma_path_prefix_err(all, i + 1);
                }
                return Err(StructureError::WrongType(text_string("(path part)")));
            },
        }
        i = i + 1;
    }
    assert(all.take(parts@.len() as int) =~= all);
    Ok(out)
}

/// One entry of the `files` list.
fn read_file_entry(v: &BencodeElement) -> (r: Result<FileEntry, StructureError>)
    ensures
        structure_outcome(r) == spec_file_entry(v@),
{
    match v {
        BencodeElement::Dict(entry_dict) => {
            let length = get_required_int(entry_dict.map(), "length")?;
            match entry_dict.get(&ByteString::from("path")) {
                Some(BencodeElement::List(path_list)) => {
                    let path = read_path(path_list.deref_vec())?;
                    Ok(FileEntry { length: length as u64, path })
                },
                Some(_) => Err(StructureError::WrongType(text_string("path"))),
                None => Err(StructureError::RequiredKeyMissing(text_string("path"))),
            }
        },
        _ => Err(StructureError::WrongType(text_string("(file entry)"))),
    }
}

/// The entries of the `files` list.
fn read_files(list: &BencodeList) -> (r: Result<Vec<FileEntry>, StructureError>)
    ensures
        match r {
            Ok(fs) => spec_files(list@) == Ok::<_, StructureFailure>(
                fs@.map_values(|f: FileEntry| f@),
            ),
            Err(e) => spec_files(list@) == Err::<Seq<FileEntryModel>, _>(e@),
        },
{
    let ghost all = list@;
    let mut out: Vec<FileEntry> = Vec::new();
    let mut i: usize = 0;
    assert(all.take(0) =~= Seq::<Bencode>::empty());
    assert(out@.map_values(|f: FileEntry| f@) =~= Seq::<FileEntryModel>::empty());
    while i < list.len()
        invariant
            i <= all.len(),
            all == list@,
            spec_files(all.take(i as int)) == Ok::<_, StructureFailure>(
                out@.map_values(|f: FileEntry| f@),
            ),
        decreases all.len() - i,
    {
        let ghost t = all.take(i + 1);
        assert(t.drop_last() =~= all.take(i as int));
        assert(t.last() == all[i as int]);
        match read_file_entry(list.get(i)) {
            Ok(entry) => {
                let ghost before = out@;
                let ghost m = entry@;
                out.push(entry);
                assert(out@.map_values(|f: FileEntry| f@) =~= before.map_values(
                    |f: FileEntry| f@,
                ).push(m));
            },
            Err(e) => {
                proof {
                    lemma_files_prefix_err(all, i + 1);
                }
                return Err(e);
            },
        }
        i = i + 1;
    }
    assert(all.take(all.len() as int) =~= all);
    Ok(out)
}

impl Info {
    /// Reads an `info` dictionary.
    pub fn from_bencoded(info_dict: &BencodeDict) -> (r: Result<Self, StructureError>)
        ensures
            structure_outcome(r) == spec_info(info_dict@.0),
    {
        let d = info_dict.map();
        // either one or the other should be present
        if !d.contains_key(&ByteString::from("files")) && !d.contains_key(
            &ByteString::from("length"),
        ) {
            return Err(StructureError::RequiredKeyMissing(text_string("files/length")));
        }
        let name = get_required_text(d, "name")?;
        let file = match d.get(&ByteString::from("files")) {
            Some(BencodeElement::List(files_list)) => {
                let files = read_files(files_list)?;
                FileMode::MultipleFiles { files }
            },
            Some(_) => {
                return Err(StructureError::WrongType(text_string("files")));
            },
            None => {
                let length = get_required_int(d, "length")?;
                if length < 0 {
                    return Err(StructureError::NegativeLength);
                }
                FileMode::SingleFile { length: length as u64 }
            },
        };
        proof {
            assert(spec_file_mode(d@) == Ok::<_, StructureFailure>(file@));
        }
        let piece_length = get_required_int(d, "piece length")?;
        if piece_length < 0 {
            return Err(StructureError::NegativeLength);
        }
        let pieces_hashes = match d.get(&ByteString::from("pieces")) {
            Some(BencodeElement::String(bytes)) => {
                if bytes.len() % 20 != 0 {
                    return Err(StructureError::PiecesBytesLengthError);
                }
                split_hashes(bytes.bytes())
            },
            Some(_) => {
                return Err(StructureError::WrongType(text_string("pieces")));
            },
            None => {
                return Err(StructureError::RequiredKeyMissing(text_string("pieces")));
            },
        };
        Ok(Info { name, file, piece_length: piece_length as u32, pieces_hashes })
    }
}

/// The SHA-1 of the encoded form of a dictionary.
fn hash_info_dict(info_dict: &BencodeDict) -> (r: [u8; 20])
    requires
        info_dict@.1.valid(),
    ensures
        r@ == sha1_digest(info_dict@.1.slice()),
{
    let bytes = info_dict.original_bytes();
    sha1(bytes)
}

impl TorrentFile {
    /// Reads a torrent from the bytes of a .torrent file.
    pub fn from_bytes(bytes: Vec<u8>) -> (r: Result<Self, TorrentError>)
        ensures
            match r {
                Ok(t) => spec_torrent_bytes(bytes@) == Ok::<_, TorrentFailure>(t@),
                Err(e) => spec_torrent_bytes(bytes@) == Err::<TorrentModel, _>(e@),
            },
    {
        let mut parser = BencodeParser::new(rc_from_vec(bytes));
        let element = match parser.parse() {
            Ok(e) => e,
            Err(e) => {
                return Err(TorrentError::Parse(e));
            },
        };
        match element {
            BencodeElement::Dict(dict) => {
                proof {
                    let entries = dict@.0;
                    lemma_entries_wf(entries);
                    lemma_find_key_bounds(entries, key("info"@));
                    if let Some(i) = find_key(entries, key("info"@)) {
                        assert(spans_valid(entries[i].1));
                    }
                }
                match Self::from_bencoded(dict) {
                    Ok(t) => Ok(t),
                    Err(e) => Err(TorrentError::Structure(e)),
                }
            },
            _ => Err(TorrentError::Structure(StructureError::WrongType(text_string("(initial value)")))),
        }
    }

    /// Reads a torrent from its top-level dictionary.
    pub fn from_bencoded(dict: BencodeDict) -> (r: Result<Self, StructureError>)
        requires
            lookup(dict@.0, key("info"@)) matches Some(Bencode::Dict(_, span)) ==> span.valid(),
        ensures
            structure_outcome(r) == spec_torrent(dict@.0),
    {
        let d = dict.map();
        let announce = get_required_text(d, "announce")?;
        let (info, info_hash) = match d.get(&ByteString::from("info")) {
            Some(BencodeElement::Dict(info_dict)) => {
                let info = Info::from_bencoded(info_dict)?;
                let info_hash = hash_info_dict(info_dict);
                (info, info_hash)
            },
            Some(_) => {
                return Err(StructureError::WrongType(text_string("info")));
            },
            None => {
                return Err(StructureError::RequiredKeyMissing(text_string("info")));
            },
        };
        Self::with_info_hash(&dict, announce, info, info_hash)
    }

    /// Completes a torrent whose tracker, `info` and `info` hash are known:
    /// reads the optional comment, author and creation date of `dict`.
    pub fn with_info_hash(dict: &BencodeDict, announce: String, info: Info, info_hash: [u8; 20]) -> (r:
        Result<Self, StructureError>)
        ensures
            structure_outcome(r) == spec_torrent_rest(dict@.0, announce@, info@, info_hash@),
    {
        let d = dict.map();
        let comment = get_optional_text(d, "comment")?;
        let created_by = get_optional_text(d, "created by")?;
        let creation_date = match get_optional_int(d, "creation date")? {
            Some(x) => Some(x as u64),
            None => None,
        };
        Ok(TorrentFile { announce, info, info_hash, comment, created_by, creation_date })
    }
}

} // verus!
