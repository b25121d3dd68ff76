//! A BitTorrent library: bencode reading, torrent metainfo, tracker
//! responses and the decisions of a download session.
pub mod client;
pub mod parser;
pub mod session;
pub mod text;
pub mod torrentfile;
pub mod tracker;
pub mod types;

use vstd::prelude::*;

verus! {

/// Why a value taken from a bencode dictionary is not the one expected.
#[derive(Debug)]
pub enum DecodeError {
    WrongType(String),
    RequiredKeyMissing(String),
}

/// The model of a `DecodeError`.
pub enum DecodeFailure {
    WrongType(Seq<char>),
    RequiredKeyMissing(Seq<char>),
}

impl View for DecodeError {
    type V = DecodeFailure;

    open spec fn view(&self) -> DecodeFailure {
        match self {
            DecodeError::WrongType(s) => DecodeFailure::WrongType(s@),
            DecodeError::RequiredKeyMissing(s) => DecodeFailure::RequiredKeyMissing(s@),
        }
    }
}

} // verus!
