//! The client side: its peer id and the state it keeps for a torrent.
use vstd::prelude::*;

pub use crate::session::SessionCommand;
use crate::session::{SessionAction, SessionEvent};
use crate::tracker::Peer;

verus! {

/// Where a torrent stands.
#[derive(Debug, Default, Clone, Copy, PartialEq, Eq)]
pub enum TorrentStatus {
    #[default]
    Starting,
    Downloading,
    Stopped,
}

/// The state kept for a torrent: its peers and its transfer counters.
#[derive(Debug)]
pub struct TorrentState {
    pub status: TorrentStatus,
    pub peers: Vec<Peer>,
    pub bytes_uploaded: u64,
    pub bytes_downloaded: u64,
    pub bytes_left: u64,
}

impl TorrentState {
    /// A torrent that is starting, with the first peers and `total_size`
    /// bytes left to fetch.
    pub fn new(peers: Vec<Peer>, total_size: u64) -> (r: Self)
        ensures
            r.status == TorrentStatus::Starting,
            r.peers@ == peers@,
            r.bytes_uploaded == 0,
            r.bytes_downloaded == 0,
            r.bytes_left == total_size,
    {
        TorrentState {
            status: TorrentStatus::Starting,
            peers,
            bytes_uploaded: 0,
            bytes_downloaded: 0,
            bytes_left: total_size,
        }
    }

    /// Decides what to do on an event: a tick asks for an announce with the
    /// current counters, an answer replaces the peers, a failed announce
    /// changes nothing, and `Stop` ends the session.
    pub fn handle(&mut self, event: SessionEvent) -> (r: SessionAction)
        ensures
            final(self).status == old(self).status,
            final(self).bytes_uploaded == old(self).bytes_uploaded,
            final(self).bytes_downloaded == old(self).bytes_downloaded,
            final(self).bytes_left == old(self).bytes_left,
            match event {
                SessionEvent::Tick => r == (SessionAction::Announce {
                    uploaded: old(self).bytes_uploaded,
                    downloaded: old(self).bytes_downloaded,
                    left: old(self).bytes_left,
                }) && final(self).peers@ == old(self).peers@,
                SessionEvent::Announced(p) => r == SessionAction::Continue && final(self).peers@
                    == p@,
                SessionEvent::AnnounceFailed => r == SessionAction::Continue && final(self).peers@
                    == old(self).peers@,
                SessionEvent::Command(SessionCommand::Stop) => r == SessionAction::Stop
                    && final(self).peers@ == old(self).peers@,
            },
    {
        match event {
            SessionEvent::Tick => SessionAction::Announce {
                uploaded: self.bytes_uploaded,
                downloaded: self.bytes_downloaded,
                left: self.bytes_left,
            },
            SessionEvent::Announced(peers) => {
                self.peers = peers;
                SessionAction::Continue
            },
            SessionEvent::AnnounceFailed => SessionAction::Continue,
            SessionEvent::Command(SessionCommand::Stop) => SessionAction::Stop,
        }
    }
}

/// The client's name in peer ids.
pub open spec fn client_prefix() -> Seq<u8> {
    seq![45u8, 74u8, 83u8, 48u8, 48u8, 49u8, 100u8, 45u8]
}

/// `rand::fill`: twelve bytes from the thread's random generator.
#[verifier::external_body]
fn random_bytes() -> (r: [u8; 12]) {
    let mut bytes = [0u8; 12];
    rand::fill(&mut bytes);
    bytes
}

/// A peer id: "-JS001d-" (dash, client id, version, dash) followed by
/// the twelve bytes of `tail`.
pub fn peer_id_from(tail: [u8; 12]) -> (r: [u8; 20])
    ensures
        r@ == client_prefix() + tail@,
{
    let mut peer_id = [0u8; 20];
    peer_id[0] = 45;
    peer_id[1] = 74;
    peer_id[2] = 83;
    peer_id[3] = 48;
    peer_id[4] = 48;
    peer_id[5] = 49;
    peer_id[6] = 100;
    peer_id[7] = 45;
    let mut i: usize = 0;
    while i < 12
        invariant
            i <= 12,
            peer_id@.len() == 20,
            peer_id@.subrange(0, 8) == client_prefix(),
            forall|j: int| 0 <= j < i ==> peer_id@[8 + j] == tail@[j],
        decreases 12 - i,
    {
        peer_id[8 + i] = tail[i];
        i = i + 1;
        assert(peer_id@.subrange(0, 8) =~= client_prefix());
    }
    assert(peer_id@ =~= client_prefix() + tail@);
    peer_id
}

/// A fresh peer id: "-JS001d-" followed by twelve random bytes.
pub fn generate_peer_id() -> (r: [u8; 20])
    ensures
        r@.subrange(0, 8) == client_prefix(),
{
    let tail = random_bytes();
    let r = peer_id_from(tail);
    assert(r@.subrange(0, 8) =~= client_prefix());
    r
}

} // verus!
