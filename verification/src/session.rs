//! The state of a download session and the decisions of its loop: what to
//! do on a timer tick, on a tracker answer and on a command.
use vstd::prelude::*;

use crate::tracker::Peer;

verus! {

/// Where a session stands.
#[derive(Debug, Default, Clone, Copy, PartialEq, Eq)]
pub enum SessionStatus {
    #[default]
    Starting,
    Downloading,
    Stopped,
}

/// A command sent to a running session.
#[derive(Debug, Clone, Copy, PartialEq, Eq)]
pub enum SessionCommand {
    Stop,
}

/// The state of a session: its peers and its transfer counters.
#[derive(Debug)]
pub struct SessionState {
    pub status: SessionStatus,
    pub peers: Vec<Peer>,
    pub bytes_uploaded: u64,
    pub bytes_downloaded: u64,
    pub bytes_left: u64,
}

/// What happened to a session.
pub enum SessionEvent {
    /// The announce interval elapsed.
    Tick,
    /// The tracker answered with these peers.
    Announced(Vec<Peer>),
    /// The tracker could not be reached or refused.
    AnnounceFailed,
    /// A command arrived.
    Command(SessionCommand),
}

/// What the session loop does next.
#[derive(Debug, Clone, Copy, PartialEq, Eq)]
pub enum SessionAction {
    /// Announce again with these counters.
    Announce { uploaded: u64, downloaded: u64, left: u64 },
    /// Wait for the next event.
    Continue,
    /// End the session.
    Stop,
}

impl SessionState {
    /// A session that is starting, with the first peers and `total_size`
    /// bytes left to fetch.
    pub fn new(peers: Vec<Peer>, total_size: u64) -> (r: Self)
        ensures
            r.status == SessionStatus::Starting,
            r.peers@ == peers@,
            r.bytes_uploaded == 0,
            r.bytes_downloaded == 0,
            r.bytes_left == total_size,
    {
        SessionState {
            status: SessionStatus::Starting,
            peers,
            bytes_uploaded: 0,
            bytes_downloaded: 0,
            bytes_left: total_size,
        }
    }

    /// Decides what to do on an event: a tick asks for an announce with the
    /// current counters, an answer replaces the peers, a failed announce
    /// changes nothing, and `Stop` ends the session.
    pub fn handle(&mut self, event: SessionEvent) -> (r: SessionAction)
        ensures
            final(self).status == old(self).status,
            final(self).bytes_uploaded == old(self).bytes_uploaded,
            final(self).bytes_downloaded == old(self).bytes_downloaded,
            final(self).bytes_left == old(self).bytes_left,
            match event {
                SessionEvent::Tick => r == (SessionAction::Announce {
                    uploaded: old(self).bytes_uploaded,
                    downloaded: old(self).bytes_downloaded,
                    left: old(self).bytes_left,
                }) && final(self).peers@ == old(self).peers@,
                SessionEvent::Announced(p) => r == SessionAction::Continue && final(self).peers@
                    == p@,
                SessionEvent::AnnounceFailed => r == SessionAction::Continue && final(self).peers@
                    == old(self).peers@,
                SessionEvent::Command(SessionCommand::Stop) => r == SessionAction::Stop
                    && final(self).peers@ == old(self).peers@,
            },
    {
        match event {
            SessionEvent::Tick => SessionAction::Announce {
                uploaded: self.bytes_uploaded,
                downloaded: self.bytes_downloaded,
                left: self.bytes_left,
            },
            SessionEvent::Announced(peers) => {
                self.peers = peers;
                SessionAction::Continue
            },
            SessionEvent::AnnounceFailed => SessionAction::Continue,
            SessionEvent::Command(SessionCommand::Stop) => SessionAction::Stop,
        }
    }
}

/// The period, in seconds, of the timer that paces regular announces: the
/// interval the tracker asked for. A zero interval gives no period, since no
/// timer ticks every zero seconds.
pub fn refresh_period(interval: u64) -> (r: Option<u64>)
    ensures
        r == (if interval == 0 {
            None::<u64>
        } else {
            Some(interval)
        }),
{
    if interval == 0 {
        None
    } else {
        Some(interval)
    }
}

} // verus!
