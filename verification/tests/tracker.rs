use jigsaw::client::{generate_peer_id, peer_id_from, TorrentState, TorrentStatus};
use jigsaw::parser::Error;
use jigsaw::session::{refresh_period, SessionAction, SessionCommand, SessionEvent, SessionState, SessionStatus};
use jigsaw::tracker::{announce_url, percent_encode, refresh_url, AnnounceError, AnnouceResponse, Peer};
use jigsaw::DecodeError;

#[test]
fn reads_interval_and_compact_peers() {
    let body = b"d8:intervali1800e5:peers12:\x7f\x00\x00\x01\x1a\xe1\x0a\x00\x00\x02\x00\x50e".to_vec();
    let response = AnnouceResponse::from_bytes(body).unwrap();
    assert_eq!(response.interval, 1800);
    assert_eq!(
        response.peers,
        vec![Peer { ip: [127, 0, 0, 1], port: 6881 }, Peer { ip: [10, 0, 0, 2], port: 80 }]
    );
}

#[test]
fn leftover_peer_bytes_are_ignored() {
    let body = b"d8:intervali5e5:peers8:\x01\x02\x03\x04\x00\x01\xff\xffe".to_vec();
    let response = AnnouceResponse::from_bytes(body).unwrap();
    assert_eq!(response.peers, vec![Peer { ip: [1, 2, 3, 4], port: 1 }]);
}

#[test]
fn failure_reason_is_reported() {
    let body = b"d14:failure reason4:nopee".to_vec();
    assert!(matches!(AnnouceResponse::from_bytes(body), Err(AnnounceError::Failed(r)) if r == "nope"));
}

#[test]
fn missing_fields_are_decode_errors() {
    let body = b"d5:peers0:e".to_vec();
    assert!(matches!(
        AnnouceResponse::from_bytes(body),
        Err(AnnounceError::Decode(DecodeError::RequiredKeyMissing(k))) if k == "interval"
    ));
    let body = b"d8:interval1:xe".to_vec();
    assert!(matches!(
        AnnouceResponse::from_bytes(body),
        Err(AnnounceError::Decode(DecodeError::WrongType(k))) if k == "interval"
    ));
}

#[test]
fn malformed_body_is_a_parse_error() {
    assert!(matches!(AnnouceResponse::from_bytes(b"d8:interval".to_vec()), Err(AnnounceError::Parse(Error::UnexpectedEOF))));
}

#[test]
fn percent_encoding_keeps_unreserved_bytes() {
    assert_eq!(percent_encode(b"aZ09-._~"), "aZ09-._~");
    assert_eq!(percent_encode(b" /\x00\xff"), "%20%2F%00%FF");
}

#[test]
fn announce_url_carries_the_query() {
    let info_hash = [b'a'; 20];
    let mut peer_id = [0xffu8; 20];
    peer_id[..8].copy_from_slice(b"-JS001d-");
    let url = announce_url("http://t/announce", &info_hash, &peer_id, 6881, 100);
    assert_eq!(
        url,
        format!(
            "http://t/announce?info_hash={}&peer_id=-JS001d-{}&port=6881&uploaded=0&downloaded=0&left=100&compact=1&event=started",
            "a".repeat(20),
            "%FF".repeat(12)
        )
    );
}

#[test]
fn peer_id_has_client_prefix() {
    let id = generate_peer_id();
    assert_eq!(&id[..8], b"-JS001d-");
}

#[test]
fn new_states_start_with_nothing_transferred() {
    let peers = vec![Peer { ip: [1, 1, 1, 1], port: 1 }];
    let t = TorrentState::new(peers.clone(), 500);
    assert_eq!(t.status, TorrentStatus::Starting);
    assert_eq!(t.bytes_left, 500);
    assert_eq!((t.bytes_uploaded, t.bytes_downloaded), (0, 0));
    let s = SessionState::new(peers.clone(), 7);
    assert_eq!(s.status, SessionStatus::Starting);
    assert_eq!(s.peers, peers);
    assert_eq!(s.bytes_left, 7);
}

#[test]
fn session_loop_decisions() {
    let mut s = SessionState::new(vec![], 10);
    assert_eq!(
        s.handle(SessionEvent::Tick),
        SessionAction::Announce { uploaded: 0, downloaded: 0, left: 10 }
    );
    let peers = vec![Peer { ip: [9, 9, 9, 9], port: 99 }];
    assert_eq!(s.handle(SessionEvent::Announced(peers.clone())), SessionAction::Continue);
    assert_eq!(s.peers, peers);
    assert_eq!(s.handle(SessionEvent::AnnounceFailed), SessionAction::Continue);
    assert_eq!(s.peers, peers);
    assert_eq!(s.handle(SessionEvent::Command(SessionCommand::Stop)), SessionAction::Stop);

    let mut t = TorrentState::new(vec![], 3);
    assert_eq!(t.handle(SessionEvent::Tick), SessionAction::Announce { uploaded: 0, downloaded: 0, left: 3 });
    assert_eq!(t.handle(SessionEvent::Command(SessionCommand::Stop)), SessionAction::Stop);
}

#[test]
fn peer_id_is_prefix_then_drawn_bytes() {
    let tail = [1u8, 2, 3, 4, 5, 6, 7, 8, 9, 10, 11, 12];
    let id = peer_id_from(tail);
    assert_eq!(&id[..8], b"-JS001d-");
    assert_eq!(&id[8..], &tail);
}

#[test]
fn refresh_url_carries_the_counters() {
    let info_hash = [b'a'; 20];
    let peer_id = peer_id_from([b'z'; 12]);
    let url = refresh_url("http://t/announce", &info_hash, &peer_id, 6881, 5, 17, 100);
    assert_eq!(
        url,
        format!(
            "http://t/announce?info_hash={}&peer_id=-JS001d-{}&port=6881&uploaded=5&downloaded=17&left=100&compact=1",
            "a".repeat(20),
            "z".repeat(12)
        )
    );
}

#[test]
fn zero_interval_has_no_refresh_period() {
    assert_eq!(refresh_period(0), None);
    assert_eq!(refresh_period(1800), Some(1800));
}
