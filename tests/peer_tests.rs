use librtorrent::handshake::Handshake;
use librtorrent::message::Message;
use librtorrent::meta_info::{FileLayout, MetaInfo, TorrentInfo};
use librtorrent::peer::{ConnectionErr, Peer, PeerAction, PeerEvent, PeerPhase, PeerState};
use librtorrent::piece_manager::PieceManager;
use sha1::{Digest, Sha1};

fn manager(pieces: &[Vec<u8>], piece_length: i64, hash: [u8; 20]) -> PieceManager {
    let mut hashes = Vec::new();
    for p in pieces {
        let d: [u8; 20] = Sha1::digest(p).into();
        hashes.extend_from_slice(&d);
    }
    let meta = MetaInfo {
        announce: None,
        nodes: None,
        url_list: None,
        announce_list: None,
        hash,
        info: TorrentInfo {
            name: "t".to_string(),
            piece_length,
            pieces: hashes,
            file_layout: FileLayout::SingleFile { length: piece_length * pieces.len() as i64 },
            private: None,
        },
    };
    PieceManager::new(&meta)
}

fn peer() -> Peer {
    Peer::new(None, "127.0.0.1".to_string(), 6881)
}

#[test]
fn worker_downloads_a_piece_in_blocks() {
    let piece: Vec<u8> = (0..20000u32).map(|i| (i % 251) as u8).collect();
    let mut pm = manager(&[piece.clone()], 20000, [3u8; 20]);
    let mut p = peer();

    let local = match p.step(&mut pm, PeerEvent::Connected) {
        PeerAction::SendHandshake(h) => h,
        other => panic!("unexpected {:?}", other),
    };
    assert_eq!(local.info_hash, [3u8; 20]);
    assert_eq!(local.peer_id, [0u8; 20]);

    let remote = Handshake::new([3u8; 20], [8u8; 20]);
    match p.step(&mut pm, PeerEvent::HandshakeReceived(remote)) {
        PeerAction::Send(Message::Bitfield { bitfield }) => assert_eq!(bitfield, vec![0]),
        other => panic!("unexpected {:?}", other),
    }
    assert_eq!(p.my_state, PeerState::Choked);

    match p.step(&mut pm, PeerEvent::MessageReceived(Message::Bitfield { bitfield: vec![0x80] })) {
        PeerAction::Send(Message::Interested) => {}
        other => panic!("unexpected {:?}", other),
    }
    assert!(matches!(p.step(&mut pm, PeerEvent::MessageReceived(Message::KeepAlive)), PeerAction::Receive));
    match p.step(&mut pm, PeerEvent::MessageReceived(Message::Unchoke)) {
        PeerAction::Send(Message::Request { index, begin, length }) => {
            assert_eq!((index, begin, length), (0, 0, 16384));
        }
        other => panic!("unexpected {:?}", other),
    }
    match p.step(&mut pm, PeerEvent::MessageReceived(Message::Piece { index: 0, begin: 0, block: piece[..16384].to_vec() })) {
        PeerAction::Send(Message::Request { index, begin, length }) => {
            assert_eq!((index, begin, length), (0, 16384, 20000 - 16384));
        }
        other => panic!("unexpected {:?}", other),
    }
    match p.step(&mut pm, PeerEvent::MessageReceived(Message::Piece { index: 0, begin: 16384, block: piece[16384..].to_vec() })) {
        PeerAction::Finish => {}
        other => panic!("unexpected {:?}", other),
    }
    assert_eq!(pm.get_bitfield(), vec![0x80]);
    assert!(matches!(p.phase, PeerPhase::Finished));
}

#[test]
fn worker_rejects_foreign_handshake() {
    let mut pm = manager(&[vec![1, 2]], 2, [3u8; 20]);
    let mut p = peer();
    p.step(&mut pm, PeerEvent::Connected);
    let remote = Handshake::new([4u8; 20], [8u8; 20]);
    assert!(matches!(
        p.step(&mut pm, PeerEvent::HandshakeReceived(remote)),
        PeerAction::Fail(ConnectionErr::InvalidHandshake)
    ));
}

#[test]
fn worker_releases_piece_on_disconnect() {
    let mut pm = manager(&[vec![1, 2]], 2, [3u8; 20]);
    let mut p = peer();
    p.step(&mut pm, PeerEvent::Connected);
    p.step(&mut pm, PeerEvent::HandshakeReceived(Handshake::new([3u8; 20], [0u8; 20])));
    p.step(&mut pm, PeerEvent::MessageReceived(Message::Bitfield { bitfield: vec![0x80] }));
    assert_eq!(pm.get_next_piece(&[0x80]), None);
    assert!(matches!(p.step(&mut pm, PeerEvent::Disconnected), PeerAction::Finish));
    assert_eq!(pm.get_next_piece(&[0x80]), Some(0));
}

#[test]
fn worker_fails_on_unexpected_reply() {
    let mut pm = manager(&[vec![1, 2]], 2, [3u8; 20]);
    let mut p = peer();
    p.step(&mut pm, PeerEvent::Connected);
    p.step(&mut pm, PeerEvent::HandshakeReceived(Handshake::new([3u8; 20], [0u8; 20])));
    assert!(matches!(
        p.step(&mut pm, PeerEvent::MessageReceived(Message::Choke)),
        PeerAction::Fail(ConnectionErr::UnexpectedMessage(_))
    ));
}

#[test]
fn worker_finishes_when_peer_has_nothing() {
    let mut pm = manager(&[vec![1, 2]], 2, [3u8; 20]);
    let mut p = peer();
    p.step(&mut pm, PeerEvent::Connected);
    p.step(&mut pm, PeerEvent::HandshakeReceived(Handshake::new([3u8; 20], [0u8; 20])));
    assert!(matches!(
        p.step(&mut pm, PeerEvent::MessageReceived(Message::Bitfield { bitfield: vec![0] })),
        PeerAction::Finish
    ));
}
