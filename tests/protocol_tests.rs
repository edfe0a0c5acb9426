use librtorrent::handshake::{Handshake, HandshakeErr};
use librtorrent::message::{Message, MessageErr, MessageId};

#[test]
fn conversion() {
    let info_hash = [
        1, 2, 3, 4, 5, 6, 7, 8, 9, 10, 11, 12, 13, 14, 15, 16, 17, 18, 19, 20,
    ];

    let peer_id = [
        1, 2, 3, 4, 5, 6, 7, 8, 9, 10, 11, 12, 13, 14, 15, 16, 17, 18, 19, 20,
    ];
    let hs = Handshake::new(info_hash, peer_id);
    let ab = hs.to_bytes();
    let hs2 = Handshake::from_bytes(&ab.to_vec()).unwrap();

    assert_eq!(hs, hs2);
}

#[test]
fn handshake_layout() {
    let info_hash = [7u8; 20];
    let peer_id = [9u8; 20];
    let bytes = Handshake::new(info_hash, peer_id).to_bytes();
    assert_eq!(bytes.len(), 68);
    assert_eq!(bytes[0], 19);
    assert_eq!(&bytes[1..20], b"BitTorrent protocol");
    assert_eq!(&bytes[20..28], &[0u8; 8]);
    assert_eq!(&bytes[28..48], &info_hash);
    assert_eq!(&bytes[48..68], &peer_id);
}

#[test]
fn handshake_wrong_size() {
    assert_eq!(Handshake::from_bytes(&[0u8; 67]), Err(HandshakeErr::InvalidSize));
    assert_eq!(Handshake::from_bytes(&[0u8; 69]), Err(HandshakeErr::InvalidSize));
}

#[test]
fn handshake_validity() {
    let ours = Handshake::new([1u8; 20], [0u8; 20]);
    let same_torrent = Handshake::new([1u8; 20], [5u8; 20]);
    let other_torrent = Handshake::new([2u8; 20], [0u8; 20]);
    assert!(ours.is_valid(&same_torrent));
    assert!(!ours.is_valid(&other_torrent));
    let mut other_protocol = same_torrent;
    other_protocol.protocol[0] = b'X';
    assert!(!ours.is_valid(&other_protocol));
}

#[test]
fn message_deserialize_success() {
    let bytes = [0, 0, 0, 5, 5, 1, 1, 1, 1];
    let message = Message::from_bytes(&bytes).unwrap();
    assert_eq!(
        message,
        Message::Bitfield {
            bitfield: vec![1, 1, 1, 1]
        }
    );
}

#[test]
fn message_serialize_success() {
    let message = Message::Bitfield {
        bitfield: vec![1, 1, 1, 1],
    };

    let serialized = message.to_bytes();
    let expected = vec![0, 0, 0, 5, 5, 1, 1, 1, 1];
    assert_eq!(serialized, expected);
}

#[test]
fn message_round_trips() {
    let messages = vec![
        Message::KeepAlive,
        Message::Choke,
        Message::Unchoke,
        Message::Interested,
        Message::NotInterested,
        Message::Have { index: 0x01020304 },
        Message::Bitfield { bitfield: vec![0xff, 0x80] },
        Message::Bitfield { bitfield: vec![] },
        Message::Request { index: 1, begin: 16384, length: 16384 },
        Message::Piece { index: 3, begin: 0, block: vec![1, 2, 3] },
        Message::Piece { index: 3, begin: 0, block: vec![] },
        Message::Cancel { index: u32::MAX, begin: 7, length: 9 },
        Message::Port { port: 6881 },
    ];
    for m in messages {
        let bytes = m.to_bytes();
        assert_eq!(Message::from_bytes(&bytes).unwrap(), m);
    }
}

#[test]
fn message_exact_frames() {
    assert_eq!(Message::KeepAlive.to_bytes(), vec![0, 0, 0, 0]);
    assert_eq!(Message::Interested.to_bytes(), vec![0, 0, 0, 1, 2]);
    assert_eq!(Message::Have { index: 258 }.to_bytes(), vec![0, 0, 0, 5, 4, 0, 0, 1, 2]);
    assert_eq!(
        Message::Request { index: 1, begin: 2, length: 3 }.to_bytes(),
        vec![0, 0, 0, 13, 6, 0, 0, 0, 1, 0, 0, 0, 2, 0, 0, 0, 3]
    );
    assert_eq!(Message::Port { port: 0x1ae1 }.to_bytes(), vec![0, 0, 0, 3, 9, 0x1a, 0xe1]);
    assert_eq!(Message::payload_length([0, 0, 1, 2]), 258);
}

#[test]
fn message_errors() {
    assert!(matches!(Message::from_bytes(&[0, 0, 1]), Err(MessageErr::InvalidMessageLength)));
    assert!(matches!(Message::from_bytes(&[0, 0, 0, 1]), Err(MessageErr::InvalidMessageLength)));
    assert!(matches!(Message::from_bytes(&[0, 0, 0, 1, 10]), Err(MessageErr::InvalidMessageId)));
    assert!(matches!(Message::from_bytes(&[0, 0, 0, 5, 4, 0]), Err(MessageErr::InvalidMessageLength)));
    assert!(matches!(Message::from_bytes(&[0, 0, 0, 1, 4]), Err(MessageErr::MissingPayload)));
    assert!(matches!(Message::from_bytes(&[0, 0, 0, 2, 0, 9]), Err(MessageErr::InvalidPayload)));
    assert!(matches!(Message::from_bytes(&[0, 0, 0, 3, 4, 0, 0]), Err(MessageErr::InvalidPayload)));
    assert!(matches!(Message::from_bytes(&[0, 0, 0, 2, 9, 1]), Err(MessageErr::InvalidPayload)));
}

#[test]
fn empty_bitfield_frame() {
    assert_eq!(Message::Bitfield { bitfield: vec![] }.to_bytes(), vec![0, 0, 0, 1, 5]);
    assert_eq!(
        Message::from_bytes(&[0, 0, 0, 1, 5]).unwrap(),
        Message::Bitfield { bitfield: vec![] }
    );
}

#[test]
fn message_ids() {
    assert_eq!(MessageId::try_from(7).unwrap(), MessageId::Piece);
    assert_eq!(MessageId::Port.code(), 9);
    assert!(matches!(MessageId::try_from(10), Err(MessageErr::InvalidMessageId)));
}
