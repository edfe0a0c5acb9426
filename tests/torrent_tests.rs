use librtorrent::bencode::{encode, BencodeMap, BencodeMapDecoder, BencodeType};
use librtorrent::meta_info::{FileLayout, FromBencodeTypeErr, MetaInfo, TorrentInfo};
use librtorrent::peer::{Peer, PeerState};
use librtorrent::peer_manager::{peers_from_response, PeerManagerError, DEFAULT_INTERVAL};
use librtorrent::piece_manager::{PieceManager, SAVE_BYTES_THRESHOLD};
use librtorrent::torrent::{is_torrent_file, parse_torrent, TorrentErr};
use librtorrent::tracker::{
    construct_get_url, parse_announce_response, GetRequest, GetResponse, TrackerErr, TrackerEvent,
};
use sha1::{Digest, Sha1};

fn sha1(bytes: &[u8]) -> [u8; 20] {
    Sha1::digest(bytes).into()
}

fn bstr(s: &[u8]) -> Vec<u8> {
    let mut out = s.len().to_string().into_bytes();
    out.push(b':');
    out.extend_from_slice(s);
    out
}

/// A single-file torrent whose pieces are `pieces`, each `piece_length` long but the last.
fn meta_for(pieces: &[Vec<u8>], piece_length: i64) -> MetaInfo {
    let mut hashes = Vec::new();
    let mut total = 0i64;
    for p in pieces {
        hashes.extend_from_slice(&sha1(p));
        total += p.len() as i64;
    }
    MetaInfo {
        announce: Some("http://tracker.example/announce".to_string()),
        nodes: None,
        url_list: None,
        announce_list: None,
        hash: [0u8; 20],
        info: TorrentInfo {
            name: "test".to_string(),
            piece_length,
            pieces: hashes,
            file_layout: FileLayout::SingleFile { length: total },
            private: None,
        },
    }
}

fn eight_pieces() -> (MetaInfo, Vec<Vec<u8>>) {
    let pieces: Vec<Vec<u8>> = (0u8..8).map(|i| vec![i; 4]).collect();
    (meta_for(&pieces, 4), pieces)
}

fn info_bytes() -> Vec<u8> {
    let mut info = b"d".to_vec();
    info.extend(bstr(b"length"));
    info.extend(b"i12e");
    info.extend(bstr(b"name"));
    info.extend(bstr(b"file"));
    info.extend(bstr(b"piece length"));
    info.extend(b"i4e");
    info.extend(bstr(b"pieces"));
    info.extend(bstr(&[7u8; 60]));
    info.push(b'e');
    info
}

fn torrent_bytes() -> Vec<u8> {
    let mut t = b"d".to_vec();
    t.extend(bstr(b"announce"));
    t.extend(bstr(b"http://tracker.example/announce"));
    t.extend(bstr(b"info"));
    t.extend(info_bytes());
    t.push(b'e');
    t
}

#[test]
fn test_get_next_piece_index_0() {
    let (meta_info, _) = eight_pieces();
    let mut piece_manager = PieceManager::new(&meta_info);
    let bitfield = vec![0b10000000];
    assert_eq!(piece_manager.get_next_piece(&bitfield), Some(0));
}

#[test]
fn test_get_next_piece_index_7() {
    let (meta_info, _) = eight_pieces();
    let mut piece_manager = PieceManager::new(&meta_info);
    let bitfield = vec![0b00000001];
    assert_eq!(piece_manager.get_next_piece(&bitfield), Some(7));
}

#[test]
fn test_get_next_piece_mutliple_pieces() {
    let (meta_info, _) = eight_pieces();
    let mut piece_manager = PieceManager::new(&meta_info);
    let bitfield = vec![0b00000011];
    assert_eq!(piece_manager.get_next_piece(&bitfield), Some(6));
    assert_eq!(piece_manager.get_next_piece(&bitfield), Some(7));
}

#[test]
fn three_pieces_handed_out_once_each() {
    let pieces: Vec<Vec<u8>> = (0u8..3).map(|i| vec![i; 4]).collect();
    let mut pm = PieceManager::new(&meta_for(&pieces, 4));
    let theirs = vec![0b11100000];
    let a = pm.get_next_piece(&theirs).unwrap();
    let b = pm.get_next_piece(&theirs).unwrap();
    assert_ne!(a, b);
    let c = pm.get_next_piece(&theirs).unwrap();
    let mut got = vec![a, b, c];
    got.sort();
    assert_eq!(got, vec![0, 1, 2]);
    assert_eq!(pm.get_next_piece(&theirs), None);
}

#[test]
fn spare_bits_are_not_pieces() {
    let pieces: Vec<Vec<u8>> = (0u8..3).map(|i| vec![i; 4]).collect();
    let mut pm = PieceManager::new(&meta_for(&pieces, 4));
    assert_eq!(pm.get_next_piece(&[0b00011111]), None);
    assert_eq!(pm.get_next_piece(&[]), None);
}

#[test]
fn added_piece_sets_bit_and_is_not_offered() {
    let (meta_info, pieces) = eight_pieces();
    let mut pm = PieceManager::new(&meta_info);
    assert_eq!(pm.get_bitfield(), vec![0]);
    assert_eq!(pm.get_next_piece(&[0xff]), Some(0));
    assert!(pm.add_piece(0, pieces[0].clone()));
    assert_eq!(pm.get_bitfield(), vec![0b10000000]);
    assert_eq!(pm.get_next_piece(&[0b10000000]), None);
    assert_eq!(pm.get_next_piece(&[0xff]), Some(1));
}

#[test]
fn corrupt_piece_is_released() {
    let (meta_info, _) = eight_pieces();
    let mut pm = PieceManager::new(&meta_info);
    assert_eq!(pm.get_next_piece(&[0b01000000]), Some(1));
    assert!(!pm.add_piece(1, vec![9, 9, 9, 9]));
    assert_eq!(pm.get_bitfield(), vec![0]);
    assert_eq!(pm.get_next_piece(&[0b01000000]), Some(1));
}

#[test]
fn add_piece_out_of_range() {
    let (meta_info, pieces) = eight_pieces();
    let mut pm = PieceManager::new(&meta_info);
    assert!(!pm.add_piece(8, pieces[0].clone()));
}

#[test]
fn cancel_releases_only_pieces_in_progress() {
    let (meta_info, pieces) = eight_pieces();
    let mut pm = PieceManager::new(&meta_info);
    assert_eq!(pm.get_next_piece(&[0b11000000]), Some(0));
    assert_eq!(pm.get_next_piece(&[0b11000000]), Some(1));
    assert!(pm.add_piece(1, pieces[1].clone()));
    pm.cancel_piece(0);
    pm.cancel_piece(1);
    assert_eq!(pm.get_bitfield(), vec![0b01000000]);
    assert_eq!(pm.get_next_piece(&[0b11000000]), Some(0));
}

#[test]
fn flush_plan_and_restore() {
    let (meta_info, pieces) = eight_pieces();
    let mut pm = PieceManager::new(&meta_info);
    assert_eq!(pm.get_next_piece(&[0b00100000]), Some(2));
    assert!(pm.add_piece(2, pieces[2].clone()));
    assert!(!pm.should_save());
    let writes = pm.pending_writes();
    assert_eq!(writes.len(), 1);
    assert_eq!(writes[0].index, 2);
    assert_eq!(writes[0].offset, 8);
    assert_eq!(writes[0].bytes, pieces[2]);
    assert_eq!(sha1(&writes[0].bytes).to_vec(), meta_info.info.get_piece_hash(2).unwrap().to_vec());
    pm.mark_on_disk(2);
    assert!(pm.pending_writes().is_empty());
    assert_eq!(pm.get_bitfield(), vec![0b00100000]);

    let mut resumed = PieceManager::new(&meta_info);
    assert!(resumed.restore_piece(2, &pieces[2]));
    assert!(!resumed.restore_piece(3, &pieces[2]));
    assert_eq!(resumed.get_bitfield(), vec![0b00100000]);
    assert_eq!(resumed.get_next_piece(&[0b00100000]), None);
}

#[test]
fn save_when_all_pieces_held() {
    let pieces: Vec<Vec<u8>> = vec![vec![1; 4]];
    let mut pm = PieceManager::new(&meta_for(&pieces, 4));
    assert!(!pm.should_save());
    assert!(pm.add_piece(0, pieces[0].clone()));
    assert!(pm.should_save());
}

#[test]
fn save_when_threshold_reached() {
    let big = vec![3u8; SAVE_BYTES_THRESHOLD];
    let pieces = vec![big.clone(), vec![4u8; 10]];
    let mut pm = PieceManager::new(&meta_for(&pieces, SAVE_BYTES_THRESHOLD as i64));
    assert!(pm.add_piece(0, big));
    assert!(pm.should_save());
}

#[test]
fn piece_validity() {
    let (meta_info, pieces) = eight_pieces();
    let pm = PieceManager::new(&meta_info);
    assert!(pm.is_piece_valid(3, &pieces[3]));
    assert!(!pm.is_piece_valid(3, &pieces[4]));
    assert!(!pm.is_piece_valid(99, &pieces[3]));
    assert_eq!(pm.get_piece_length(), 4);
    assert_eq!(pm.piece_count(), 8);
    assert_eq!(pm.get_torrent_hash(), &[0u8; 20]);
}

#[test]
fn metainfo_hash_is_sha1_of_canonical_info() {
    let meta = parse_torrent(&torrent_bytes(), "a.torrent").unwrap();
    assert_eq!(meta.hash, sha1(&info_bytes()));
    assert_eq!(meta.info.name, "file");
    assert_eq!(meta.info.piece_length, 4);
    assert!(matches!(meta.info.file_layout, FileLayout::SingleFile { length: 12 }));
    assert_eq!(meta.info.get_piece_hashes().len(), 3);
    assert_eq!(meta.info.get_piece_hash(2), Some([7u8; 20]));
    assert_eq!(meta.info.get_piece_hash(3), None);
    assert_eq!(meta.announce.as_deref(), Some("http://tracker.example/announce"));
}

#[test]
fn metainfo_hash_uses_sorted_keys() {
    // the same info dictionary with its keys out of order hashes as its canonical form
    let mut info = b"d".to_vec();
    info.extend(bstr(b"pieces"));
    info.extend(bstr(&[7u8; 60]));
    info.extend(bstr(b"name"));
    info.extend(bstr(b"file"));
    info.extend(bstr(b"length"));
    info.extend(b"i12e");
    info.extend(bstr(b"piece length"));
    info.extend(b"i4e");
    info.push(b'e');
    let mut t = b"d".to_vec();
    t.extend(bstr(b"announce"));
    t.extend(bstr(b"x"));
    t.extend(bstr(b"info"));
    t.extend(info);
    t.push(b'e');
    let meta = parse_torrent(&t, "b.torrent").unwrap();
    assert_eq!(meta.hash, sha1(&info_bytes()));
}

#[test]
fn metainfo_errors() {
    let no_source = {
        let mut t = b"d".to_vec();
        t.extend(bstr(b"info"));
        t.extend(info_bytes());
        t.push(b'e');
        t
    };
    assert!(matches!(
        parse_torrent(&no_source, "c.torrent"),
        Err(TorrentErr::FromBencodeTypeErr(FromBencodeTypeErr::MissingValue(_)))
    ));
    let map = BencodeMap::try_decode(b"d8:announce1:xe").unwrap();
    match MetaInfo::try_from(&map) {
        Err(FromBencodeTypeErr::MissingValue(k)) => assert_eq!(k, "info"),
        other => panic!("unexpected {:?}", other.map(|m| m.info.name)),
    }
    let both = BencodeMap::try_decode(b"d5:filesle6:lengthi1e4:name1:n12:piece lengthi1e6:pieces0:e").unwrap();
    match TorrentInfo::try_from(&both) {
        Err(FromBencodeTypeErr::InvalidValue(k)) => assert_eq!(k, "length and files"),
        other => panic!("unexpected {:?}", other.map(|m| m.name)),
    }
    let bad_pieces = BencodeMap::try_decode(b"d6:lengthi1e4:name1:n12:piece lengthi1e6:pieces3:abce").unwrap();
    match TorrentInfo::try_from(&bad_pieces) {
        Err(FromBencodeTypeErr::InvalidValue(k)) => assert_eq!(k, "pieces"),
        other => panic!("unexpected {:?}", other.map(|m| m.name)),
    }
    let zero_length = BencodeMap::try_decode(b"d6:lengthi1e4:name1:n12:piece lengthi0e6:pieces0:e").unwrap();
    match TorrentInfo::try_from(&zero_length) {
        Err(FromBencodeTypeErr::InvalidValue(k)) => assert_eq!(k, "piece length"),
        other => panic!("unexpected {:?}", other.map(|m| m.name)),
    }
    let no_name = BencodeMap::try_decode(b"d6:lengthi1e12:piece lengthi1e6:pieces0:e").unwrap();
    match TorrentInfo::try_from(&no_name) {
        Err(FromBencodeTypeErr::MissingValue(k)) => assert_eq!(k, "name"),
        other => panic!("unexpected {:?}", other.map(|m| m.name)),
    }
    assert!(matches!(parse_torrent(b"i1e", "d.torrent"), Err(TorrentErr::InvalidFile(p)) if p == "d.torrent"));
    assert!(matches!(parse_torrent(b"", "e.torrent"), Err(TorrentErr::InvalidFile(_))));
    assert!(matches!(parse_torrent(b"d", "f.torrent"), Err(TorrentErr::BencodeParseErr(_))));
}

#[test]
fn multi_file_layout() {
    let info = BencodeMap::try_decode(
        b"d5:filesld6:lengthi3e4:pathl1:a1:beed6:lengthi4e4:pathl1:ceee4:name1:n12:piece lengthi2e6:pieces0:e",
    )
    .unwrap();
    let ti = TorrentInfo::try_from(&info).unwrap();
    match ti.file_layout {
        FileLayout::MultiFile { files } => {
            assert_eq!(files.len(), 2);
            assert_eq!(files[0].length, 3);
            assert_eq!(files[0].path, vec![String::from("a"), String::from("b")]);
            assert_eq!(files[1].path, vec![String::from("c")]);
        }
        _ => panic!("expected several files"),
    }
    let missing_path = BencodeMap::try_decode(
        b"d5:filesld6:lengthi3eee4:name1:n12:piece lengthi2e6:pieces0:e",
    )
    .unwrap();
    match TorrentInfo::try_from(&missing_path) {
        Err(FromBencodeTypeErr::MissingValue(k)) => assert_eq!(k, "path"),
        other => panic!("unexpected {:?}", other.map(|m| m.name)),
    }
}

#[test]
fn tracker_request_and_url() {
    let meta = parse_torrent(&torrent_bytes(), "a.torrent").unwrap();
    let req = GetRequest::try_from(&meta, TrackerEvent::Started).unwrap();
    assert_eq!(req.left, 12);
    assert_eq!(req.port, 6881);
    assert_eq!(req.peer_id, "-RB0001-000000000001");
    assert_eq!(TrackerEvent::Started.name(), "started");
    assert_eq!(TrackerEvent::Completed.name(), "completed");
    assert_eq!(TrackerEvent::Stopped.name(), "stopped");
    let mut m = meta.clone();
    m.hash = [0x20, b'a', b'Z', b'0', b'-', b'.', b'_', b'*', b'~', 0xff, 0, 1, 2, 3, 4, 5, 6, 7, 8, 9];
    let url = construct_get_url(&m, "port=6881").unwrap();
    assert_eq!(
        url,
        "http://tracker.example/announce?port=6881&info_hash=+aZ0-._*%7E%FF%00%01%02%03%04%05%06%07%08%09"
    );
    m.announce = None;
    assert!(matches!(construct_get_url(&m, "q"), Err(TrackerErr::InvalidMetaInfo)));
    let mut multi = meta.clone();
    multi.info.file_layout = FileLayout::MultiFile { files: vec![] };
    assert!(matches!(GetRequest::try_from(&multi, TrackerEvent::Started), Err(TrackerErr::InvalidMetaInfo)));
}

#[test]
fn tracker_responses() {
    let ok = parse_announce_response(b"d8:intervali900e5:peersld2:ip9:127.0.0.17:peer id2:ab4:porti6881eeee").unwrap();
    match ok {
        GetResponse::Success { interval, peers } => {
            assert_eq!(interval, 900);
            assert_eq!(peers.len(), 1);
            assert_eq!(peers[0].ip, "127.0.0.1");
            assert_eq!(peers[0].port, 6881);
            assert_eq!(peers[0].peer_id.as_deref(), Some("ab"));
            assert!(matches!(peers[0].my_state, PeerState::Disconnected));
        }
        GetResponse::Failure(_) => panic!("expected peers"),
    }
    match parse_announce_response(b"d14:failure reason4:nopee").unwrap() {
        GetResponse::Failure(m) => assert_eq!(m, "nope"),
        _ => panic!("expected a failure"),
    }
    assert!(matches!(
        parse_announce_response(b"d5:peerslee"),
        Err(TrackerErr::FromBencodeTypeErr(FromBencodeTypeErr::MissingValue(_)))
    ));
    assert!(matches!(
        parse_announce_response(b"d8:intervali1ee"),
        Err(TrackerErr::FromBencodeTypeErr(FromBencodeTypeErr::MissingValue(_)))
    ));
    match parse_announce_response(b"d8:intervali1e5:peersld4:porti1eeee") {
        Err(TrackerErr::FromBencodeTypeErr(FromBencodeTypeErr::MissingValue(k))) => assert_eq!(k, "ip"),
        _ => panic!("expected a missing ip"),
    }
    assert!(matches!(parse_announce_response(b"i1e"), Err(TrackerErr::BencodeParseErr(_))));
}

#[test]
fn peer_records() {
    let maps = vec![
        BencodeMap::try_decode(b"d2:ip1:a4:porti1ee").unwrap(),
        BencodeMap::try_decode(b"d2:ip1:b4:porti2ee").unwrap(),
    ];
    let peers = Peer::from_bencodemap_list(&maps).unwrap();
    assert_eq!(peers.len(), 2);
    assert_eq!(peers[1].ip, "b");
    let bad = vec![BencodeMap::try_decode(b"d2:ip1:ae").unwrap()];
    match Peer::from_bencodemap_list(&bad) {
        Err(FromBencodeTypeErr::MissingValue(k)) => assert_eq!(k, "port"),
        _ => panic!("expected a missing port"),
    }
}

#[test]
fn peer_manager_outcomes() {
    let ok = peers_from_response(Ok(GetResponse::Success { interval: 30, peers: vec![] })).unwrap();
    assert_eq!(ok.1, 30);
    let default = peers_from_response(Ok(GetResponse::Success { interval: -1, peers: vec![] })).unwrap();
    assert_eq!(default.1, DEFAULT_INTERVAL);
    assert!(matches!(
        peers_from_response(Ok(GetResponse::Failure("down".to_string()))),
        Err(PeerManagerError::TrackerFailureError(m)) if m == "down"
    ));
    assert!(matches!(
        peers_from_response(Err(TrackerErr::InvalidMetaInfo)),
        Err(PeerManagerError::TrackerError(TrackerErr::InvalidMetaInfo))
    ));
}

#[test]
fn torrent_paths() {
    assert!(is_torrent_file("debian.iso.torrent"));
    assert!(is_torrent_file(".torrent"));
    assert!(!is_torrent_file("magnet:?xt=urn:btih:abc"));
    assert!(!is_torrent_file("torrent"));
}

#[test]
fn encode_of_value_built_by_hand() {
    let mut m = BencodeMap::new();
    m.insert(b"a".to_vec(), BencodeType::Integer(1));
    assert_eq!(encode(&BencodeType::Dictionary(m)), b"d1:ai1ee".to_vec());
}
