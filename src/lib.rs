pub mod byte_order;
pub mod bencode;
pub mod handshake;
pub mod hash;
pub mod message;
pub mod meta_info;
pub mod piece_manager;
pub mod peer;
pub mod tracker;
pub mod peer_manager;
pub mod torrent;
