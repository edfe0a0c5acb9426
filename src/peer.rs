use vstd::prelude::*;
use vstd::string::StringSliceAdditionalSpecFns;
use crate::bencode::{BValue, BencodeMap, as_int, as_text, dict_lookup};
use crate::handshake::{Handshake, compatible, protocol_name};
use crate::message::{Message, MessageErr, MessageView};
use crate::meta_info::{FromBencodeTypeErr, MetaFault, meta_describes};
use crate::piece_manager::{PieceManager, PiecesView, claim, first_claimable, after_add, after_cancel, lemma_first_claimable_range};
use crate::hash::sha1_of;

verus! {

pub const PEER_ID_KEY: &'static str = "peer id";
pub const IP_KEY: &'static str = "ip";
pub const PORT_KEY: &'static str = "port";

/// The largest block requested at once: 16 KiB.
pub const MAX_BLOCK_SIZE: usize = 16384;

#[derive(Debug, Clone, Copy, PartialEq, Eq)]
pub enum PeerState {
    Disconnected,
    Choked,
    Interested,
    Downloading,
    Idle,
}

#[derive(Debug)]
pub enum ConnectionErr {
    TokioWriteError(std::io::Error),
    TokioReadError(std::io::Error),
    TokioConnectError(std::io::Error),
    InvalidConnection,
    InvalidHandshake,
    InvalidMessage(MessageErr),
    UnexpectedMessage(String),
    UnexpectedIoError(std::io::Error),
}

/// What happened on a peer connection.
#[derive(Debug, Clone)]
pub enum PeerEvent {
    Connected,
    Disconnected,
    HandshakeReceived(Handshake),
    HandshakeSent(Handshake),
    MessageReceived(Message),
    MessageSent(Message),
}

/// Where a worker's exchange with its peer stands.
#[derive(Debug)]
pub enum PeerPhase {
    /// Not connected yet.
    Idle,
    /// Our handshake is out; the peer's is awaited.
    Handshaking { local: Handshake },
    /// Our bitfield is out; the peer's is awaited.
    AwaitingBitfield,
    /// We asked to be unchoked to fetch piece `index`.
    AwaitingUnchoke { index: u32 },
    /// Blocks of piece `index` are being fetched: `block` is the one requested last, `received`
    /// the bytes of the blocks before it.
    Downloading { index: u32, block: usize, received: Vec<u8> },
    /// The exchange is over.
    Finished,
}

/// What the worker must do next on the connection.
#[derive(Debug)]
pub enum PeerAction {
    /// Write this handshake, then read the peer's.
    SendHandshake(Handshake),
    /// Write this message, then read the next one.
    Send(Message),
    /// Read the next message.
    Receive,
    /// Close the connection: no piece is left to fetch from this peer.
    Finish,
    /// Close the connection on an error.
    Fail(ConnectionErr),
}

/// A peer of the swarm and the state of our exchange with it.
#[derive(Debug)]
pub struct Peer {
    pub peer_id: Option<String>,
    pub ip: String,
    pub port: i64,
    pub my_state: PeerState,
    pub their_state: PeerState,
    pub phase: PeerPhase,
    pub their_bitfield: Vec<u8>,
}

/// Why a peer record was rejected.
pub open spec fn peer_fault(d: Seq<(Seq<u8>, BValue)>) -> Option<MetaFault> {
    if as_text(dict_lookup(d, IP_KEY.spec_bytes())) is None {
        Some(MetaFault::Missing(IP_KEY@))
    } else if as_int(dict_lookup(d, PORT_KEY.spec_bytes())) is None {
        Some(MetaFault::Missing(PORT_KEY@))
    } else {
        None
    }
}

/// `p` holds what the peer record `d` says, and no exchange has started.
pub open spec fn peer_matches(p: Peer, d: Seq<(Seq<u8>, BValue)>) -> bool {
    &&& as_text(dict_lookup(d, IP_KEY.spec_bytes())) == Some(p.ip@)
    &&& as_int(dict_lookup(d, PORT_KEY.spec_bytes())) == Some(p.port as int)
    &&& match p.peer_id {
        Some(id) => as_text(dict_lookup(d, PEER_ID_KEY.spec_bytes())) == Some(id@),
        None => as_text(dict_lookup(d, PEER_ID_KEY.spec_bytes())) is None,
    }
    &&& p.my_state is Disconnected && p.their_state is Disconnected && p.phase is Idle
}

impl Peer {
    /// A peer we have not connected to.
    pub fn new(peer_id: Option<String>, ip: String, port: i64) -> (r: Self)
        ensures
            r.peer_id == peer_id,
            r.ip == ip,
            r.port == port,
            r.my_state is Disconnected,
            r.their_state is Disconnected,
            r.phase is Idle,
            r.their_bitfield@.len() == 0,
    {
        Peer {
            peer_id,
            ip,
            port,
            my_state: PeerState::Disconnected,
            their_state: PeerState::Disconnected,
            phase: PeerPhase::Idle,
            their_bitfield: Vec::new(),
        }
    }

    /// Decodes a peer record of a tracker response: `ip` and `port` required, `peer id` optional.
    pub fn try_from(bencode_map: &BencodeMap) -> (r: Result<Peer, FromBencodeTypeErr>)
        ensures
            match peer_fault(bencode_map@) {
                Some(f) => r matches Err(e) && meta_describes(e, f),
                None => r matches Ok(p) && peer_matches(p, bencode_map@),
            },
    {
        let peer_id = bencode_map.get_text(PEER_ID_KEY.as_bytes());
        let ip = match bencode_map.get_text(IP_KEY.as_bytes()) {
            Some(x) => x,
            None => {
                return Err(FromBencodeTypeErr::MissingValue(IP_KEY.to_owned()));
            },
        };
        let port = match bencode_map.get_int(PORT_KEY.as_bytes()) {
            Some(x) => x,
            None => {
                return Err(FromBencodeTypeErr::MissingValue(PORT_KEY.to_owned()));
            },
        };
        Ok(Peer::new(peer_id, ip, port))
    }

    /// Decodes every peer record, stopping at the first that is rejected.
    pub fn from_bencodemap_list(bencode_map: &[BencodeMap]) -> (r: Result<Vec<Peer>, FromBencodeTypeErr>)
        ensures
            match first_peer_fault(bencode_map@.map_values(|m: BencodeMap| m@)) {
                Some(f) => r matches Err(e) && meta_describes(e, f),
                None => r matches Ok(peers) && peers@.len() == bencode_map@.len() && forall|i: int|
                    0 <= i < peers@.len() ==> #[trigger] peer_matches(peers@[i], bencode_map@[i]@),
            },
    {
        let ghost ps = bencode_map@.map_values(|m: BencodeMap| m@);
        assert(ps.subrange(0, ps.len() as int) =~= ps);
        let mut peers: Vec<Peer> = Vec::new();
        let mut i: usize = 0;
        while i < bencode_map.len()
            invariant
                i <= bencode_map@.len(),
                ps == bencode_map@.map_values(|m: BencodeMap| m@),
                peers@.len() == i,
                forall|j: int| 0 <= j < i ==> #[trigger] peer_matches(peers@[j], bencode_map@[j]@),
                first_peer_fault(ps) == first_peer_fault(ps.subrange(i as int, ps.len() as int)),
            decreases bencode_map.len() - i,
        {
            let ghost rest = ps.subrange(i as int, ps.len() as int);
            assert(rest[0] == bencode_map@[i as int]@);
            match Peer::try_from(&bencode_map[i]) {
                Ok(p) => {
                    peers.push(p);
                },
                Err(e) => {
                    return Err(e);
                },
            }
            assert(rest.subrange(1, rest.len() as int) =~= ps.subrange(i + 1, ps.len() as int));
            i += 1;
        }
        Ok(peers)
    }
}

/// The fault of the first peer record that is rejected.
pub open spec fn first_peer_fault(ps: Seq<Seq<(Seq<u8>, BValue)>>) -> Option<MetaFault>
    decreases ps.len(),
{
    if ps.len() == 0 {
        None
    } else if peer_fault(ps[0]) is Some {
        peer_fault(ps[0])
    } else {
        first_peer_fault(ps.subrange(1, ps.len() as int))
    }
}

/// The number of blocks of a piece.
pub open spec fn block_count(piece_length: nat) -> nat {
    ((piece_length + 16383) / 16384) as nat
}

/// The length of block `block` of a piece: 16 KiB, or what is left of the piece.
pub open spec fn block_length(block: int, piece_length: nat) -> int {
    if piece_length - block * 16384 < 16384 {
        piece_length - block * 16384
    } else {
        16384
    }
}

/// The request for block `block` of piece `index`.
pub open spec fn block_request(index: u32, block: int, piece_length: nat) -> MessageView {
    MessageView::Request {
        index,
        begin: (block * 16384) as u32,
        length: block_length(block, piece_length) as u32,
    }
}

/// The piece a worker holds in progress in a phase.
pub open spec fn held_piece(phase: PeerPhase) -> Option<int> {
    match phase {
        PeerPhase::AwaitingUnchoke { index } => Some(index as int),
        PeerPhase::Downloading { index, .. } => Some(index as int),
        _ => None,
    }
}

/// The events a phase acts on; any other event is passed over.
pub open spec fn expects(phase: PeerPhase, event: PeerEvent) -> bool {
    ||| event is Disconnected
    ||| (phase is Idle && event is Connected)
    ||| (phase is Handshaking && event is HandshakeReceived)
    ||| ((phase is AwaitingBitfield || phase is AwaitingUnchoke || phase is Downloading)
        && event is MessageReceived)
}

/// The worker looked for its next piece: the lowest piece the peer has that nobody holds or
/// fetches is claimed, and either fetched at once or, while we are choked, asked for with
/// `Interested`; with none left the exchange is over.
pub open spec fn picks_next(
    my_state: PeerState,
    their: Seq<u8>,
    pm: PiecesView,
    after: Peer,
    pm_after: PiecesView,
    action: PeerAction,
) -> bool {
    match first_claimable(pm, their, 0) {
        None => pm_after == pm && after.phase is Finished && action is Finish,
        Some(i) => pm_after == claim(pm, i) && if my_state is Choked {
            &&& after.phase == PeerPhase::AwaitingUnchoke { index: i as u32 }
            &&& action matches PeerAction::Send(m) && m@ == MessageView::Interested
        } else {
            &&& after.phase matches PeerPhase::Downloading { index, block, received } && index
                == i as u32 && block == 0 && received@.len() == 0
            &&& action matches PeerAction::Send(m) && m@ == block_request(
                i as u32,
                0,
                pm.piece_length,
            )
        },
    }
}

fn block_request_message(index: u32, block: usize, piece_length: usize) -> (m: Message)
    requires
        block * 16384 < piece_length <= u32::MAX,
    ensures
        m@ == block_request(index, block as int, piece_length as nat),
{
    let begin = block * MAX_BLOCK_SIZE;
    let rest = piece_length - begin;
    let length = if rest < MAX_BLOCK_SIZE {
        rest
    } else {
        MAX_BLOCK_SIZE
    };
    Message::Request { index, begin: begin as u32, length: length as u32 }
}

impl Peer {
    /// Claims the next piece to fetch from this peer and says what to send for it.
    fn pick_next(&mut self, pm: &mut PieceManager) -> (action: PeerAction)
        requires
            old(pm).wf(),
        ensures
            final(pm).wf(),
            picks_next(old(self).my_state, old(self).their_bitfield@, old(pm).view(), *final(self), final(pm).view(), action),
            final(self).my_state == old(self).my_state,
            final(self).their_state == old(self).their_state,
            final(self).their_bitfield == old(self).their_bitfield,
            final(self).peer_id == old(self).peer_id,
            final(self).ip == old(self).ip,
            final(self).port == old(self).port,
    {
        proof {
            lemma_first_claimable_range(old(pm).view(), self.their_bitfield@, 0);
        }
        match pm.get_next_piece(self.their_bitfield.as_slice()) {
            None => {
                self.phase = PeerPhase::Finished;
                PeerAction::Finish
            },
            Some(i) => {
                let index = i as u32;
                if let PeerState::Choked = self.my_state {
                    self.phase = PeerPhase::AwaitingUnchoke { index };
                    PeerAction::Send(Message::Interested)
                } else {
                    let pl = pm.get_piece_length();
                    self.phase = PeerPhase::Downloading { index, block: 0, received: Vec::new() };
                    PeerAction::Send(block_request_message(index, 0, pl))
                }
            },
        }
    }

    /// Decides what the worker does after `event`: the exchange of handshakes and bitfields,
    /// asking to be unchoked, requesting a piece block by block, submitting it, and releasing
    /// the held piece when the connection ends.
    pub fn step(&mut self, pm: &mut PieceManager, event: PeerEvent) -> (action: PeerAction)
        requires
            old(pm).wf(),
        ensures
            final(pm).wf(),
            final(self).peer_id == old(self).peer_id,
            final(self).ip == old(self).ip,
            final(self).port == old(self).port,
            // only the peer's bitfield message changes what we know of its pieces
            !(old(self).phase is AwaitingBitfield && event is MessageReceived) ==> final(self).their_bitfield
                == old(self).their_bitfield,
            // only the handshake, an unchoke and the end of the connection change the states
            !(event is Disconnected || old(self).phase is Handshaking || old(self).phase is AwaitingUnchoke)
                ==> final(self).my_state == old(self).my_state && final(self).their_state == old(self).their_state,
            // an event the phase does not act on changes nothing; the worker reads on
            !expects(old(self).phase, event) ==> {
                &&& final(self).phase == old(self).phase
                &&& final(self).my_state == old(self).my_state
                &&& final(self).their_state == old(self).their_state
                &&& final(pm).view() == old(pm).view()
                &&& action is Receive
            },
            // connecting: send our handshake for the torrent, with a zero peer-id
            old(self).phase is Idle ==> (event is Connected ==> {
                &&& final(self).phase matches PeerPhase::Handshaking { local } && local.length == 19
                    && local.protocol@ == protocol_name() && local.info_hash@ == old(pm).view().torrent_hash
                    && local.peer_id@ == seq![0u8; 20] && action == PeerAction::SendHandshake(local)
                &&& final(pm).view() == old(pm).view()
            }),
            // the peer's handshake: accepted when compatible, then our bitfield goes out
            old(self).phase matches PeerPhase::Handshaking { local } ==> (event matches PeerEvent::HandshakeReceived(h) ==> {
                &&& final(pm).view() == old(pm).view()
                &&& compatible(h, local) ==> {
                    &&& final(self).my_state is Choked && final(self).their_state is Choked
                    &&& final(self).phase is AwaitingBitfield
                    &&& action matches PeerAction::Send(m) && m@ == MessageView::Bitfield { bitfield: old(pm).view().bitfield }
                }
                &&& !compatible(h, local) ==> {
                    &&& final(self).phase is Finished
                    &&& action matches PeerAction::Fail(e) && e is InvalidHandshake
                }
            }),
            // the peer's bitfield: adopted, then the next piece is picked
            event matches PeerEvent::MessageReceived(m) ==> (old(self).phase is AwaitingBitfield ==> {
                &&& m is Bitfield ==> {
                    &&& final(self).their_bitfield@ == m->Bitfield_bitfield@
                    &&& picks_next(old(self).my_state, m->Bitfield_bitfield@, old(pm).view(), *final(self), final(pm).view(), action)
                }
                &&& !(m is Bitfield) ==> {
                    &&& final(self).phase is Finished
                    &&& final(pm).view() == old(pm).view()
                    &&& action matches PeerAction::Fail(e) && e is UnexpectedMessage
                }
            }),
            // unchoked: fetch the claimed piece; anything else is passed over
            event matches PeerEvent::MessageReceived(m) ==> (old(self).phase matches PeerPhase::AwaitingUnchoke { index } ==> {
                &&& final(pm).view() == old(pm).view()
                &&& m is Unchoke ==> {
                    &&& final(self).my_state is Interested
                    &&& final(self).phase matches PeerPhase::Downloading { index: i, block, received } && i == index
                        && block == 0 && received@.len() == 0
                    &&& action matches PeerAction::Send(r) && r@ == block_request(index, 0, old(pm).view().piece_length)
                }
                &&& !(m is Unchoke) ==> final(self).phase == old(self).phase && action is Receive
            }),
            // a block: appended; the next block is requested, or the whole piece is submitted
            // and the next piece picked
            event matches PeerEvent::MessageReceived(m) ==> (old(self).phase matches PeerPhase::Downloading { index, block, received } ==> {
                let got = received@ + m->Piece_block@;
                let pl = old(pm).view().piece_length;
                let added = after_add(old(pm).view(), index as int, got,
                    index < old(pm).view().hashes.len() && sha1_of(got) == old(pm).view().hashes[index as int]);
                &&& (m is Piece && block + 1 < block_count(pl)) ==> {
                    &&& final(pm).view() == old(pm).view()
                    &&& final(self).phase matches PeerPhase::Downloading { index: i, block: b, received: r }
                        && i == index && b == block + 1 && r@ == got
                    &&& action matches PeerAction::Send(q) && q@ == block_request(index, block + 1, pl)
                }
                &&& (m is Piece && block + 1 >= block_count(pl)) ==> picks_next(old(self).my_state,
                    old(self).their_bitfield@, added, *final(self), final(pm).view(), action)
                &&& m is KeepAlive ==> final(self).phase == old(self).phase && final(pm).view() == old(pm).view()
                    && action is Receive
                &&& !(m is Piece) && !(m is KeepAlive) ==> {
                    &&& final(pm).view() == after_cancel(old(pm).view(), index as int)
                    &&& final(self).phase is Finished
                    &&& action matches PeerAction::Fail(e) && e is UnexpectedMessage
                }
            }),
            // the connection ended: the held piece is released
            event is Disconnected ==> {
                &&& final(pm).view() == match held_piece(old(self).phase) {
                    Some(i) => after_cancel(old(pm).view(), i),
                    None => old(pm).view(),
                }
                &&& final(self).phase is Finished
                &&& final(self).my_state is Disconnected && final(self).their_state is Disconnected
                &&& action is Finish
            },
    {
        let mut phase = PeerPhase::Finished;
        core::mem::swap(&mut phase, &mut self.phase);
        match event {
            PeerEvent::Disconnected => {
                match phase {
                    PeerPhase::AwaitingUnchoke { index } => {
                        pm.cancel_piece(index as usize);
                    },
                    PeerPhase::Downloading { index, .. } => {
                        pm.cancel_piece(index as usize);
                    },
                    _ => {},
                }
                self.my_state = PeerState::Disconnected;
                self.their_state = PeerState::Disconnected;
                PeerAction::Finish
            },
            PeerEvent::Connected => {
                match phase {
                    PeerPhase::Idle => {
                        let local = Handshake::new(*pm.get_torrent_hash(), [0u8; 20]);
                        self.phase = PeerPhase::Handshaking { local };
                        PeerAction::SendHandshake(local)
                    },
                    other => {
                        self.phase = other;
                        PeerAction::Receive
                    },
                }
            },
            PeerEvent::HandshakeReceived(h) => {
                match phase {
                    PeerPhase::Handshaking { local } => {
                        if h.is_valid(&local) {
                            self.my_state = PeerState::Choked;
                            self.their_state = PeerState::Choked;
                            self.phase = PeerPhase::AwaitingBitfield;
                            PeerAction::Send(Message::Bitfield { bitfield: pm.get_bitfield() })
                        } else {
                            PeerAction::Fail(ConnectionErr::InvalidHandshake)
                        }
                    },
                    other => {
                        self.phase = other;
                        PeerAction::Receive
                    },
                }
            },
            PeerEvent::MessageReceived(m) => {
                match phase {
                    PeerPhase::AwaitingBitfield => {
                        match m {
                            Message::Bitfield { bitfield } => {
                                self.their_bitfield = bitfield;
                                self.pick_next(pm)
                            },
                            _ => PeerAction::Fail(
                                ConnectionErr::UnexpectedMessage("Expected Bitfield message".to_owned()),
                            ),
                        }
                    },
                    PeerPhase::AwaitingUnchoke { index } => {
                        match m {
                            Message::Unchoke => {
                                self.my_state = PeerState::Interested;
                                let pl = pm.get_piece_length();
                                self.phase = PeerPhase::Downloading { index, block: 0, received: Vec::new() };
                                PeerAction::Send(block_request_message(index, 0, pl))
                            },
                            _ => {
                                self.phase = PeerPhase::AwaitingUnchoke { index };
                                PeerAction::Receive
                            },
                        }
                    },
                    PeerPhase::Downloading { index, block, received } => {
                        match m {
                            Message::Piece { block: bytes, .. } => {
                                let mut got = received;
                                let ghost before = got@;
                                let mut more = bytes;
                                got.append(&mut more);
                                let pl = pm.get_piece_length();
                                let count = pl / MAX_BLOCK_SIZE + if pl % MAX_BLOCK_SIZE == 0 { 0 } else { 1 };
                                assert(count == block_count(pl as nat));
                                if block < count && block + 1 < count {
                                    assert((block + 1) * 16384 < pl) by (nonlinear_arith)
                                        requires
                                            block + 1 < count,
                                            count == (pl + 16383) / 16384,
                                    ;
                                    self.phase = PeerPhase::Downloading { index, block: block + 1, received: got };
                                    PeerAction::Send(block_request_message(index, block + 1, pl))
                                } else {
                                    pm.add_piece(index as usize, got);
                                    self.pick_next(pm)
                                }
                            },
                            Message::KeepAlive => {
                                self.phase = PeerPhase::Downloading { index, block, received };
                                PeerAction::Receive
                            },
                            _ => {
                                pm.cancel_piece(index as usize);
                                PeerAction::Fail(
                                    ConnectionErr::UnexpectedMessage("Expected piece message".to_owned()),
                                )
                            },
                        }
                    },
                    other => {
                        self.phase = other;
                        PeerAction::Receive
                    },
                }
            },
            _ => {
                self.phase = phase;
                PeerAction::Receive
            },
        }
    }
}

} // verus!
