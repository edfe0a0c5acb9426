use vstd::prelude::*;
use crate::byte_order::bytes_equal;

verus! {

pub const PROTOCOL_SIZE: usize = 19;
pub const RESERVED_SIZE: usize = 8;
pub const INFOHASH_SIZE: usize = 20;
pub const PEER_ID_SIZE: usize = 20;
pub const TOTAL_SIZE: usize = 68;

const PROTOCOL_OFFSET: usize = 1;
const RESERVED_OFFSET: usize = 20;
const INFOHASH_OFFSET: usize = 28;
const PEER_ID_OFFSET: usize = 48;

/// The first frame of a peer connection.
#[derive(Debug, Clone, Copy, PartialEq, Eq)]
pub struct Handshake {
    pub length: u8,
    pub protocol: [u8; 19],
    pub reserved: [u8; 8],
    pub info_hash: [u8; 20],
    pub peer_id: [u8; 20],
}

#[derive(Debug, PartialEq, Eq, Clone, Copy)]
pub enum HandshakeErr {
    InvalidSize,
}

/// `BitTorrent protocol`
pub open spec fn protocol_name() -> Seq<u8> {
    seq![66u8, 105, 116, 84, 111, 114, 114, 101, 110, 116, 32, 112, 114, 111, 116, 111, 99, 111, 108]
}

/// The 68 bytes of a handshake: length, protocol, reserved, info-hash, peer-id.
pub open spec fn handshake_bytes(h: Handshake) -> Seq<u8> {
    seq![h.length] + h.protocol@ + h.reserved@ + h.info_hash@ + h.peer_id@
}

/// Two handshakes belong to the same torrent and protocol.
pub open spec fn compatible(a: Handshake, b: Handshake) -> bool {
    a.length == b.length && a.protocol@ == b.protocol@ && a.info_hash@ == b.info_hash@
}

fn protocol_bytes() -> (r: [u8; 19])
    ensures
        r@ == protocol_name(),
{
    let r: [u8; 19] = [66, 105, 116, 84, 111, 114, 114, 101, 110, 116, 32, 112, 114, 111, 116, 111, 99, 111, 108];
    assert(r@ =~= protocol_name());
    r
}

fn copy_into(dst: &mut [u8; 68], at: usize, src: &[u8])
    requires
        at + src@.len() <= 68,
    ensures
        final(dst)@ == old(dst)@.subrange(0, at as int) + src@ + old(dst)@.subrange(
            at + src@.len(),
            68,
        ),
{
    let mut i: usize = 0;
    while i < src.len()
        invariant
            i <= src@.len(),
            at + src@.len() <= 68,
            dst@.len() == 68,
            dst@ == old(dst)@.subrange(0, at as int) + src@.subrange(0, i as int) + old(
                dst,
            )@.subrange(at + i, 68),
        decreases src.len() - i,
    {
        dst[at + i] = src[i];
        i += 1;
        assert(dst@ =~= old(dst)@.subrange(0, at as int) + src@.subrange(0, i as int) + old(
            dst,
        )@.subrange(at + i, 68));
    }
    assert(src@.subrange(0, src@.len() as int) =~= src@);
}

fn take_bytes<const N: usize>(bytes: &[u8], at: usize) -> (r: [u8; N])
    requires
        at + N <= bytes@.len(),
    ensures
        r@ == bytes@.subrange(at as int, at + N),
{
    let mut r: [u8; N] = [0u8; N];
    let mut i: usize = 0;
    while i < N
        invariant
            i <= N,
            at + N <= bytes.len(),
            r@.len() == N,
            forall|j: int| 0 <= j < i ==> #[trigger] r@[j] == bytes@[at + j],
        decreases N - i,
    {
        r[i] = bytes[at + i];
        i += 1;
    }
    assert(r@ =~= bytes@.subrange(at as int, at + N));
    r
}

impl Handshake {
    /// Our handshake for a torrent: protocol `BitTorrent protocol`, reserved bytes zero.
    pub fn new(info_hash: [u8; 20], peer_id: [u8; 20]) -> (r: Self)
        ensures
            r.length == 19,
            r.protocol@ == protocol_name(),
            r.reserved@ == seq![0u8; 8],
            r.info_hash == info_hash,
            r.peer_id == peer_id,
    {
        let r = Handshake {
            length: 19,
            protocol: protocol_bytes(),
            reserved: [0u8; 8],
            info_hash: info_hash,
            peer_id: peer_id,
        };
        assert(r.reserved@ =~= seq![0u8; 8]);
        r
    }

    /// Reads a handshake from exactly 68 bytes.
    pub fn from_bytes(bytes: &[u8]) -> (r: Result<Self, HandshakeErr>)
        ensures
            bytes@.len() != TOTAL_SIZE ==> r == Err::<Handshake, HandshakeErr>(
                HandshakeErr::InvalidSize,
            ),
            bytes@.len() == TOTAL_SIZE ==> (r matches Ok(h) && handshake_bytes(h) == bytes@),
    {
        if bytes.len() != TOTAL_SIZE {
            return Err(HandshakeErr::InvalidSize);
        }
        let h = Handshake {
            length: bytes[0],
            protocol: take_bytes::<19>(bytes, PROTOCOL_OFFSET),
            reserved: take_bytes::<8>(bytes, RESERVED_OFFSET),
            info_hash: take_bytes::<20>(bytes, INFOHASH_OFFSET),
            peer_id: take_bytes::<20>(bytes, PEER_ID_OFFSET),
        };
        assert(handshake_bytes(h) =~= bytes@);
        Ok(h)
    }

    /// The 68 bytes of this handshake.
    pub fn to_bytes(&self) -> (r: [u8; 68])
        ensures
            r@ == handshake_bytes(*self),
    {
        let mut r: [u8; 68] = [0u8; 68];
        r[0] = self.length;
        copy_into(&mut r, PROTOCOL_OFFSET, self.protocol.as_slice());
        copy_into(&mut r, RESERVED_OFFSET, self.reserved.as_slice());
        copy_into(&mut r, INFOHASH_OFFSET, self.info_hash.as_slice());
        copy_into(&mut r, PEER_ID_OFFSET, self.peer_id.as_slice());
        assert(r@ =~= handshake_bytes(*self));
        r
    }

    /// Whether `other` speaks the same protocol about the same torrent (peer-ids may differ).
    pub fn is_valid(&self, other: &Handshake) -> (r: bool)
        ensures
            r == compatible(*self, *other),
    {
        self.length == other.length && bytes_equal(
            self.protocol.as_slice(),
            other.protocol.as_slice(),
        ) && bytes_equal(self.info_hash.as_slice(), other.info_hash.as_slice())
    }
}

/// A handshake is determined by its bytes, so reading what `to_bytes` wrote gives the same
/// handshake back.
pub proof fn lemma_handshake_round_trip(h: Handshake, parsed: Handshake)
    requires
        handshake_bytes(parsed) == handshake_bytes(h),
    ensures
        parsed == h,
{
    let s = handshake_bytes(h);
    assert(parsed.length == s[0]);
    assert(parsed.protocol@ =~= s.subrange(1, 20));
    assert(h.protocol@ =~= s.subrange(1, 20));
    assert(parsed.reserved@ =~= s.subrange(20, 28));
    assert(h.reserved@ =~= s.subrange(20, 28));
    assert(parsed.info_hash@ =~= s.subrange(28, 48));
    assert(h.info_hash@ =~= s.subrange(28, 48));
    assert(parsed.peer_id@ =~= s.subrange(48, 68));
    assert(h.peer_id@ =~= s.subrange(48, 68));
    assert(parsed.protocol =~= h.protocol);
    assert(parsed.reserved =~= h.reserved);
    assert(parsed.info_hash =~= h.info_hash);
    assert(parsed.peer_id =~= h.peer_id);
}

/// A handshake for another torrent is never accepted.
pub proof fn lemma_other_torrent_rejected(ours: Handshake, theirs: Handshake)
    requires
        ours.info_hash@ != theirs.info_hash@,
    ensures
        !compatible(ours, theirs),
        !compatible(theirs, ours),
{
}

} // verus!
