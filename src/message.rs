use vstd::prelude::*;

verus! {

/// A peer-wire message.
#[derive(Debug, Clone, PartialEq, Eq)]
pub enum Message {
    KeepAlive,
    Choke,
    Unchoke,
    Interested,
    NotInterested,
    Have { index: u32 },
    Bitfield { bitfield: Vec<u8> },
    Request { index: u32, begin: u32, length: u32 },
    Piece { index: u32, begin: u32, block: Vec<u8> },
    Cancel { index: u32, begin: u32, length: u32 },
    Port { port: u16 },
}

/// The model of a message: byte payloads as sequences.
pub enum MessageView {
    KeepAlive,
    Choke,
    Unchoke,
    Interested,
    NotInterested,
    Have { index: u32 },
    Bitfield { bitfield: Seq<u8> },
    Request { index: u32, begin: u32, length: u32 },
    Piece { index: u32, begin: u32, block: Seq<u8> },
    Cancel { index: u32, begin: u32, length: u32 },
    Port { port: u16 },
}

impl View for Message {
    type V = MessageView;

    open spec fn view(&self) -> MessageView {
        match self {
            Message::KeepAlive => MessageView::KeepAlive,
            Message::Choke => MessageView::Choke,
            Message::Unchoke => MessageView::Unchoke,
            Message::Interested => MessageView::Interested,
            Message::NotInterested => MessageView::NotInterested,
            Message::Have { index } => MessageView::Have { index: *index },
            Message::Bitfield { bitfield } => MessageView::Bitfield { bitfield: bitfield@ },
            Message::Request { index, begin, length } => MessageView::Request {
                index: *index,
                begin: *begin,
                length: *length,
            },
            Message::Piece { index, begin, block } => MessageView::Piece {
                index: *index,
                begin: *begin,
                block: block@,
            },
            Message::Cancel { index, begin, length } => MessageView::Cancel {
                index: *index,
                begin: *begin,
                length: *length,
            },
            Message::Port { port } => MessageView::Port { port: *port },
        }
    }
}

/// The id byte of each message kind that has one.
#[derive(Debug, Clone, Copy, PartialEq, Eq)]
pub enum MessageId {
    Choke,
    Unchoke,
    Interested,
    NotInterested,
    Have,
    Bitfield,
    Request,
    Piece,
    Cancel,
    Port,
}

#[verifier::external_type_specification]
#[verifier::external_body]
pub struct ExIoError(std::io::Error);

#[derive(Debug)]
pub enum MessageErr {
    InvalidMessageLength,
    InvalidMessageId,
    IoError(std::io::Error),
    MissingPayload,
    InvalidPayload,
    InvalidMessage,
}

pub open spec fn id_code(id: MessageId) -> u8 {
    match id {
        MessageId::Choke => 0,
        MessageId::Unchoke => 1,
        MessageId::Interested => 2,
        MessageId::NotInterested => 3,
        MessageId::Have => 4,
        MessageId::Bitfield => 5,
        MessageId::Request => 6,
        MessageId::Piece => 7,
        MessageId::Cancel => 8,
        MessageId::Port => 9,
    }
}

impl MessageId {
    /// The id byte.
    pub fn code(&self) -> (r: u8)
        ensures
            r == id_code(*self),
    {
        match self {
            MessageId::Choke => 0,
            MessageId::Unchoke => 1,
            MessageId::Interested => 2,
            MessageId::NotInterested => 3,
            MessageId::Have => 4,
            MessageId::Bitfield => 5,
            MessageId::Request => 6,
            MessageId::Piece => 7,
            MessageId::Cancel => 8,
            MessageId::Port => 9,
        }
    }

    /// The kind with id byte `value`; ids above 9 are unknown.
    pub fn try_from(value: u8) -> (r: Result<MessageId, MessageErr>)
        ensures
            value <= 9 ==> (r matches Ok(id) && id_code(id) == value),
            value > 9 ==> (r matches Err(e) && e is InvalidMessageId),
    {
        match value {
            0 => Ok(MessageId::Choke),
            1 => Ok(MessageId::Unchoke),
            2 => Ok(MessageId::Interested),
            3 => Ok(MessageId::NotInterested),
            4 => Ok(MessageId::Have),
            5 => Ok(MessageId::Bitfield),
            6 => Ok(MessageId::Request),
            7 => Ok(MessageId::Piece),
            8 => Ok(MessageId::Cancel),
            9 => Ok(MessageId::Port),
            _ => Err(MessageErr::InvalidMessageId),
        }
    }
}

/// Big-endian bytes of a `u32`.
pub open spec fn be32(x: u32) -> Seq<u8> {
    seq![
        (x / 0x1000000) as u8,
        ((x / 0x10000) % 0x100) as u8,
        ((x / 0x100) % 0x100) as u8,
        (x % 0x100) as u8,
    ]
}

/// Big-endian bytes of a `u16`.
pub open spec fn be16(x: u16) -> Seq<u8> {
    seq![(x / 0x100) as u8, (x % 0x100) as u8]
}

/// The `u32` written big-endian at `i`.
pub open spec fn read_be32(s: Seq<u8>, i: int) -> u32 {
    (s[i] * 0x1000000 + s[i + 1] * 0x10000 + s[i + 2] * 0x100 + s[i + 3]) as u32
}

/// The `u16` written big-endian at `i`.
pub open spec fn read_be16(s: Seq<u8>, i: int) -> u16 {
    (s[i] * 0x100 + s[i + 1]) as u16
}

/// A length prefix, an id byte and a payload.
pub open spec fn frame(id: u8, payload: Seq<u8>) -> Seq<u8> {
    be32((1 + payload.len()) as u32) + seq![id] + payload
}

/// The bytes of a message on the wire.
pub open spec fn message_bytes(m: MessageView) -> Seq<u8> {
    match m {
        MessageView::KeepAlive => be32(0),
        MessageView::Choke => frame(0, Seq::empty()),
        MessageView::Unchoke => frame(1, Seq::empty()),
        MessageView::Interested => frame(2, Seq::empty()),
        MessageView::NotInterested => frame(3, Seq::empty()),
        MessageView::Have { index } => frame(4, be32(index)),
        MessageView::Bitfield { bitfield } => frame(5, bitfield),
        MessageView::Request { index, begin, length } => frame(
            6,
            be32(index) + be32(begin) + be32(length),
        ),
        MessageView::Piece { index, begin, block } => frame(7, be32(index) + be32(begin) + block),
        MessageView::Cancel { index, begin, length } => frame(
            8,
            be32(index) + be32(begin) + be32(length),
        ),
        MessageView::Port { port } => frame(9, be16(port)),
    }
}

/// The length prefix of the message fits in a `u32`.
pub open spec fn message_fits(m: MessageView) -> bool {
    match m {
        MessageView::Bitfield { bitfield } => bitfield.len() + 1 <= u32::MAX,
        MessageView::Piece { block, .. } => block.len() + 9 <= u32::MAX,
        _ => true,
    }
}

/// What `from_bytes` makes of a buffer.
pub open spec fn parse_message(s: Seq<u8>) -> Result<MessageView, MessageErr> {
    if s.len() < 4 {
        Err(MessageErr::InvalidMessageLength)
    } else {
        let len = read_be32(s, 0) as int;
        if len == 0 {
            Ok(MessageView::KeepAlive)
        } else if s.len() < 5 {
            Err(MessageErr::InvalidMessageLength)
        } else if s[4] > 9 {
            Err(MessageErr::InvalidMessageId)
        } else if s.len() < 4 + len {
            Err(MessageErr::InvalidMessageLength)
        } else {
            let p = s.subrange(5, 4 + len);
            let id = s[4];
            if id <= 3 {
                if len != 1 {
                    Err(MessageErr::InvalidPayload)
                } else if id == 0 {
                    Ok(MessageView::Choke)
                } else if id == 1 {
                    Ok(MessageView::Unchoke)
                } else if id == 2 {
                    Ok(MessageView::Interested)
                } else {
                    Ok(MessageView::NotInterested)
                }
            } else if id == 5 {
                Ok(MessageView::Bitfield { bitfield: p })
            } else if len == 1 {
                Err(MessageErr::MissingPayload)
            } else if id == 4 {
                if len != 5 {
                    Err(MessageErr::InvalidPayload)
                } else {
                    Ok(MessageView::Have { index: read_be32(p, 0) })
                }
            } else if id == 6 || id == 8 {
                if len != 13 {
                    Err(MessageErr::InvalidPayload)
                } else if id == 6 {
                    Ok(
                        MessageView::Request {
                            index: read_be32(p, 0),
                            begin: read_be32(p, 4),
                            length: read_be32(p, 8),
                        },
                    )
                } else {
                    Ok(
                        MessageView::Cancel {
                            index: read_be32(p, 0),
                            begin: read_be32(p, 4),
                            length: read_be32(p, 8),
                        },
                    )
                }
            } else if id == 7 {
                if len < 9 {
                    Err(MessageErr::InvalidPayload)
                } else {
                    Ok(
                        MessageView::Piece {
                            index: read_be32(p, 0),
                            begin: read_be32(p, 4),
                            block: p.subrange(8, p.len() as int),
                        },
                    )
                }
            } else {
                if len != 3 {
                    Err(MessageErr::InvalidPayload)
                } else {
                    Ok(MessageView::Port { port: read_be16(p, 0) })
                }
            }
        }
    }
}

proof fn lemma_be32(x: u32)
    ensures
        read_be32(be32(x), 0) == x,
        be32(x).len() == 4,
{
    let b = be32(x);
    assert(b[0] == (x / 0x1000000) as u8);
    assert((x / 0x1000000) * 0x1000000 + ((x / 0x10000) % 0x100) * 0x10000 + ((x / 0x100) % 0x100)
        * 0x100 + x % 0x100 == x) by (nonlinear_arith);
}

proof fn lemma_read_be32_shift(s: Seq<u8>, t: Seq<u8>, i: int)
    requires
        0 <= i,
        i + 4 <= t.len(),
        forall|j: int| 0 <= j < 4 ==> #[trigger] s[j] == t[i + j],
        s.len() >= 4,
    ensures
        read_be32(s, 0) == read_be32(t, i),
{
    assert(s[0] == t[i] && s[1] == t[i + 1] && s[2] == t[i + 2] && s[3] == t[i + 3]);
}

fn push_be32(buf: &mut Vec<u8>, x: u32)
    ensures
        final(buf)@ == old(buf)@ + be32(x),
{
    let b0 = (x >> 24) as u8;
    let b1 = ((x >> 16) & 0xff) as u8;
    let b2 = ((x >> 8) & 0xff) as u8;
    let b3 = (x & 0xff) as u8;
    assert(b0 == (x / 0x1000000) as u8 && b1 == ((x / 0x10000) % 0x100) as u8 && b2 == ((x
        / 0x100) % 0x100) as u8 && b3 == (x % 0x100) as u8) by (bit_vector)
        requires
            b0 == (x >> 24) as u8,
            b1 == ((x >> 16) & 0xff) as u8,
            b2 == ((x >> 8) & 0xff) as u8,
            b3 == (x & 0xff) as u8,
    ;
    buf.push(b0);
    buf.push(b1);
    buf.push(b2);
    buf.push(b3);
    assert(buf@ =~= old(buf)@ + be32(x));
}

fn push_be16(buf: &mut Vec<u8>, x: u16)
    ensures
        final(buf)@ == old(buf)@ + be16(x),
{
    let b0 = (x >> 8) as u8;
    let b1 = (x & 0xff) as u8;
    assert(b0 == (x / 0x100) as u8 && b1 == (x % 0x100) as u8) by (bit_vector)
        requires
            b0 == (x >> 8) as u8,
            b1 == (x & 0xff) as u8,
    ;
    buf.push(b0);
    buf.push(b1);
    assert(buf@ =~= old(buf)@ + be16(x));
}

fn get_be32(s: &[u8], i: usize) -> (r: u32)
    requires
        i + 4 <= s@.len(),
    ensures
        r == read_be32(s@, i as int),
{
    let b0 = s[i];
    let b1 = s[i + 1];
    let b2 = s[i + 2];
    let b3 = s[i + 3];
    let r = ((b0 as u32) << 24) | ((b1 as u32) << 16) | ((b2 as u32) << 8) | (b3 as u32);
    assert(r == (b0 * 0x1000000 + b1 * 0x10000 + b2 * 0x100 + b3) as u32) by (bit_vector)
        requires
            r == ((b0 as u32) << 24) | ((b1 as u32) << 16) | ((b2 as u32) << 8) | (b3 as u32),
    ;
    r
}

fn get_be16(s: &[u8], i: usize) -> (r: u16)
    requires
        i + 2 <= s@.len(),
    ensures
        r == read_be16(s@, i as int),
{
    let b0 = s[i];
    let b1 = s[i + 1];
    let r = ((b0 as u16) << 8) | (b1 as u16);
    assert(r == (b0 * 0x100 + b1) as u16) by (bit_vector)
        requires
            r == ((b0 as u16) << 8) | (b1 as u16),
    ;
    r
}

fn push_all(buf: &mut Vec<u8>, bytes: &[u8])
    ensures
        final(buf)@ == old(buf)@ + bytes@,
{
    let mut i: usize = 0;
    while i < bytes.len()
        invariant
            i <= bytes.len(),
            buf@ == old(buf)@ + bytes@.subrange(0, i as int),
        decreases bytes.len() - i,
    {
        buf.push(bytes[i]);
        i += 1;
        assert(buf@ =~= old(buf)@ + bytes@.subrange(0, i as int));
    }
    assert(bytes@.subrange(0, bytes.len() as int) =~= bytes@);
}

impl Message {
    /// The bytes of this message on the wire.
    pub fn to_bytes(&self) -> (r: Vec<u8>)
        requires
            message_fits(self@),
        ensures
            r@ == message_bytes(self@),
    {
        let mut buf: Vec<u8> = Vec::new();
        match self {
            Message::KeepAlive => {
                push_be32(&mut buf, 0);
            },
            Message::Choke => {
                push_be32(&mut buf, 1);
                buf.push(0);
            },
            Message::Unchoke => {
                push_be32(&mut buf, 1);
                buf.push(1);
            },
            Message::Interested => {
                push_be32(&mut buf, 1);
                buf.push(2);
            },
            Message::NotInterested => {
                push_be32(&mut buf, 1);
                buf.push(3);
            },
            Message::Have { index } => {
                push_be32(&mut buf, 5);
                buf.push(4);
                push_be32(&mut buf, *index);
            },
            Message::Bitfield { bitfield } => {
                push_be32(&mut buf, (1 + bitfield.len()) as u32);
                buf.push(5);
                push_all(&mut buf, bitfield.as_slice());
            },
            Message::Request { index, begin, length } => {
                push_be32(&mut buf, 13);
                buf.push(6);
                push_be32(&mut buf, *index);
                push_be32(&mut buf, *begin);
                push_be32(&mut buf, *length);
            },
            Message::Piece { index, begin, block } => {
                push_be32(&mut buf, (9 + block.len()) as u32);
                buf.push(7);
                push_be32(&mut buf, *index);
                push_be32(&mut buf, *begin);
                push_all(&mut buf, block.as_slice());
            },
            Message::Cancel { index, begin, length } => {
                push_be32(&mut buf, 13);
                buf.push(8);
                push_be32(&mut buf, *index);
                push_be32(&mut buf, *begin);
                push_be32(&mut buf, *length);
            },
            Message::Port { port } => {
                push_be32(&mut buf, 3);
                buf.push(9);
                push_be16(&mut buf, *port);
            },
        }
        assert(buf@ =~= message_bytes(self@));
        buf
    }

    /// The payload length announced by a 4-byte prefix.
    pub fn payload_length(prefix: [u8; 4]) -> (r: u32)
        ensures
            r == read_be32(prefix@, 0),
    {
        get_be32(prefix.as_slice(), 0)
    }

    /// Reads one message from the start of `bytes`.
    pub fn from_bytes(bytes: &[u8]) -> (r: Result<Message, MessageErr>)
        ensures
            match r {
                Ok(m) => parse_message(bytes@) == Ok::<MessageView, MessageErr>(m@),
                Err(e) => parse_message(bytes@) matches Err(f) && (
                    (e is InvalidMessageLength && f is InvalidMessageLength)
                    || (e is InvalidMessageId && f is InvalidMessageId)
                    || (e is MissingPayload && f is MissingPayload)
                    || (e is InvalidPayload && f is InvalidPayload)),
            },
    {
        let ghost s = bytes@;
        if bytes.len() < 4 {
            return Err(MessageErr::InvalidMessageLength);
        }
        let length = get_be32(bytes, 0);
        if length == 0 {
            return Ok(Message::KeepAlive);
        }
        if bytes.len() < 5 {
            return Err(MessageErr::InvalidMessageLength);
        }
        let id = bytes[4];
        let kind = match MessageId::try_from(id) {
            Ok(kind) => kind,
            Err(e) => {
                return Err(e);
            },
        };
        if bytes.len() - 4 < length as usize {
            return Err(MessageErr::InvalidMessageLength);
        }
        let end = 4 + length as usize;
        let payload = &bytes[5..end];
        let ghost p = s.subrange(5, end as int);
        assert(payload@ == p);
        match kind {
            MessageId::Choke | MessageId::Unchoke | MessageId::Interested
            | MessageId::NotInterested => {
                if length != 1 {
                    return Err(MessageErr::InvalidPayload);
                }
                match kind {
                    MessageId::Choke => Ok(Message::Choke),
                    MessageId::Unchoke => Ok(Message::Unchoke),
                    MessageId::Interested => Ok(Message::Interested),
                    _ => Ok(Message::NotInterested),
                }
            },
            MessageId::Bitfield => {
                let mut bitfield: Vec<u8> = Vec::new();
                push_all(&mut bitfield, payload);
                assert(bitfield@ =~= p);
                Ok(Message::Bitfield { bitfield })
            },
            _ => {
                if length == 1 {
                    return Err(MessageErr::MissingPayload);
                }
                match kind {
                    MessageId::Have => {
                        if length != 5 {
                            return Err(MessageErr::InvalidPayload);
                        }
                        Ok(Message::Have { index: get_be32(payload, 0) })
                    },
                    MessageId::Request | MessageId::Cancel => {
                        if length != 13 {
                            return Err(MessageErr::InvalidPayload);
                        }
                        let index = get_be32(payload, 0);
                        let begin = get_be32(payload, 4);
                        let len = get_be32(payload, 8);
                        match kind {
                            MessageId::Request => Ok(
                                Message::Request { index, begin, length: len },
                            ),
                            _ => Ok(Message::Cancel { index, begin, length: len }),
                        }
                    },
                    MessageId::Piece => {
                        if length < 9 {
                            return Err(MessageErr::InvalidPayload);
                        }
                        let index = get_be32(payload, 0);
                        let begin = get_be32(payload, 4);
                        let mut block: Vec<u8> = Vec::new();
                        push_all(&mut block, &payload[8..payload.len()]);
                        assert(block@ =~= p.subrange(8, p.len() as int));
                        Ok(Message::Piece { index, begin, block })
                    },
                    _ => {
                        if length != 3 {
                            return Err(MessageErr::InvalidPayload);
                        }
                        Ok(Message::Port { port: get_be16(payload, 0) })
                    },
                }
            },
        }
    }
}

/// Reading back the bytes of a message whose length prefix fits gives the same message.
pub proof fn lemma_message_round_trip(m: MessageView)
    requires
        message_fits(m),
    ensures
        parse_message(message_bytes(m)) == Ok::<MessageView, MessageErr>(m),
{
    let s = message_bytes(m);
    lemma_be32(0);
    lemma_be32(1);
    lemma_be32(3);
    lemma_be32(5);
    lemma_be32(13);
    match m {
        MessageView::KeepAlive => {},
        MessageView::Have { index } => {
            lemma_be32(index);
            let p = s.subrange(5, 9);
            assert(p =~= be32(index));
        },
        MessageView::Bitfield { bitfield } => {
            lemma_be32((1 + bitfield.len()) as u32);
            assert(s.subrange(5, 5 + bitfield.len() as int) =~= bitfield);
        },
        MessageView::Request { index, begin, length } => {
            let p = s.subrange(5, 17);
            assert(p =~= be32(index) + be32(begin) + be32(length));
            lemma_be32(index);
            lemma_be32(begin);
            lemma_be32(length);
            lemma_read_be32_shift(be32(index), p, 0);
            lemma_read_be32_shift(be32(begin), p, 4);
            lemma_read_be32_shift(be32(length), p, 8);
        },
        MessageView::Cancel { index, begin, length } => {
            let p = s.subrange(5, 17);
            assert(p =~= be32(index) + be32(begin) + be32(length));
            lemma_be32(index);
            lemma_be32(begin);
            lemma_be32(length);
            lemma_read_be32_shift(be32(index), p, 0);
            lemma_read_be32_shift(be32(begin), p, 4);
            lemma_read_be32_shift(be32(length), p, 8);
        },
        MessageView::Piece { index, begin, block } => {
            let n = (9 + block.len()) as u32;
            lemma_be32(n);
            let p = s.subrange(5, 4 + n);
            assert(p =~= be32(index) + be32(begin) + block);
            lemma_be32(index);
            lemma_be32(begin);
            lemma_read_be32_shift(be32(index), p, 0);
            lemma_read_be32_shift(be32(begin), p, 4);
            assert(p.subrange(8, p.len() as int) =~= block);
        },
        MessageView::Port { port } => {
            let p = s.subrange(5, 7);
            assert(p =~= be16(port));
            assert(read_be16(be16(port), 0) == port) by (nonlinear_arith);
        },
        _ => {},
    }
}

} // verus!
