use vstd::prelude::*;
use vstd::string::StringSliceAdditionalSpecFns;
use crate::bencode::{BencodeMap, BencodeMapDecoder, BencodeParseErr, as_dict_list, as_int, as_text, dict_lookup, parse_dict, BValue, describes};
use crate::meta_info::{FileLayout, FromBencodeTypeErr, MetaFault, MetaInfo, meta_describes};
use crate::peer::{Peer, first_peer_fault, peer_matches};

verus! {

pub const INTERVAL_KEY: &'static str = "interval";
pub const PEERS_KEY: &'static str = "peers";
pub const FAILURE_REASON_KEY: &'static str = "failure reason";
pub const MISSING_INTERVAL: &'static str = "Missing interval value from tracker response";
pub const MISSING_PEERS: &'static str = "Missing peers value from tracker response";

/// Our client's peer-id.
pub const CLIENT_PEER_ID: &'static str = "-RB0001-000000000001";
/// The port we announce.
pub const LISTEN_PORT: u16 = 6881;

/// The event an announce reports.
#[derive(Debug, Clone, Copy, PartialEq, Eq)]
pub enum TrackerEvent {
    Started,
    Completed,
    Stopped,
}

impl TrackerEvent {
    /// The query-string value of the event.
    pub fn name(&self) -> (r: &'static str)
        ensures
            *self is Started ==> r@ == "started"@,
            *self is Completed ==> r@ == "completed"@,
            *self is Stopped ==> r@ == "stopped"@,
    {
        match self {
            TrackerEvent::Started => "started",
            TrackerEvent::Completed => "completed",
            TrackerEvent::Stopped => "stopped",
        }
    }
}

/// The parameters of an announce, besides the info-hash.
#[derive(Debug, Clone)]
pub struct GetRequest {
    pub peer_id: String,
    pub ip: Option<String>,
    pub port: u16,
    pub uploaded: i64,
    pub downloaded: i64,
    pub left: i64,
    pub event: Option<TrackerEvent>,
}

/// A tracker's answer.
#[derive(Debug)]
pub enum GetResponse {
    Success { interval: i64, peers: Vec<Peer> },
    Failure(String),
}

#[derive(Debug)]
pub enum TrackerErr {
    InvalidMetaInfo,
    BencodeParseErr(BencodeParseErr),
    FromBencodeTypeErr(FromBencodeTypeErr),
    TrackerError(String),
}

impl GetRequest {
    /// A first announce for a single-file torrent: nothing uploaded or downloaded, the whole
    /// length left. A multi-file torrent has no `left` defined and is rejected.
    pub fn try_from(meta_info: &MetaInfo, event: TrackerEvent) -> (r: Result<GetRequest, TrackerErr>)
        ensures
            match meta_info.info.file_layout {
                FileLayout::SingleFile { length } => r matches Ok(q) && q.peer_id@ == CLIENT_PEER_ID@
                    && q.ip is None && q.port == LISTEN_PORT && q.uploaded == 0 && q.downloaded == 0
                    && q.left == length && q.event == Some(event),
                FileLayout::MultiFile { .. } => r matches Err(e) && e is InvalidMetaInfo,
            },
    {
        let left = match &meta_info.info.file_layout {
            FileLayout::SingleFile { length } => *length,
            FileLayout::MultiFile { .. } => {
                return Err(TrackerErr::InvalidMetaInfo);
            },
        };
        Ok(GetRequest {
            peer_id: CLIENT_PEER_ID.to_owned(),
            ip: None,
            port: LISTEN_PORT,
            uploaded: 0,
            downloaded: 0,
            left,
            event: Some(event),
        })
    }
}

/// A byte that form encoding leaves as it is: `*`, `-`, `.`, `_`, digits and ASCII letters.
pub open spec fn form_unchanged(b: u8) -> bool {
    b == 42 || b == 45 || b == 46 || b == 95 || (48 <= b <= 57) || (65 <= b <= 90) || (97 <= b
        <= 122)
}

/// An upper-case hexadecimal digit.
pub open spec fn hex_digit(d: u8) -> char {
    if d < 10 {
        ((48 + d) as u8) as char
    } else {
        ((55 + d) as u8) as char
    }
}

/// The `application/x-www-form-urlencoded` form of one byte.
pub open spec fn form_byte(b: u8) -> Seq<char> {
    if form_unchanged(b) {
        seq![b as char]
    } else if b == 32 {
        seq!['+']
    } else {
        seq!['%', hex_digit(b / 16), hex_digit(b % 16)]
    }
}

/// The `application/x-www-form-urlencoded` form of a byte string.
pub open spec fn form_encoded(s: Seq<u8>) -> Seq<char>
    decreases s.len(),
{
    if s.len() == 0 {
        Seq::empty()
    } else {
        form_byte(s[0]) + form_encoded(s.subrange(1, s.len() as int))
    }
}

/// Relies on url's `form_urlencoded::byte_serialize`: it leaves `*-._`, digits and ASCII letters
/// as they are, writes a space as `+` and every other byte as `%` with two upper-case hex digits.
#[verifier::external_body]
fn form_urlencode(bytes: &[u8]) -> (r: String)
    ensures
        r@ == form_encoded(bytes@),
{
    url::form_urlencoded::byte_serialize(bytes).collect::<String>()
}

/// The announce URL: the tracker's address, then `query` (the request's parameters) and the
/// form-encoded info-hash. A torrent without an announce address is rejected.
pub fn construct_get_url(meta_info: &MetaInfo, query: &str) -> (r: Result<String, TrackerErr>)
    ensures
        match meta_info.announce {
            Some(a) => r matches Ok(u) && u@ == a@ + "?"@ + query@ + "&info_hash="@ + form_encoded(
                meta_info.hash@,
            ),
            None => r matches Err(e) && e is InvalidMetaInfo,
        },
{
    let announce = match &meta_info.announce {
        Some(a) => a,
        None => {
            return Err(TrackerErr::InvalidMetaInfo);
        },
    };
    let mut url = announce.clone();
    url.append("?");
    url.append(query);
    url.append("&info_hash=");
    let hash = form_urlencode(meta_info.hash.as_slice());
    url.append(hash.as_str());
    Ok(url)
}

/// Why a tracker response was rejected (when it is not a failure report).
pub open spec fn response_fault(d: Seq<(Seq<u8>, BValue)>) -> Option<MetaFault> {
    let peers = as_dict_list(dict_lookup(d, PEERS_KEY.spec_bytes()));
    if as_text(dict_lookup(d, FAILURE_REASON_KEY.spec_bytes())) is Some {
        None
    } else if as_int(dict_lookup(d, INTERVAL_KEY.spec_bytes())) is None {
        Some(MetaFault::Missing(MISSING_INTERVAL@))
    } else if peers is None {
        Some(MetaFault::Missing(MISSING_PEERS@))
    } else {
        first_peer_fault(peers->Some_0)
    }
}

/// `g` is what the response dictionary `d` says: its failure reason when it has one, otherwise
/// its interval and its peers.
pub open spec fn response_matches(g: GetResponse, d: Seq<(Seq<u8>, BValue)>) -> bool {
    match g {
        GetResponse::Failure(m) => as_text(dict_lookup(d, FAILURE_REASON_KEY.spec_bytes())) == Some(m@),
        GetResponse::Success { interval, peers } => {
            &&& as_text(dict_lookup(d, FAILURE_REASON_KEY.spec_bytes())) is None
            &&& as_int(dict_lookup(d, INTERVAL_KEY.spec_bytes())) == Some(interval as int)
            &&& as_dict_list(dict_lookup(d, PEERS_KEY.spec_bytes())) matches Some(ps) && peers@.len()
                == ps.len() && forall|i: int| 0 <= i < ps.len() ==> #[trigger] peer_matches(peers@[i], ps[i])
        },
    }
}

impl GetResponse {
    /// Decodes a tracker response: a failure report, or an interval and a list of peers.
    pub fn try_from(bencode_map: &BencodeMap) -> (r: Result<GetResponse, FromBencodeTypeErr>)
        ensures
            match response_fault(bencode_map@) {
                Some(f) => r matches Err(e) && meta_describes(e, f),
                None => r matches Ok(g) && response_matches(g, bencode_map@),
            },
    {
        if let Some(reason) = bencode_map.get_text(FAILURE_REASON_KEY.as_bytes()) {
            return Ok(GetResponse::Failure(reason));
        }
        let interval = match bencode_map.get_int(INTERVAL_KEY.as_bytes()) {
            Some(x) => x,
            None => {
                return Err(FromBencodeTypeErr::MissingValue(MISSING_INTERVAL.to_owned()));
            },
        };
        let maps = match bencode_map.get_dictionary_list(PEERS_KEY.as_bytes()) {
            Some(m) => m,
            None => {
                return Err(FromBencodeTypeErr::MissingValue(MISSING_PEERS.to_owned()));
            },
        };
        let ghost ps = as_dict_list(dict_lookup(bencode_map@, PEERS_KEY.spec_bytes()))->Some_0;
        assert(ps.subrange(0, ps.len() as int) =~= ps);
        let mut peers: Vec<Peer> = Vec::new();
        let mut i: usize = 0;
        while i < maps.len()
            invariant
                i <= maps.len(),
                maps@.len() == ps.len(),
                forall|j: int| 0 <= j < ps.len() ==> #[trigger] maps@[j]@ == ps[j],
                peers@.len() == i,
                forall|j: int| 0 <= j < i ==> #[trigger] peer_matches(peers@[j], ps[j]),
                response_fault(bencode_map@) == first_peer_fault(ps.subrange(i as int, ps.len() as int)),
            decreases maps.len() - i,
        {
            let ghost rest = ps.subrange(i as int, ps.len() as int);
            assert(rest[0] == ps[i as int]);
            match Peer::try_from(&maps[i]) {
                Ok(p) => {
                    peers.push(p);
                },
                Err(e) => {
                    return Err(e);
                },
            }
            assert(rest.subrange(1, rest.len() as int) =~= ps.subrange(i + 1, ps.len() as int));
            i += 1;
        }
        Ok(GetResponse::Success { interval, peers })
    }
}

/// Decodes the body of a tracker's answer.
pub fn parse_announce_response(body: &[u8]) -> (r: Result<GetResponse, TrackerErr>)
    ensures
        parse_dict(body@, 0) is Err ==> (r matches Err(TrackerErr::BencodeParseErr(e)) && describes(
            e,
            parse_dict(body@, 0)->Err_0,
        )),
        parse_dict(body@, 0) matches Ok((BValue::Dict(d), _)) ==> match response_fault(d) {
            Some(f) => r matches Err(TrackerErr::FromBencodeTypeErr(e)) && meta_describes(e, f),
            None => r matches Ok(g) && response_matches(g, d),
        },
{
    let map = match BencodeMap::try_decode(body) {
        Ok(m) => m,
        Err(e) => {
            return Err(TrackerErr::BencodeParseErr(e));
        },
    };
    match GetResponse::try_from(&map) {
        Ok(res) => Ok(res),
        Err(e) => Err(TrackerErr::FromBencodeTypeErr(e)),
    }
}

} // verus!
