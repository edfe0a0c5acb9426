use vstd::prelude::*;
use vstd::string::StringSliceAdditionalSpecFns;
use crate::bencode::{BencodeParseErr, BencodeType, decode_spec, decode_to_vec, describes};
use crate::meta_info::{FromBencodeTypeErr, MetaInfo, meta_describes, meta_fault, meta_matches};

verus! {

/// The file name suffix of a torrent file.
pub const TORRENT_SUFFIX: &'static str = ".torrent";

#[derive(Debug)]
pub enum TorrentErr {
    IoErr(std::io::Error),
    BencodeParseErr(BencodeParseErr),
    FromBencodeTypeErr(FromBencodeTypeErr),
    InvalidFile(String),
}

/// Reads the metadata of a torrent file's contents: the first value must be a dictionary.
pub fn parse_torrent(contents: &[u8], path: &str) -> (r: Result<MetaInfo, TorrentErr>)
    ensures
        match decode_spec(contents@) {
            Err(f) => r matches Err(TorrentErr::BencodeParseErr(e)) && describes(e, f),
            Ok(values) => if values.len() > 0 && values[0] is Dict {
                match meta_fault(values[0]->Dict_0) {
                    Some(f) => r matches Err(TorrentErr::FromBencodeTypeErr(e)) && meta_describes(e, f),
                    None => r matches Ok(m) && meta_matches(m, values[0]->Dict_0),
                }
            } else {
                r matches Err(TorrentErr::InvalidFile(p)) && p@ == path@
            },
        },
{
    let values = match decode_to_vec(contents) {
        Ok(v) => v,
        Err(e) => {
            return Err(TorrentErr::BencodeParseErr(e));
        },
    };
    proof {
        crate::bencode::lemma_view_list_index(values@);
    }
    if values.len() == 0 {
        return Err(TorrentErr::InvalidFile(path.to_owned()));
    }
    match &values[0] {
        BencodeType::Dictionary(map) => match MetaInfo::try_from(map) {
            Ok(m) => Ok(m),
            Err(e) => Err(TorrentErr::FromBencodeTypeErr(e)),
        },
        _ => Err(TorrentErr::InvalidFile(path.to_owned())),
    }
}

/// Whether a path names a torrent file (rather than a magnet link): it ends in `.torrent`.
pub fn is_torrent_file(path: &str) -> (r: bool)
    ensures
        r == (path.spec_bytes().len() >= TORRENT_SUFFIX.spec_bytes().len() && path.spec_bytes().subrange(
            path.spec_bytes().len() - TORRENT_SUFFIX.spec_bytes().len(),
            path.spec_bytes().len() as int,
        ) == TORRENT_SUFFIX.spec_bytes()),
{
    let p = path.as_bytes();
    let suffix = TORRENT_SUFFIX.as_bytes();
    if p.len() < suffix.len() {
        return false;
    }
    let start = p.len() - suffix.len();
    crate::byte_order::bytes_equal(&p[start..p.len()], suffix)
}

} // verus!
