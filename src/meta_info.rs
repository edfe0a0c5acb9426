use vstd::prelude::*;
use vstd::string::StringSliceAdditionalSpecFns;
use crate::bencode::{
    BValue, BencodeGetErr, BencodeMap, BencodeMapEncoder, as_bytes, as_dict, as_dict_list, as_int,
    as_text, as_text_list, dict_lookup, encode_value,
};
use crate::hash::{sha1_digest, sha1_of};

verus! {

pub const ANNOUNCE_KEY: &'static str = "announce";
pub const INFO_KEY: &'static str = "info";
pub const NODES_KEY: &'static str = "nodes";
pub const ANNOUNCE_LIST_KEY: &'static str = "announce-list";
pub const URL_LIST_KEY: &'static str = "url-list";
pub const NAME_KEY: &'static str = "name";
pub const PIECE_LENGTH_KEY: &'static str = "piece length";
pub const PIECES_KEY: &'static str = "pieces";
pub const LENGTH_KEY: &'static str = "length";
pub const FILES_KEY: &'static str = "files";
pub const PRIVATE_KEY: &'static str = "private";
pub const PATH_KEY: &'static str = "path";
pub const LAYOUT_FIELDS: &'static str = "length and files";
pub const SOURCE_REQUIRED: &'static str =
    "announce, nodes, announce_list, or url_list key required for MetaInfo";

pub const HASH_SIZE: usize = 20;

#[derive(Debug)]
pub enum FromBencodeTypeErr {
    MissingValue(String),
    InvalidValue(String),
    BencodeGetErr(BencodeGetErr),
}

/// Torrent metadata decoded from the top-level dictionary of a torrent file.
#[derive(Debug, Clone)]
pub struct MetaInfo {
    pub announce: Option<String>,
    pub info: TorrentInfo,
    pub nodes: Option<Vec<String>>,
    pub announce_list: Option<Vec<String>>,
    pub url_list: Option<Vec<String>>,
    pub hash: [u8; 20],
}

/// The `info` dictionary of a torrent.
#[derive(Debug, Clone)]
pub struct TorrentInfo {
    pub name: String,
    pub piece_length: i64,
    pub pieces: Vec<u8>,
    pub file_layout: FileLayout,
    pub private: Option<i64>,
}

#[derive(Debug, Clone)]
pub enum FileLayout {
    SingleFile { length: i64 },
    MultiFile { files: Vec<FileInfo> },
}

/// One file of a multi-file torrent: its length and its path components.
#[derive(Debug, Clone)]
pub struct FileInfo {
    pub length: i64,
    pub path: Vec<String>,
}

/// Why metadata was rejected, with the text of the error.
pub enum MetaFault {
    Missing(Seq<char>),
    Invalid(Seq<char>),
}

pub open spec fn meta_describes(e: FromBencodeTypeErr, f: MetaFault) -> bool {
    match f {
        MetaFault::Missing(t) => e matches FromBencodeTypeErr::MissingValue(s) && s@ == t,
        MetaFault::Invalid(t) => e matches FromBencodeTypeErr::InvalidValue(s) && s@ == t,
    }
}

/// The entry of `d` under the key written by `k`.
pub open spec fn field(d: Seq<(Seq<u8>, BValue)>, k: &str) -> Option<BValue> {
    dict_lookup(d, k.spec_bytes())
}

pub open spec fn texts_match(v: Seq<String>, t: Seq<Seq<char>>) -> bool {
    v.len() == t.len() && forall|i: int| 0 <= i < t.len() ==> #[trigger] v[i]@ == t[i]
}

pub open spec fn opt_text_matches(v: Option<String>, t: Option<Seq<char>>) -> bool {
    match v {
        Some(s) => t == Some(s@),
        None => t is None,
    }
}

pub open spec fn opt_texts_match(v: Option<Vec<String>>, t: Option<Seq<Seq<char>>>) -> bool {
    match v {
        Some(s) => t matches Some(x) && texts_match(s@, x),
        None => t is None,
    }
}

pub open spec fn file_fault(d: Seq<(Seq<u8>, BValue)>) -> Option<MetaFault> {
    if as_int(field(d, LENGTH_KEY)) is None {
        Some(MetaFault::Missing(LENGTH_KEY@))
    } else if as_text_list(field(d, PATH_KEY)) is None {
        Some(MetaFault::Missing(PATH_KEY@))
    } else {
        None
    }
}

pub open spec fn file_matches(f: FileInfo, d: Seq<(Seq<u8>, BValue)>) -> bool {
    &&& as_int(field(d, LENGTH_KEY)) == Some(f.length as int)
    &&& as_text_list(field(d, PATH_KEY)) matches Some(t) && texts_match(f.path@, t)
}

/// The fault of the first file that fails to decode.
pub open spec fn files_fault(fs: Seq<Seq<(Seq<u8>, BValue)>>) -> Option<MetaFault>
    decreases fs.len(),
{
    if fs.len() == 0 {
        None
    } else if file_fault(fs[0]) is Some {
        file_fault(fs[0])
    } else {
        files_fault(fs.subrange(1, fs.len() as int))
    }
}

/// The first check that an `info` dictionary fails, if any.
pub open spec fn info_fault(d: Seq<(Seq<u8>, BValue)>) -> Option<MetaFault> {
    let piece_length = as_int(field(d, PIECE_LENGTH_KEY));
    let pieces = as_bytes(field(d, PIECES_KEY));
    let length = as_int(field(d, LENGTH_KEY));
    let files = as_dict_list(field(d, FILES_KEY));
    if as_text(field(d, NAME_KEY)) is None {
        Some(MetaFault::Missing(NAME_KEY@))
    } else if piece_length is None {
        Some(MetaFault::Missing(PIECE_LENGTH_KEY@))
    } else if pieces is None {
        Some(MetaFault::Missing(PIECES_KEY@))
    } else if piece_length->Some_0 <= 0 {
        Some(MetaFault::Invalid(PIECE_LENGTH_KEY@))
    } else if pieces->Some_0.len() % 20 != 0 {
        Some(MetaFault::Invalid(PIECES_KEY@))
    } else if length is Some && files is None {
        None
    } else if length is None && files is Some {
        files_fault(files->Some_0)
    } else {
        Some(MetaFault::Invalid(LAYOUT_FIELDS@))
    }
}

/// `info` holds what the dictionary `d` says.
pub open spec fn info_matches(info: TorrentInfo, d: Seq<(Seq<u8>, BValue)>) -> bool {
    &&& as_text(field(d, NAME_KEY)) == Some(info.name@)
    &&& as_int(field(d, PIECE_LENGTH_KEY)) == Some(info.piece_length as int)
    &&& as_bytes(field(d, PIECES_KEY)) == Some(info.pieces@)
    &&& match info.private {
        Some(x) => as_int(field(d, PRIVATE_KEY)) == Some(x as int),
        None => as_int(field(d, PRIVATE_KEY)) is None,
    }
    &&& match info.file_layout {
        FileLayout::SingleFile { length } => as_int(field(d, LENGTH_KEY)) == Some(length as int)
            && as_dict_list(field(d, FILES_KEY)) is None,
        FileLayout::MultiFile { files } => {
            &&& as_int(field(d, LENGTH_KEY)) is None
            &&& as_dict_list(field(d, FILES_KEY)) matches Some(fs) && files@.len() == fs.len()
                && forall|i: int| 0 <= i < fs.len() ==> #[trigger] file_matches(files@[i], fs[i])
        },
    }
}

/// The first check that a metadata dictionary fails, if any.
pub open spec fn meta_fault(d: Seq<(Seq<u8>, BValue)>) -> Option<MetaFault> {
    if as_text(field(d, ANNOUNCE_KEY)) is None && as_text_list(field(d, NODES_KEY)) is None
        && as_text_list(field(d, ANNOUNCE_LIST_KEY)) is None && as_text_list(
        field(d, URL_LIST_KEY),
    ) is None {
        Some(MetaFault::Missing(SOURCE_REQUIRED@))
    } else if as_dict(field(d, INFO_KEY)) is None {
        Some(MetaFault::Missing(INFO_KEY@))
    } else {
        info_fault(as_dict(field(d, INFO_KEY))->Some_0)
    }
}

/// `m` holds what the dictionary `d` says; its hash is the SHA-1 of the canonical encoding of
/// the `info` dictionary.
pub open spec fn meta_matches(m: MetaInfo, d: Seq<(Seq<u8>, BValue)>) -> bool {
    &&& opt_text_matches(m.announce, as_text(field(d, ANNOUNCE_KEY)))
    &&& opt_texts_match(m.nodes, as_text_list(field(d, NODES_KEY)))
    &&& opt_texts_match(m.announce_list, as_text_list(field(d, ANNOUNCE_LIST_KEY)))
    &&& opt_texts_match(m.url_list, as_text_list(field(d, URL_LIST_KEY)))
    &&& as_dict(field(d, INFO_KEY)) matches Some(info) && info_matches(m.info, info)
        && m.hash@ == sha1_of(encode_value(BValue::Dict(info)))
}

impl FileInfo {
    /// Decodes one entry of `files`.
    pub fn try_from(bencode_map: &BencodeMap) -> (r: Result<FileInfo, FromBencodeTypeErr>)
        ensures
            match file_fault(bencode_map@) {
                Some(f) => r matches Err(e) && meta_describes(e, f),
                None => r matches Ok(fi) && file_matches(fi, bencode_map@),
            },
    {
        let length = match bencode_map.get_int(LENGTH_KEY.as_bytes()) {
            Some(x) => x,
            None => {
                return Err(FromBencodeTypeErr::MissingValue(LENGTH_KEY.to_owned()));
            },
        };
        let path = match bencode_map.get_text_list(PATH_KEY.as_bytes()) {
            Some(p) => p,
            None => {
                return Err(FromBencodeTypeErr::MissingValue(PATH_KEY.to_owned()));
            },
        };
        Ok(FileInfo { length, path })
    }
}

impl TorrentInfo {
    /// Decodes an `info` dictionary.
    pub fn try_from(bencode_map: &BencodeMap) -> (r: Result<TorrentInfo, FromBencodeTypeErr>)
        ensures
            match info_fault(bencode_map@) {
                Some(f) => r matches Err(e) && meta_describes(e, f),
                None => r matches Ok(info) && info_matches(info, bencode_map@),
            },
    {
        let ghost d = bencode_map@;
        let name = match bencode_map.get_text(NAME_KEY.as_bytes()) {
            Some(x) => x,
            None => {
                return Err(FromBencodeTypeErr::MissingValue(NAME_KEY.to_owned()));
            },
        };
        let piece_length = match bencode_map.get_int(PIECE_LENGTH_KEY.as_bytes()) {
            Some(x) => x,
            None => {
                return Err(FromBencodeTypeErr::MissingValue(PIECE_LENGTH_KEY.to_owned()));
            },
        };
        let pieces = match bencode_map.get_bytes(PIECES_KEY.as_bytes()) {
            Some(x) => x,
            None => {
                return Err(FromBencodeTypeErr::MissingValue(PIECES_KEY.to_owned()));
            },
        };
        if piece_length <= 0 {
            return Err(FromBencodeTypeErr::InvalidValue(PIECE_LENGTH_KEY.to_owned()));
        }
        if pieces.len() % HASH_SIZE != 0 {
            return Err(FromBencodeTypeErr::InvalidValue(PIECES_KEY.to_owned()));
        }
        let private = bencode_map.get_int(PRIVATE_KEY.as_bytes());
        let length = bencode_map.get_int(LENGTH_KEY.as_bytes());
        let files = bencode_map.get_dictionary_list(FILES_KEY.as_bytes());
        let file_layout = match (length, files) {
            (Some(len), None) => FileLayout::SingleFile { length: len },
            (None, Some(maps)) => {
                let ghost fs = as_dict_list(field(d, FILES_KEY))->Some_0;
                assert(info_fault(d) == files_fault(fs));
                assert(fs.subrange(0, fs.len() as int) =~= fs);
                let mut out: Vec<FileInfo> = Vec::new();
                let mut i: usize = 0;
                while i < maps.len()
                    invariant
                        i <= maps.len(),
                        d == bencode_map@,
                        info_fault(d) == files_fault(fs),
                        maps@.len() == fs.len(),
                        forall|j: int| 0 <= j < fs.len() ==> #[trigger] maps@[j]@ == fs[j],
                        out@.len() == i,
                        forall|j: int| 0 <= j < i ==> #[trigger] file_matches(out@[j], fs[j]),
                        files_fault(fs) == files_fault(fs.subrange(i as int, fs.len() as int)),
                    decreases maps.len() - i,
                {
                    let ghost rest = fs.subrange(i as int, fs.len() as int);
                    assert(rest[0] == fs[i as int]);
                    match FileInfo::try_from(&maps[i]) {
                        Ok(fi) => {
                            out.push(fi);
                        },
                        Err(e) => {
                            return Err(e);
                        },
                    }
                    assert(rest.subrange(1, rest.len() as int) =~= fs.subrange(
                        i + 1,
                        fs.len() as int,
                    ));
                    i += 1;
                }
                assert(fs.subrange(fs.len() as int, fs.len() as int) =~= Seq::<
                    Seq<(Seq<u8>, BValue)>,
                >::empty());
                FileLayout::MultiFile { files: out }
            },
            _ => {
                return Err(FromBencodeTypeErr::InvalidValue(LAYOUT_FIELDS.to_owned()));
            },
        };
        Ok(TorrentInfo { name, piece_length, pieces, file_layout, private })
    }

    /// The expected SHA-1 digest of piece `piece_index`.
    pub fn get_piece_hash(&self, piece_index: usize) -> (r: Option<[u8; 20]>)
        ensures
            (piece_index + 1) * 20 <= self.pieces@.len() ==> (r matches Some(h) && h@
                == self.pieces@.subrange(piece_index * 20, piece_index * 20 + 20)),
            (piece_index + 1) * 20 > self.pieces@.len() ==> r is None,
    {
        if piece_index >= self.pieces.len() / HASH_SIZE {
            return None;
        }
        let start = piece_index * HASH_SIZE;
        Some(digest_at(&self.pieces, start))
    }

    /// The expected SHA-1 digests of all pieces, in order.
    pub fn get_piece_hashes(&self) -> (r: Vec<[u8; 20]>)
        ensures
            r@.len() == self.pieces@.len() / 20,
            forall|i: int|
                0 <= i < r@.len() ==> #[trigger] r@[i]@ == self.pieces@.subrange(i * 20, i * 20 + 20),
    {
        let len = self.pieces.len();
        let n = len / HASH_SIZE;
        let mut r: Vec<[u8; 20]> = Vec::new();
        let mut i: usize = 0;
        while i < n
            invariant
                i <= n,
                len == self.pieces@.len(),
                n == len / 20,
                r@.len() == i,
                forall|j: int|
                    0 <= j < i ==> #[trigger] r@[j]@ == self.pieces@.subrange(j * 20, j * 20 + 20),
            decreases n - i,
        {
            assert(i * 20 + 20 <= len) by (nonlinear_arith)
                requires
                    i < n,
                    n == len / 20,
            ;
            r.push(digest_at(&self.pieces, i * HASH_SIZE));
            i += 1;
        }
        r
    }
}

fn digest_at(bytes: &Vec<u8>, start: usize) -> (r: [u8; 20])
    requires
        start + 20 <= bytes@.len(),
    ensures
        r@ == bytes@.subrange(start as int, start + 20),
{
    let mut r: [u8; 20] = [0u8; 20];
    let mut i: usize = 0;
    while i < 20
        invariant
            i <= 20,
            start + 20 <= bytes.len(),
            r@.len() == 20,
            forall|j: int| 0 <= j < i ==> #[trigger] r@[j] == bytes@[start + j],
        decreases 20 - i,
    {
        r[i] = bytes[start + i];
        i += 1;
    }
    assert(r@ =~= bytes@.subrange(start as int, start + 20));
    r
}

impl MetaInfo {
    /// Decodes torrent metadata; the hash is the SHA-1 of the canonical encoding of `info`.
    pub fn try_from(bencode_map: &BencodeMap) -> (r: Result<MetaInfo, FromBencodeTypeErr>)
        ensures
            match meta_fault(bencode_map@) {
                Some(f) => r matches Err(e) && meta_describes(e, f),
                None => r matches Ok(m) && meta_matches(m, bencode_map@),
            },
    {
        let announce = bencode_map.get_text(ANNOUNCE_KEY.as_bytes());
        let nodes = bencode_map.get_text_list(NODES_KEY.as_bytes());
        let announce_list = bencode_map.get_text_list(ANNOUNCE_LIST_KEY.as_bytes());
        let url_list = bencode_map.get_text_list(URL_LIST_KEY.as_bytes());
        if announce.is_none() && announce_list.is_none() && nodes.is_none() && url_list.is_none() {
            return Err(FromBencodeTypeErr::MissingValue(SOURCE_REQUIRED.to_owned()));
        }
        let info = match bencode_map.get_dictionary(INFO_KEY.as_bytes()) {
            Some(m) => m,
            None => {
                return Err(FromBencodeTypeErr::MissingValue(INFO_KEY.to_owned()));
            },
        };
        let torrent_info = match TorrentInfo::try_from(&info) {
            Ok(t) => t,
            Err(e) => {
                return Err(e);
            },
        };
        let encoded = info.get_encode();
        let hash = sha1_digest(encoded.as_slice());
        Ok(MetaInfo { announce, info: torrent_info, nodes, announce_list, url_list, hash })
    }
}

} // verus!
