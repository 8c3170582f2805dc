//! The metadata file: tracker URL, piece layout, piece digests and files.

use crate::bencode::{dict_take, encode, enc, lookup, BValue};
use crate::digest::{sha1_digest, sha1_of};
use vstd::prelude::*;

verus! {

#[derive(Debug, Clone)]
pub struct Torrent {
    pub tracker_url: String,
    pub info: TorrentInfo,
}

#[derive(Debug, Clone)]
pub struct TorrentInfo {
    /// The name: the file, or the directory of the files.
    pub root: String,
    pub piece_length: u64,
    pub pieces: Vec<[u8; 20]>,
    pub files: Vec<File>,
}

#[derive(Debug, Clone)]
pub struct File {
    pub path: String,
    pub length: u64,
}

#[derive(Debug, Clone, PartialEq, Eq, Structural)]
pub enum DecodeError {
    MissingTracker,
    MissingInfo,
    MissingName,
    MissingPieceLength,
    MissingPieces,
    MissingFiles,
    BadPieceLength,
    BadPieces,
    BadFile,
    UTF8Error,
}

/// The characters that UTF-8 bytes decode to; `None` for bytes that are not
/// UTF-8.
pub uninterp spec fn utf8_of(bytes: Seq<u8>) -> Option<Seq<char>>;

/// Relies on `String::from_utf8`: the string that `bytes` encode, or an
/// error where they are not UTF-8; the outcome depends on the bytes alone.
#[verifier::external_body]
fn string_from_utf8(bytes: Vec<u8>) -> (r: Option<String>)
    ensures
        r is Some <==> utf8_of(bytes@) is Some,
        r matches Some(s) ==> utf8_of(bytes@) == Some(s@),
{
    String::from_utf8(bytes).ok()
}

pub open spec fn key_announce() -> Seq<u8> {
    seq![97u8, 110u8, 110u8, 111u8, 117u8, 110u8, 99u8, 101u8]
}

pub open spec fn key_info() -> Seq<u8> {
    seq![105u8, 110u8, 102u8, 111u8]
}

pub open spec fn key_name() -> Seq<u8> {
    seq![110u8, 97u8, 109u8, 101u8]
}

pub open spec fn key_piece_length() -> Seq<u8> {
    seq![112u8, 105u8, 101u8, 99u8, 101u8, 32u8, 108u8, 101u8, 110u8, 103u8, 116u8, 104u8]
}

pub open spec fn key_pieces() -> Seq<u8> {
    seq![112u8, 105u8, 101u8, 99u8, 101u8, 115u8]
}

pub open spec fn key_length() -> Seq<u8> {
    seq![108u8, 101u8, 110u8, 103u8, 116u8, 104u8]
}

pub open spec fn key_files() -> Seq<u8> {
    seq![102u8, 105u8, 108u8, 101u8, 115u8]
}

pub open spec fn key_path() -> Seq<u8> {
    seq![112u8, 97u8, 116u8, 104u8]
}

/// `hashes` are the consecutive 20-byte runs of `raw`.
pub open spec fn split_into_hashes(raw: Seq<u8>, hashes: Seq<[u8; 20]>) -> bool {
    &&& raw.len() == 20 * hashes.len()
    &&& forall|i: int| 0 <= i < hashes.len() ==> #[trigger] hashes[i]@ == raw.subrange(20 * i, 20 * i + 20)
}

/// A string value that decodes to `s`.
pub open spec fn is_text(v: Option<BValue>, s: Seq<char>) -> bool {
    v matches Some(BValue::Str(b)) && utf8_of(b@) == Some(s)
}

/// A non-negative integer value equal to `n`.
pub open spec fn is_count(v: Option<BValue>, n: u64) -> bool {
    v matches Some(BValue::Int(i)) && i >= 0 && i == n
}

/// A file entry: a dictionary with a string `path` and a non-negative
/// integer `length`.
pub open spec fn file_of(v: BValue, f: File) -> bool {
    v matches BValue::Dict(d) && is_text(lookup(d@, key_path()), f.path@) && is_count(
        lookup(d@, key_length()),
        f.length,
    )
}

/// What an info dictionary says, as `info` holds it.
pub open spec fn info_of(v: BValue, info: TorrentInfo) -> bool {
    &&& v matches BValue::Dict(d)
    &&& is_text(lookup(d@, key_name()), info.root@)
    &&& is_count(lookup(d@, key_piece_length()), info.piece_length)
    &&& lookup(d@, key_pieces()) matches Some(BValue::Str(p)) && split_into_hashes(
        p@,
        info.pieces@,
    )
    &&& if lookup(d@, key_length()) matches Some(BValue::Int(_)) {
        &&& info.files@.len() == 1
        &&& is_count(lookup(d@, key_length()), info.files@[0].length)
        &&& info.files@[0].path@ == info.root@
    } else {
        &&& lookup(d@, key_files()) matches Some(BValue::List(l))
        &&& l@.len() == info.files@.len()
        &&& forall|i: int| 0 <= i < l@.len() ==> file_of(#[trigger] l@[i], info.files@[i])
    }
}

/// A string value.
pub open spec fn is_str(o: Option<BValue>) -> bool {
    o is Some && o->Some_0 is Str
}

/// An integer value.
pub open spec fn is_int(o: Option<BValue>) -> bool {
    o is Some && o->Some_0 is Int
}

/// A string value whose bytes are not UTF-8.
pub open spec fn bad_text(o: Option<BValue>) -> bool {
    is_str(o) && utf8_of(o->Some_0->Str_0@) is None
}

/// The error that reading file entry `v` ends with, if any.
pub open spec fn file_error(v: BValue) -> Option<DecodeError> {
    if !(v is Dict) {
        Some(DecodeError::BadFile)
    } else {
        let d = v->Dict_0@;
        if !is_str(lookup(d, key_path())) {
            Some(DecodeError::BadFile)
        } else if bad_text(lookup(d, key_path())) {
            Some(DecodeError::UTF8Error)
        } else if !is_int(lookup(d, key_length())) || lookup(d, key_length())->Some_0->Int_0 < 0 {
            Some(DecodeError::BadFile)
        } else {
            None
        }
    }
}

/// The error of the first file entry from `k` on that has one.
pub open spec fn files_error(l: Seq<BValue>, k: int) -> Option<DecodeError>
    decreases l.len() - k,
{
    if k < 0 || k >= l.len() {
        None
    } else if file_error(l[k]) is Some {
        file_error(l[k])
    } else {
        files_error(l, k + 1)
    }
}

/// The error that reading info dictionary `v` ends with, if any.
pub open spec fn info_error(v: BValue) -> Option<DecodeError> {
    if !(v is Dict) {
        Some(DecodeError::MissingName)
    } else {
        let d = v->Dict_0@;
        let plen = lookup(d, key_piece_length());
        let pieces = lookup(d, key_pieces());
        let len = lookup(d, key_length());
        let files = lookup(d, key_files());
        if !is_str(lookup(d, key_name())) {
            Some(DecodeError::MissingName)
        } else if bad_text(lookup(d, key_name())) {
            Some(DecodeError::UTF8Error)
        } else if !is_int(plen) {
            Some(DecodeError::MissingPieceLength)
        } else if plen->Some_0->Int_0 < 0 {
            Some(DecodeError::BadPieceLength)
        } else if !is_str(pieces) {
            Some(DecodeError::MissingPieces)
        } else if pieces->Some_0->Str_0@.len() % 20 != 0 {
            Some(DecodeError::BadPieces)
        } else if is_int(len) {
            if len->Some_0->Int_0 < 0 {
                Some(DecodeError::BadFile)
            } else {
                None
            }
        } else if !(files is Some && files->Some_0 is List) {
            Some(DecodeError::MissingFiles)
        } else {
            files_error(files->Some_0->List_0@, 0)
        }
    }
}

/// The error that reading metadata `v` ends with, if any.
pub open spec fn torrent_error(v: BValue) -> Option<DecodeError> {
    if !(v is Dict) {
        Some(DecodeError::MissingTracker)
    } else {
        let d = v->Dict_0@;
        if !is_str(lookup(d, key_announce())) {
            Some(DecodeError::MissingTracker)
        } else if bad_text(lookup(d, key_announce())) {
            Some(DecodeError::UTF8Error)
        } else if lookup(d, key_info()) is None {
            Some(DecodeError::MissingInfo)
        } else {
            info_error(lookup(d, key_info())->Some_0)
        }
    }
}

proof fn lemma_files_error_skip(l: Seq<BValue>, k: int)
    requires
        0 <= k <= l.len(),
        forall|i: int| 0 <= i < k ==> file_error(#[trigger] l[i]) is None,
    ensures
        files_error(l, 0) == files_error(l, k),
    decreases k,
{
    if k > 0 {
        lemma_files_error_skip(l, k - 1);
    }
}

/// Reads a metadata file's top-level dictionary: the tracker URL, the info
/// dictionary, and the digest of the info dictionary's encoding, which
/// identifies the content.
pub fn from_bvalue(value: BValue) -> (r: Result<(Torrent, [u8; 20]), DecodeError>)
    ensures
        r is Err <==> torrent_error(value) is Some,
        r is Err ==> r == Err::<(Torrent, [u8; 20]), DecodeError>(torrent_error(value)->Some_0),
        r matches Ok((t, h)) ==> {
            &&& value matches BValue::Dict(d)
            &&& is_text(lookup(d@, key_announce()), t.tracker_url@)
            &&& lookup(d@, key_info()) matches Some(i)
            &&& info_of(i, t.info)
            &&& h@ == sha1_of(enc(i))
        },
{
    let ghost v = value;
    let mut dict = match value.get_dict() {
        Some(d) => d,
        None => {
            return Err(DecodeError::MissingTracker);
        },
    };
    let ghost d0 = dict@;
    let k_announce: [u8; 8] = [97, 110, 110, 111, 117, 110, 99, 101];
    assert(k_announce@ =~= key_announce());
    let tracker = match dict_take(&mut dict, &k_announce) {
        Some(BValue::Str(s)) => decode_string(s)?,
        _ => {
            return Err(DecodeError::MissingTracker);
        },
    };
    let k_info: [u8; 4] = [105, 110, 102, 111];
    assert(k_info@ =~= key_info());
    assert(key_info() != key_announce());
    let (info, hash) = match dict_take(&mut dict, &k_info) {
        Some(i) => decode_info(i)?,
        None => {
            return Err(DecodeError::MissingInfo);
        },
    };
    Ok((Torrent { tracker_url: tracker, info: info }, hash))
}

/// The digest of the encoding of `value`.
pub fn hash_info(value: &BValue) -> (r: [u8; 20])
    ensures
        r@ == sha1_of(enc(*value)),
{
    let encoded = encode(value);
    sha1_digest(encoded.as_slice())
}

proof fn lemma_keys_distinct()
    ensures
        key_name() != key_piece_length(),
        key_name() != key_pieces(),
        key_name() != key_length(),
        key_name() != key_files(),
        key_piece_length() != key_pieces(),
        key_piece_length() != key_length(),
        key_piece_length() != key_files(),
        key_pieces() != key_length(),
        key_pieces() != key_files(),
        key_length() != key_files(),
        key_path() != key_length(),
{
    assert(key_name().len() != key_piece_length().len());
    assert(key_name()[0] != key_pieces()[0]);
    assert(key_name()[0] != key_length()[0]);
    assert(key_name().len() != key_files().len());
    assert(key_piece_length().len() != key_pieces().len());
    assert(key_piece_length().len() != key_length().len());
    assert(key_piece_length().len() != key_files().len());
    assert(key_pieces()[0] != key_length()[0]);
    assert(key_pieces()[0] != key_files()[0]);
    assert(key_length().len() != key_files().len());
    assert(key_path().len() != key_length().len());
}

/// Reads the info dictionary, and the digest of its encoding.
pub fn decode_info(value: BValue) -> (r: Result<(TorrentInfo, [u8; 20]), DecodeError>)
    ensures
        r is Err <==> info_error(value) is Some,
        r is Err ==> r == Err::<(TorrentInfo, [u8; 20]), DecodeError>(info_error(value)->Some_0),
        r matches Ok((info, h)) ==> info_of(value, info) && h@ == sha1_of(enc(value)),
{
    let hash = hash_info(&value);
    let ghost v = value;
    let mut dict = match value.get_dict() {
        Some(d) => d,
        None => {
            return Err(DecodeError::MissingName);
        },
    };
    let ghost d0 = dict@;
    proof {
        lemma_keys_distinct();
    }
    let k_name: [u8; 4] = [110, 97, 109, 101];
    assert(k_name@ =~= key_name());
    let name = match dict_take(&mut dict, &k_name) {
        Some(BValue::Str(s)) => match string_from_utf8(s) {
            Some(n) => n,
            None => {
                return Err(DecodeError::UTF8Error);
            },
        },
        _ => {
            return Err(DecodeError::MissingName);
        },
    };
    let k_piece_length: [u8; 12] = [112, 105, 101, 99, 101, 32, 108, 101, 110, 103, 116, 104];
    assert(k_piece_length@ =~= key_piece_length());
    let piece_length = match dict_take(&mut dict, &k_piece_length) {
        Some(BValue::Int(i)) => match int_to_unsigned(i) {
            Some(n) => n,
            None => {
                return Err(DecodeError::BadPieceLength);
            },
        },
        _ => {
            return Err(DecodeError::MissingPieceLength);
        },
    };
    let k_pieces: [u8; 6] = [112, 105, 101, 99, 101, 115];
    assert(k_pieces@ =~= key_pieces());
    let pieces = match dict_take(&mut dict, &k_pieces) {
        Some(BValue::Str(s)) => split_piece_hashes(s)?,
        _ => {
            return Err(DecodeError::MissingPieces);
        },
    };
    let k_length: [u8; 6] = [108, 101, 110, 103, 116, 104];
    assert(k_length@ =~= key_length());
    let length = dict_take(&mut dict, &k_length);
    let files = match length {
        Some(BValue::Int(len)) => {
            let len = match int_to_unsigned(len) {
                Some(n) => n,
                None => {
                    return Err(DecodeError::BadFile);
                },
            };
            let path = name.clone();
            let mut files: Vec<File> = Vec::new();
            files.push(File { length: len, path: path });
            files
        },
        _ => {
            let k_files: [u8; 5] = [102, 105, 108, 101, 115];
            assert(k_files@ =~= key_files());
            let list = match dict_take(&mut dict, &k_files) {
                Some(BValue::List(l)) => l,
                _ => {
                    return Err(DecodeError::MissingFiles);
                },
            };
            let ghost l0 = list@;
            assert(info_error(value) == files_error(l0, 0));
            proof {
                assert(l0.len() == list.len());
            }
            let mut decoded_files: Vec<File> = Vec::new();
            let mut rest = list;
            let mut taken: usize = 0;
            while rest.len() > 0
                invariant
                    taken + rest@.len() == l0.len(),
                    l0.len() <= usize::MAX,
                    value is Dict,
                    rest@ == l0.subrange(taken as int, l0.len() as int),
                    decoded_files@.len() == taken,
                    forall|i: int| 0 <= i < taken ==> file_of(#[trigger] l0[i], decoded_files@[i]),
                    forall|i: int| 0 <= i < taken ==> file_error(#[trigger] l0[i]) is None,
                    info_error(value) == files_error(l0, 0),
                decreases rest@.len(),
            {
                let file = rest.remove(0);
                assert(file == l0[taken as int]);
                let f = match decode_file(file) {
                    Ok(f) => f,
                    Err(e) => {
                        proof {
                            lemma_files_error_skip(l0, taken as int);
                        }
                        return Err(e);
                    },
                };
                decoded_files.push(f);
                taken = taken + 1;
                assert(rest@ =~= l0.subrange(taken as int, l0.len() as int));
            }
            proof {
                lemma_files_error_skip(l0, taken as int);
            }
            decoded_files
        },
    };
    Ok((TorrentInfo { root: name, piece_length: piece_length, pieces: pieces, files: files }, hash))
}

/// Reads one entry of the file list.
pub fn decode_file(value: BValue) -> (r: Result<File, DecodeError>)
    ensures
        r matches Ok(f) ==> file_of(value, f),
        r is Err <==> file_error(value) is Some,
        r is Err ==> r == Err::<File, DecodeError>(file_error(value)->Some_0),
{
    let mut dict = match value.get_dict() {
        Some(d) => d,
        None => {
            return Err(DecodeError::BadFile);
        },
    };
    proof {
        lemma_keys_distinct();
    }
    let k_path: [u8; 4] = [112, 97, 116, 104];
    assert(k_path@ =~= key_path());
    let path = match dict_take(&mut dict, &k_path) {
        Some(BValue::Str(s)) => decode_string(s)?,
        _ => {
            return Err(DecodeError::BadFile);
        },
    };
    let k_length: [u8; 6] = [108, 101, 110, 103, 116, 104];
    assert(k_length@ =~= key_length());
    let length = match dict_take(&mut dict, &k_length) {
        Some(BValue::Int(i)) => match int_to_unsigned(i) {
            Some(n) => n,
            None => {
                return Err(DecodeError::BadFile);
            },
        },
        _ => {
            return Err(DecodeError::BadFile);
        },
    };
    Ok(File { path: path, length: length })
}

/// The text that UTF-8 bytes encode.
pub fn decode_string(bytes: Vec<u8>) -> (r: Result<String, DecodeError>)
    ensures
        r is Err <==> utf8_of(bytes@) is None,
        r is Err ==> r == Err::<String, DecodeError>(DecodeError::UTF8Error),
        r matches Ok(s) ==> utf8_of(bytes@) == Some(s@),
{
    match string_from_utf8(bytes) {
        Some(s) => Ok(s),
        None => Err(DecodeError::UTF8Error),
    }
}

pub fn int_to_unsigned(i: i64) -> (r: Option<u64>)
    ensures
        i >= 0 ==> r == Some(i as u64),
        i < 0 ==> r is None,
{
    if i >= 0 {
        Some(i as u64)
    } else {
        None
    }
}

/// Cuts concatenated 20-byte digests apart.
pub fn split_piece_hashes(raw: Vec<u8>) -> (r: Result<Vec<[u8; 20]>, DecodeError>)
    ensures
        raw@.len() % 20 != 0 ==> r == Err::<Vec<[u8; 20]>, DecodeError>(DecodeError::BadPieces),
        raw@.len() % 20 == 0 ==> r is Ok,
        r matches Ok(v) ==> split_into_hashes(raw@, v@),
{
    if raw.len() % 20 != 0 {
        return Err(DecodeError::BadPieces);
    }
    let mut result: Vec<[u8; 20]> = Vec::new();
    let total = raw.len();
    let pieces = total / 20;
    let mut i: usize = 0;
    while i < pieces
        invariant
            pieces * 20 == raw@.len(),
            raw@.len() <= usize::MAX,
            i <= pieces,
            result@.len() == i,
            forall|k: int| 0 <= k < i ==> #[trigger] result@[k]@ == raw@.subrange(20 * k, 20 * k + 20),
        decreases pieces - i,
    {
        let base = i * 20;
        let mut array: [u8; 20] = [0; 20];
        let mut j: usize = 0;
        while j < 20
            invariant
                j <= 20,
                base == 20 * i,
                base + 20 <= raw@.len(),
                raw@.len() <= usize::MAX,
                array@.len() == 20,
                forall|k: int| 0 <= k < j ==> array@[k] == raw@[base + k],
            decreases 20 - j,
        {
            array[j] = raw[base + j];
            j = j + 1;
        }
        assert(array@ =~= raw@.subrange(20 * i, 20 * i + 20));
        result.push(array);
        i = i + 1;
    }
    Ok(result)
}

} // verus!
