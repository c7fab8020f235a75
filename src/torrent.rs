//! Torrent metadata read from a decoded bencode tree, and the info-hash.
use crate::bencode::{
    decode, lemma_list_view, str_from_utf8, values_of, Bencode, BencodeError, Dict,
};
use crate::encode::encode;
use crate::model::{ascii_bytes, decoded, encoding, lookup, text_of, Value};
use vstd::prelude::*;
use vstd::slice::slice_to_vec;
use vstd::string::is_ascii_spec_bytes;
use vstd::utf8::{decode_utf8, valid_utf8};

verus! {

/// A field of a torrent file, named by the key it is stored under.
#[derive(Debug, PartialEq, Eq, Structural, Clone, Copy)]
pub enum Field {
    Announce,
    CreatedBy,
    CreationDate,
    Info,
    Name,
    PieceLength,
    Files,
    Pieces,
    Length,
    Path,
}

impl Field {
    pub open spec fn spec_name(self) -> Seq<char> {
        match self {
            Field::Announce => "announce"@,
            Field::CreatedBy => "created by"@,
            Field::CreationDate => "creation date"@,
            Field::Info => "info"@,
            Field::Name => "name"@,
            Field::PieceLength => "piece length"@,
            Field::Files => "files"@,
            Field::Pieces => "pieces"@,
            Field::Length => "length"@,
            Field::Path => "path"@,
        }
    }

    /// The key's bytes.
    pub open spec fn spec_key(self) -> Seq<u8> {
        ascii_bytes(self.spec_name())
    }

    /// The key that the field is stored under.
    pub fn name(self) -> (r: &'static str)
        ensures
            r@ == self.spec_name(),
            r.is_ascii(),
    {
        match self {
            Field::Announce => {
                proof {
                    reveal_strlit("announce");
                }
                "announce"
            },
            Field::CreatedBy => {
                proof {
                    reveal_strlit("created by");
                }
                "created by"
            },
            Field::CreationDate => {
                proof {
                    reveal_strlit("creation date");
                }
                "creation date"
            },
            Field::Info => {
                proof {
                    reveal_strlit("info");
                }
                "info"
            },
            Field::Name => {
                proof {
                    reveal_strlit("name");
                }
                "name"
            },
            Field::PieceLength => {
                proof {
                    reveal_strlit("piece length");
                }
                "piece length"
            },
            Field::Files => {
                proof {
                    reveal_strlit("files");
                }
                "files"
            },
            Field::Pieces => {
                proof {
                    reveal_strlit("pieces");
                }
                "pieces"
            },
            Field::Length => {
                proof {
                    reveal_strlit("length");
                }
                "length"
            },
            Field::Path => {
                proof {
                    reveal_strlit("path");
                }
                "path"
            },
        }
    }

    /// The bytes of the key that the field is stored under.
    pub fn key(self) -> (r: &'static [u8])
        ensures
            r@ == self.spec_key(),
    {
        let name = self.name();
        proof {
            is_ascii_spec_bytes(name);
        }
        let bytes = name.as_bytes();
        assert(bytes@ =~= ascii_bytes(name@));
        bytes
    }
}

/// Why a decoded tree is not a torrent.
#[derive(Debug, PartialEq, Eq, Structural, Clone, Copy)]
pub enum TorrentError {
    /// The bytes are not bencode.
    Decode(BencodeError),
    /// The root is not a dictionary.
    InvalidTorrentFile,
    /// A field is absent, or holds another kind of value than it should.
    MissingField(Field),
    /// An entry of `files` is not a dictionary.
    InvalidDictionary,
    /// Text is not valid UTF-8, or a path segment is not a byte string.
    InvalidString,
}

/// A file of a torrent: its size in bytes and its path, most specific
/// segment last.
#[derive(Debug)]
pub struct TorrentFile {
    pub length: i64,
    pub path: Vec<String>,
}

/// The `info` dictionary of a torrent.
#[derive(Debug)]
pub struct TorrentInfo {
    pub name: String,
    pub piece_length: i64,
    pub files: Vec<TorrentFile>,
    /// One 20-byte SHA-1 digest per piece.
    pub pieces: Vec<u8>,
}

/// A torrent's metadata, and the info-hash of its `info` dictionary as it
/// was decoded.
#[derive(Debug)]
pub struct Torrent {
    pub announce: String,
    pub created_by: String,
    pub creation_date: i64,
    pub info: TorrentInfo,
    /// The SHA-1 digest of the canonical encoding of `info` as decoded, with
    /// every key it held.
    pub info_digest: [u8; 20],
}

pub struct TorrentFileView {
    pub length: int,
    pub path: Seq<Seq<char>>,
}

pub struct TorrentInfoView {
    pub name: Seq<char>,
    pub piece_length: int,
    pub files: Seq<TorrentFileView>,
    pub pieces: Seq<u8>,
}

pub struct TorrentView {
    pub announce: Seq<char>,
    pub created_by: Seq<char>,
    pub creation_date: int,
    pub info: TorrentInfoView,
    pub info_hash: Seq<u8>,
}

impl View for TorrentFile {
    type V = TorrentFileView;

    open spec fn view(&self) -> TorrentFileView {
        TorrentFileView { length: self.length as int, path: self.path@.map_values(|s: String| s@) }
    }
}

impl View for TorrentInfo {
    type V = TorrentInfoView;

    open spec fn view(&self) -> TorrentInfoView {
        TorrentInfoView {
            name: self.name@,
            piece_length: self.piece_length as int,
            files: self.files@.map_values(|f: TorrentFile| f@),
            pieces: self.pieces@,
        }
    }
}

impl View for Torrent {
    type V = TorrentView;

    open spec fn view(&self) -> TorrentView {
        TorrentView {
            announce: self.announce@,
            created_by: self.created_by@,
            creation_date: self.creation_date as int,
            info: self.info@,
            info_hash: self.info_digest@,
        }
    }
}

/// The text stored under field `f`.
pub open spec fn text_field(d: Seq<(Seq<u8>, Value)>, f: Field) -> Result<Seq<char>, TorrentError> {
    match lookup(d, f.spec_key()) {
        Some(Value::Bytes(b)) => if valid_utf8(b) {
            Ok(decode_utf8(b))
        } else {
            Err(TorrentError::InvalidString)
        },
        _ => Err(TorrentError::MissingField(f)),
    }
}

/// The integer stored under field `f`.
pub open spec fn integer_field(d: Seq<(Seq<u8>, Value)>, f: Field) -> Result<int, TorrentError> {
    match lookup(d, f.spec_key()) {
        Some(Value::Integer(i)) => Ok(i),
        _ => Err(TorrentError::MissingField(f)),
    }
}

/// The bytes stored under field `f`.
pub open spec fn bytes_field(d: Seq<(Seq<u8>, Value)>, f: Field) -> Result<Seq<u8>, TorrentError> {
    match lookup(d, f.spec_key()) {
        Some(Value::Bytes(b)) => Ok(b),
        _ => Err(TorrentError::MissingField(f)),
    }
}

/// The list stored under field `f`.
pub open spec fn list_field(d: Seq<(Seq<u8>, Value)>, f: Field) -> Result<Seq<Value>, TorrentError> {
    match lookup(d, f.spec_key()) {
        Some(Value::List(items)) => Ok(items),
        _ => Err(TorrentError::MissingField(f)),
    }
}

/// Path segments: each must be a byte string holding valid UTF-8.
pub open spec fn path_of(items: Seq<Value>) -> Result<Seq<Seq<char>>, TorrentError> {
    if forall|i: int| 0 <= i < items.len() ==> (#[trigger] text_of(items[i])) is Some {
        Ok(items.map_values(|v: Value| text_of(v)->Some_0))
    } else {
        Err(TorrentError::InvalidString)
    }
}

/// An entry of `files`: a dictionary with `length`, then `path`.
pub open spec fn file_of(v: Value) -> Result<TorrentFileView, TorrentError> {
    match v {
        Value::Dict(d) => match integer_field(d, Field::Length) {
            Err(e) => Err(e),
            Ok(length) => match list_field(d, Field::Path) {
                Err(e) => Err(e),
                Ok(items) => match path_of(items) {
                    Err(e) => Err(e),
                    Ok(path) => Ok(TorrentFileView { length, path }),
                },
            },
        },
        _ => Err(TorrentError::InvalidDictionary),
    }
}

/// The entries of `files`, in order; the first entry that fails decides the
/// error.
pub open spec fn files_of(items: Seq<Value>) -> Result<Seq<TorrentFileView>, TorrentError>
    decreases items.len(),
{
    if items.len() == 0 {
        Ok(seq![])
    } else {
        match file_of(items[0]) {
            Err(e) => Err(e),
            Ok(f) => match files_of(items.drop_first()) {
                Err(e) => Err(e),
                Ok(fs) => Ok(seq![f] + fs),
            },
        }
    }
}

/// The `info` dictionary: `name`, `piece length`, `files`, `pieces`, read in
/// that order.
pub open spec fn info_of(d: Seq<(Seq<u8>, Value)>) -> Result<TorrentInfoView, TorrentError> {
    match text_field(d, Field::Name) {
        Err(e) => Err(e),
        Ok(name) => match integer_field(d, Field::PieceLength) {
            Err(e) => Err(e),
            Ok(piece_length) => match list_field(d, Field::Files) {
                Err(e) => Err(e),
                Ok(items) => match files_of(items) {
                    Err(e) => Err(e),
                    Ok(files) => match bytes_field(d, Field::Pieces) {
                        Err(e) => Err(e),
                        Ok(pieces) => Ok(TorrentInfoView { name, piece_length, files, pieces }),
                    },
                },
            },
        },
    }
}

/// The torrent that a root value describes: `announce`, `created by`,
/// `creation date`, then `info`; the first field that fails decides the error.
/// The info-hash is taken over the `info` value itself, unmodelled keys
/// included.
pub open spec fn torrent_of(root: Value) -> Result<TorrentView, TorrentError> {
    match root {
        Value::Dict(d) => match text_field(d, Field::Announce) {
            Err(e) => Err(e),
            Ok(announce) => match text_field(d, Field::CreatedBy) {
                Err(e) => Err(e),
                Ok(created_by) => match integer_field(d, Field::CreationDate) {
                    Err(e) => Err(e),
                    Ok(creation_date) => match lookup(d, Field::Info.spec_key()) {
                        Some(Value::Dict(info)) => match info_of(info) {
                            Err(e) => Err(e),
                            Ok(info_view) => Ok(
                                TorrentView {
                                    announce,
                                    created_by,
                                    creation_date,
                                    info: info_view,
                                    info_hash: sha1_digest(encoding(Value::Dict(info))),
                                },
                            ),
                        },
                        _ => Err(TorrentError::MissingField(Field::Info)),
                    },
                },
            },
        },
        _ => Err(TorrentError::InvalidTorrentFile),
    }
}

/// An exec result agrees with a spec result through `view`.
pub open spec fn agrees<T: View>(r: Result<T, TorrentError>, s: Result<T::V, TorrentError>) -> bool {
    match s {
        Ok(v) => r matches Ok(x) && x@ == v,
        Err(e) => r matches Err(y) && y == e,
    }
}

/// The SHA-1 digest of `data`.
pub uninterp spec fn sha1_digest(data: Seq<u8>) -> Seq<u8>;

/// Relies on `sha1::Sha1::digest` (the one-shot `digest::Digest` API): the
/// SHA-1 digest of `data`, which depends on those bytes alone.
#[verifier::external_body]
fn sha1(data: &[u8]) -> (r: [u8; 20])
    ensures
        r@ == sha1_digest(data@),
{
    <sha1::Sha1 as sha1::Digest>::digest(data).into()
}

/// The info-hash of an `info` value: the SHA-1 digest of its canonical
/// encoding.
pub fn info_hash(info: &Bencode) -> (r: [u8; 20])
    ensures
        r@ == sha1_digest(encoding(info@)),
{
    let bytes = encode(info);
    sha1(bytes.as_slice())
}

fn read_text(d: &Dict, f: Field) -> (r: Result<String, TorrentError>)
    ensures
        agrees(r, text_field(d@, f)),
{
    match d.get(f.key()) {
        Some(Bencode::String(b)) => match str_from_utf8(b.as_slice()) {
            Some(s) => Ok(s.to_owned()),
            None => Err(TorrentError::InvalidString),
        },
        _ => Err(TorrentError::MissingField(f)),
    }
}

fn read_integer(d: &Dict, f: Field) -> (r: Result<i64, TorrentError>)
    ensures
        match integer_field(d@, f) {
            Ok(n) => r matches Ok(x) && x == n,
            Err(e) => r matches Err(y) && y == e,
        },
{
    match d.get(f.key()) {
        Some(Bencode::Integer(n)) => Ok(*n),
        _ => Err(TorrentError::MissingField(f)),
    }
}

fn read_bytes(d: &Dict, f: Field) -> (r: Result<Vec<u8>, TorrentError>)
    ensures
        agrees(r, bytes_field(d@, f)),
{
    match d.get(f.key()) {
        Some(Bencode::String(b)) => Ok(slice_to_vec(b.as_slice())),
        _ => Err(TorrentError::MissingField(f)),
    }
}

fn read_list<'a>(d: &'a Dict, f: Field) -> (r: Result<&'a Vec<Bencode>, TorrentError>)
    ensures
        match list_field(d@, f) {
            Ok(items) => r matches Ok(l) && values_of(l@) == items,
            Err(e) => r matches Err(y) && y == e,
        },
{
    match d.get(f.key()) {
        Some(Bencode::List(l)) => {
            proof {
                lemma_list_view(*l);
            }
            Ok(l)
        },
        _ => Err(TorrentError::MissingField(f)),
    }
}

pub open spec fn prepend_files(
    front: Seq<TorrentFileView>,
    r: Result<Seq<TorrentFileView>, TorrentError>,
) -> Result<Seq<TorrentFileView>, TorrentError> {
    match r {
        Ok(files) => Ok(front + files),
        Err(e) => Err(e),
    }
}

pub open spec fn file_views(files: Seq<TorrentFile>) -> Seq<TorrentFileView> {
    files.map_values(|f: TorrentFile| f@)
}

fn read_path(items: &Vec<Bencode>) -> (r: Result<Vec<String>, TorrentError>)
    ensures
        match path_of(values_of(items@)) {
            Ok(p) => r matches Ok(x) && x@.map_values(|s: String| s@) == p,
            Err(e) => r matches Err(y) && y == e,
        },
{
    let ghost vs = values_of(items@);
    let mut path: Vec<String> = Vec::new();
    let mut i: usize = 0;
    while i < items.len()
        invariant
            i <= items@.len(),
            vs == values_of(items@),
            path@.len() == i,
            forall|k: int| 0 <= k < i ==> (#[trigger] text_of(vs[k])) is Some,
            forall|k: int| 0 <= k < i ==> (#[trigger] path@[k])@ == text_of(vs[k])->Some_0,
        decreases items@.len() - i,
    {
        assert(vs[i as int] == items@[i as int]@);
        match items[i].as_string() {
            Some(segment) => path.push(segment.to_owned()),
            None => {
                assert(!(text_of(vs[i as int]) is Some));
                return Err(TorrentError::InvalidString);
            },
        }
        i = i + 1;
    }
    assert(path@.map_values(|s: String| s@) =~= vs.map_values(|v: Value| text_of(v)->Some_0));
    Ok(path)
}

fn read_file(v: &Bencode) -> (r: Result<TorrentFile, TorrentError>)
    ensures
        agrees(r, file_of(v@)),
{
    let d = match v.as_dict() {
        Some(d) => d,
        None => return Err(TorrentError::InvalidDictionary),
    };
    let length = match read_integer(d, Field::Length) {
        Ok(n) => n,
        Err(e) => return Err(e),
    };
    let items = match read_list(d, Field::Path) {
        Ok(l) => l,
        Err(e) => return Err(e),
    };
    let path = match read_path(items) {
        Ok(p) => p,
        Err(e) => return Err(e),
    };
    Ok(TorrentFile { length, path })
}

fn read_files(items: &Vec<Bencode>) -> (r: Result<Vec<TorrentFile>, TorrentError>)
    ensures
        match files_of(values_of(items@)) {
            Ok(fs) => r matches Ok(x) && file_views(x@) == fs,
            Err(e) => r matches Err(y) && y == e,
        },
{
    let ghost vs = values_of(items@);
    let mut files: Vec<TorrentFile> = Vec::new();
    let mut i: usize = 0;
    assert(vs.subrange(0, vs.len() as int) =~= vs);
    assert(file_views(files@) =~= Seq::<TorrentFileView>::empty());
    assert(files_of(vs) matches Ok(fs) ==> Seq::<TorrentFileView>::empty() + fs =~= fs);
    while i < items.len()
        invariant
            i <= items@.len(),
            vs == values_of(items@),
            files_of(vs) == prepend_files(
                file_views(files@),
                files_of(vs.subrange(i as int, vs.len() as int)),
            ),
        decreases items@.len() - i,
    {
        let ghost rest = vs.subrange(i as int, vs.len() as int);
        assert(rest[0] == items@[i as int]@);
        assert(rest.drop_first() =~= vs.subrange(i + 1, vs.len() as int));
        match read_file(&items[i]) {
            Err(e) => return Err(e),
            Ok(file) => {
                proof {
                    assert(file_views(files@.push(file)) =~= file_views(files@) + seq![file@]);
                    if let Ok(fs) = files_of(rest.drop_first()) {
                        assert(file_views(files@) + (seq![file@] + fs) =~= (file_views(files@)
                            + seq![file@]) + fs);
                    }
                }
                files.push(file);
            },
        }
        i = i + 1;
    }
    assert(vs.subrange(i as int, vs.len() as int) =~= Seq::<Value>::empty());
    assert(file_views(files@) + Seq::<TorrentFileView>::empty() =~= file_views(files@));
    Ok(files)
}

fn read_info(d: &Dict) -> (r: Result<TorrentInfo, TorrentError>)
    ensures
        agrees(r, info_of(d@)),
{
    let name = match read_text(d, Field::Name) {
        Ok(s) => s,
        Err(e) => return Err(e),
    };
    let piece_length = match read_integer(d, Field::PieceLength) {
        Ok(n) => n,
        Err(e) => return Err(e),
    };
    let items = match read_list(d, Field::Files) {
        Ok(l) => l,
        Err(e) => return Err(e),
    };
    let files = match read_files(items) {
        Ok(f) => f,
        Err(e) => return Err(e),
    };
    let pieces = match read_bytes(d, Field::Pieces) {
        Ok(b) => b,
        Err(e) => return Err(e),
    };
    Ok(TorrentInfo { name, piece_length, files, pieces })
}

impl Torrent {
    /// Decodes a torrent file and reads its metadata from the decoded tree.
    /// Bytes after the root value are not read.
    pub fn new(torrent_contents: Vec<u8>) -> (r: Result<Torrent, TorrentError>)
        ensures
            match decoded(torrent_contents@) {
                Ok((root, _)) => agrees(r, torrent_of(root)),
                Err(e) => r matches Err(y) && y == TorrentError::Decode(e),
            },
    {
        match decode(torrent_contents.as_slice()) {
            Ok((root, _rest)) => Torrent::from_value(&root),
            Err(e) => Err(TorrentError::Decode(e)),
        }
    }

    /// Reads a torrent's metadata from its decoded root value.
    pub fn from_value(value: &Bencode) -> (r: Result<Torrent, TorrentError>)
        ensures
            agrees(r, torrent_of(value@)),
    {
        let root = match value.as_dict() {
            Some(d) => d,
            None => return Err(TorrentError::InvalidTorrentFile),
        };
        let announce = match read_text(root, Field::Announce) {
            Ok(s) => s,
            Err(e) => return Err(e),
        };
        let created_by = match read_text(root, Field::CreatedBy) {
            Ok(s) => s,
            Err(e) => return Err(e),
        };
        let creation_date = match read_integer(root, Field::CreationDate) {
            Ok(n) => n,
            Err(e) => return Err(e),
        };
        let info_value = match root.get(Field::Info.key()) {
            Some(v) => v,
            None => return Err(TorrentError::MissingField(Field::Info)),
        };
        let info_entries = match info_value {
            Bencode::Dictionary(d) => d,
            _ => return Err(TorrentError::MissingField(Field::Info)),
        };
        let info = match read_info(info_entries) {
            Ok(i) => i,
            Err(e) => return Err(e),
        };
        let info_digest = info_hash(info_value);
        Ok(Torrent { announce, created_by, creation_date, info, info_digest })
    }

    /// The info-hash: the SHA-1 digest of the canonical encoding of the
    /// `info` value as it was decoded.
    pub fn info_hash(&self) -> (r: [u8; 20])
        ensures
            r@ == self@.info_hash,
    {
        self.info_digest
    }
}

/// The sum of the lengths of `files`.
pub open spec fn total_of(files: Seq<TorrentFileView>) -> int
    decreases files.len(),
{
    if files.len() == 0 {
        0
    } else {
        total_of(files.drop_last()) + files.last().length
    }
}

impl TorrentInfo {
    /// The total size of the files in bytes, when it fits in an `i64`.
    pub fn total_length(&self) -> (r: Option<i64>)
        ensures
            r is Some <==> i64::MIN <= total_of(self@.files) <= i64::MAX,
            r matches Some(n) ==> n == total_of(self@.files),
    {
        let ghost views = self@.files;
        let mut sum: i128 = 0;
        let mut i: usize = 0;
        while i < self.files.len()
            invariant
                i <= self.files@.len(),
                views == self@.files,
                sum == total_of(views.subrange(0, i as int)),
                -(i as int) * 0x8000_0000_0000_0000 <= sum <= (i as int) * 0x8000_0000_0000_0000,
            decreases self.files@.len() - i,
        {
            assert(views.subrange(0, i + 1).drop_last() =~= views.subrange(0, i as int));
            assert(views[i as int] == self.files@[i as int]@);
            proof {
                let k = i as int;
                assert(k + 1 <= usize::MAX);
                assert((k + 1) * 0x8000_0000_0000_0000 <= 0x7fff_ffff_ffff_ffff_8000_0000_0000_0000)
                    by (nonlinear_arith)
                    requires
                        k + 1 <= 0xffff_ffff_ffff_ffff,
                ;
                assert(k * 0x8000_0000_0000_0000 + 0x8000_0000_0000_0000 == (k + 1)
                    * 0x8000_0000_0000_0000) by (nonlinear_arith);
            }
            sum = sum + self.files[i].length as i128;
            i = i + 1;
        }
        assert(views.subrange(0, i as int) =~= views);
        if sum < i64::MIN as i128 || sum > i64::MAX as i128 {
            None
        } else {
            Some(sum as i64)
        }
    }
}

} // verus!
