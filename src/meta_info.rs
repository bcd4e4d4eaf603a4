//! Typed view of a torrent meta-info document (a `.torrent` file), read
//! from its decoded value tree.
use vstd::prelude::*;
use vstd::string::StringSliceAdditionalSpecFns;
use crate::bencode::{Bencode, BencodeError, BencodeParser, ErrorKind, dict_get, items_view, lemma_items_view, model};
use crate::byte_string::{ByteString, display_chars, slice_to_vec_bytes};
use crate::decoder::DEFAULT_MAX_DEPTH;
use crate::grammar::{Value, decode_prefix};

verus! {

/// The bytes of a text field of a dictionary.
pub open spec fn text_field(v: Value, key: Seq<u8>) -> Option<Seq<u8>> {
    match dict_get(v, key) {
        Some(Value::Text(b)) => Some(b),
        _ => None,
    }
}

/// A number field of a dictionary.
pub open spec fn number_field(v: Value, key: Seq<u8>) -> Option<u64> {
    match dict_get(v, key) {
        Some(Value::Number(n)) => Some(n),
        _ => None,
    }
}

/// How an optional byte string is shown.
pub open spec fn shown(o: Option<Seq<u8>>) -> Option<Seq<char>> {
    match o {
        Some(b) => Some(display_chars(b)),
        None => None,
    }
}

pub open spec fn string_opt(o: Option<String>) -> Option<Seq<char>> {
    match o {
        Some(s) => Some(s@),
        None => None,
    }
}

pub open spec fn strings_view(v: Seq<String>) -> Seq<Seq<char>> {
    Seq::new(v.len(), |i: int| v[i]@)
}

/// The byte strings among `items`, shown, in order; other items are skipped.
pub open spec fn texts(items: Seq<Value>) -> Seq<Seq<char>>
    decreases items.len(),
{
    if items.len() == 0 {
        seq![]
    } else {
        match items.last() {
            Value::Text(b) => texts(items.drop_last()).push(display_chars(b)),
            _ => texts(items.drop_last()),
        }
    }
}

/// The list stored under `key`, shown as its byte strings.
pub open spec fn text_list_field(v: Value, key: Seq<u8>) -> Option<Seq<Seq<char>>> {
    match dict_get(v, key) {
        Some(Value::List(items)) => Some(texts(items)),
        _ => None,
    }
}

/// An error of a reader that found the document in an unexpected shape.
fn parsing_error(msg: &str) -> (r: BencodeError)
    ensures
        r.kind == ErrorKind::Malformed,
{
    BencodeError::new(msg.to_string())
}

/// The value under `key`, or an error when it is absent.
fn get_value<'a>(key: &str, dict: &'a Bencode) -> (r: Result<&'a Bencode, BencodeError>)
    ensures
        match r {
            Ok(b) => dict_get(dict@, key.spec_bytes()) == Some(b@),
            Err(e) => dict_get(dict@, key.spec_bytes()) is None && e.kind == ErrorKind::Malformed,
        },
{
    match dict.get(key.as_bytes()) {
        Some(value) => Ok(value),
        None => Err(parsing_error("missing key in meta info dictionary")),
    }
}

/// The byte string under `key`, shown, when there is one.
fn get_optional_str(key: &str, dict: &Bencode) -> (r: Option<String>)
    ensures
        string_opt(r) == shown(text_field(dict@, key.spec_bytes())),
{
    match dict.get(key.as_bytes()) {
        Some(Bencode::Text(value)) => Some(value.print()),
        _ => None,
    }
}

/// The byte strings of the list stored under `key`, shown and in order.
fn get_opt_str_list(key: &str, dict: &Bencode) -> (r: Option<Vec<String>>)
    ensures
        match r {
            Some(l) => text_list_field(dict@, key.spec_bytes()) == Some(strings_view(l@)),
            None => text_list_field(dict@, key.spec_bytes()) is None,
        },
{
    match dict.get(key.as_bytes()) {
        Some(Bencode::List(list)) => Some(texts_of(list)),
        _ => None,
    }
}

/// The byte strings among the items, shown and in order.
fn texts_of(list: &Vec<Bencode>) -> (r: Vec<String>)
    ensures
        strings_view(r@) == texts(items_view(list@)),
{
    let ghost all = items_view(list@);
    proof {
        lemma_items_view(list@);
    }
    let mut values: Vec<String> = Vec::new();
    let mut i: usize = 0;
    assert(all.subrange(0, 0) =~= Seq::<Value>::empty());
    assert(strings_view(values@) =~= Seq::<Seq<char>>::empty());
    while i < list.len()
        invariant
            i <= list@.len(),
            all == items_view(list@),
            all.len() == list@.len(),
            forall|j: int| 0 <= j < list@.len() ==> #[trigger] all[j] == model(list@[j]),
            strings_view(values@) == texts(all.subrange(0, i as int)),
        decreases list@.len() - i,
    {
        let ghost before = values@;
        assert(all.subrange(0, i as int + 1).drop_last() =~= all.subrange(0, i as int));
        assert(all.subrange(0, i as int + 1).last() == model(list@[i as int]));
        if let Bencode::Text(text) = &list[i] {
            values.push(text.print());
            assert(strings_view(values@) =~= strings_view(before).push(display_chars(text@)));
        }
        i = i + 1;
    }
    assert(all.subrange(0, i as int) =~= all);
    values
}

/// A torrent that holds one file.
#[derive(Debug, PartialEq, Eq)]
pub struct SingleFile {
    pub name: String,
    pub length: u64,
    /// Optional hexadecimal MD5 sum of the file.
    pub md5sum: Option<String>,
}

/// Whether an info dictionary describes a single file.
pub open spec fn single_ok(d: Value) -> bool {
    text_field(d, "name".spec_bytes()) is Some && number_field(d, "length".spec_bytes()) is Some
}

/// The fields of `f` are those that `d` holds.
pub open spec fn single_matches(f: SingleFile, d: Value) -> bool {
    &&& f.name@ == display_chars(text_field(d, "name".spec_bytes())->0)
    &&& f.length == number_field(d, "length".spec_bytes())->0
    &&& string_opt(f.md5sum) == shown(text_field(d, "md5sum".spec_bytes()))
}

impl SingleFile {
    /// Reads the single-file fields of an info dictionary.
    pub fn from(dict: &Bencode) -> (r: Result<SingleFile, BencodeError>)
        ensures
            r is Ok <==> single_ok(dict@),
            r matches Ok(f) ==> single_matches(f, dict@),
            r matches Err(e) ==> e.kind == ErrorKind::Malformed,
    {
        if let Some(Bencode::Text(name)) = dict.get("name".as_bytes()) {
            if let Some(Bencode::Number(length)) = dict.get("length".as_bytes()) {
                let md5sum = get_optional_str("md5sum", dict);
                return Ok(SingleFile { name: name.print(), length: *length, md5sum });
            }
        }
        Err(parsing_error("invalid file"))
    }
}

/// One file of a torrent that holds several.
#[derive(Debug, PartialEq, Eq)]
pub struct MultiFileItem {
    pub length: u64,
    /// Optional hexadecimal MD5 sum of the file.
    pub md5sum: Option<String>,
    /// Directory names, then the file name.
    pub path: Vec<String>,
}

/// Whether a file dictionary describes a file.
pub open spec fn item_ok(d: Value) -> bool {
    text_list_field(d, "path".spec_bytes()) is Some && number_field(d, "length".spec_bytes()) is Some
}

/// The fields of `f` are those that `d` holds.
pub open spec fn item_matches(f: MultiFileItem, d: Value) -> bool {
    &&& f.length == number_field(d, "length".spec_bytes())->0
    &&& Some(strings_view(f.path@)) == text_list_field(d, "path".spec_bytes())
    &&& string_opt(f.md5sum) == shown(text_field(d, "md5sum".spec_bytes()))
}

impl MultiFileItem {
    /// Reads one entry of the `files` list.
    pub fn from(dict: &Bencode) -> (r: Result<MultiFileItem, BencodeError>)
        ensures
            r is Ok <==> item_ok(dict@),
            r matches Ok(f) ==> item_matches(f, dict@),
            r matches Err(e) ==> e.kind == ErrorKind::Malformed,
    {
        if let Some(path) = get_opt_str_list("path", dict) {
            if let Some(Bencode::Number(length)) = dict.get("length".as_bytes()) {
                let md5sum = get_optional_str("md5sum", dict);
                return Ok(MultiFileItem { length: *length, path, md5sum });
            }
        }
        Err(parsing_error("invalid file item"))
    }
}

/// A torrent that holds several files under one directory.
#[derive(Debug, PartialEq, Eq)]
pub struct MultiFile {
    /// Advisory name of the directory that holds the files.
    pub name: String,
    pub files: Vec<MultiFileItem>,
}

/// The list of files of an info dictionary.
pub open spec fn files_field(d: Value) -> Option<Seq<Value>> {
    match dict_get(d, "files".spec_bytes()) {
        Some(Value::List(items)) => Some(items),
        _ => None,
    }
}

/// Whether an info dictionary describes several files.
pub open spec fn multi_ok(d: Value) -> bool {
    &&& text_field(d, "name".spec_bytes()) is Some
    &&& files_field(d) is Some
    &&& forall|i: int| 0 <= i < files_field(d)->0.len() ==> item_ok(#[trigger] files_field(d)->0[i])
}

/// The fields of `m` are those that `d` holds.
pub open spec fn multi_matches(m: MultiFile, d: Value) -> bool {
    &&& m.name@ == display_chars(text_field(d, "name".spec_bytes())->0)
    &&& m.files@.len() == files_field(d)->0.len()
    &&& forall|i: int| 0 <= i < m.files@.len() ==> item_matches(#[trigger] m.files@[i], files_field(d)->0[i])
}

impl MultiFile {
    /// Reads the multi-file fields of an info dictionary.
    pub fn from(dict: &Bencode) -> (r: Result<MultiFile, BencodeError>)
        ensures
            r is Ok <==> multi_ok(dict@),
            r matches Ok(m) ==> multi_matches(m, dict@),
            r matches Err(e) ==> e.kind == ErrorKind::Malformed,
    {
        if let Some(Bencode::Text(name)) = dict.get("name".as_bytes()) {
            if let Some(Bencode::List(files)) = dict.get("files".as_bytes()) {
                let ghost fs = items_view(files@);
                proof {
                    lemma_items_view(files@);
                }
                let mut file_items: Vec<MultiFileItem> = Vec::new();
                let mut i: usize = 0;
                while i < files.len()
                    invariant
                        i <= files@.len(),
                        fs == items_view(files@),
                        fs.len() == files@.len(),
                        files_field(dict@) == Some(fs),
                        forall|j: int| 0 <= j < files@.len() ==> #[trigger] fs[j] == model(files@[j]),
                        file_items@.len() == i,
                        forall|j: int| 0 <= j < i ==> item_ok(#[trigger] fs[j]),
                        forall|j: int| 0 <= j < i ==> item_matches(#[trigger] file_items@[j], fs[j]),
                    decreases files@.len() - i,
                {
                    match MultiFileItem::from(&files[i]) {
                        Ok(item) => {
                            file_items.push(item);
                        },
                        Err(e) => {
                            assert(!item_ok(fs[i as int]));
                            assert(files_field(dict@)->0[i as int] == fs[i as int]);
                            return Err(e);
                        },
                    }
                    i = i + 1;
                }
                return Ok(MultiFile { name: name.print(), files: file_items });
            }
        }
        Err(parsing_error("invalid multi-file"))
    }
}

/// How the files of a torrent are laid out.
#[derive(Debug, PartialEq, Eq)]
pub enum FileMode {
    Single(SingleFile),
    Multi(MultiFile),
}

/// Whether an info dictionary describes its files: several when it has a
/// `files` entry, one otherwise.
pub open spec fn file_mode_ok(d: Value) -> bool {
    if dict_get(d, "files".spec_bytes()) is Some {
        multi_ok(d)
    } else {
        single_ok(d)
    }
}

pub open spec fn file_mode_matches(m: FileMode, d: Value) -> bool {
    match m {
        FileMode::Single(f) => dict_get(d, "files".spec_bytes()) is None && single_matches(f, d),
        FileMode::Multi(f) => dict_get(d, "files".spec_bytes()) is Some && multi_matches(f, d),
    }
}

/// The `info` dictionary of a torrent.
#[derive(Debug)]
pub struct Info {
    /// Number of bytes in each piece.
    pub piece_length: u64,
    /// The 20-byte SHA-1 digests of the pieces, one after another.
    pub pieces: ByteString,
    /// Whether peers may be found only through the listed trackers.
    pub private: bool,
    pub file_info: FileMode,
    /// The wire form of the `info` dictionary, whose digest names the torrent.
    pub bencode_value: Vec<u8>,
}

/// The `info` dictionary of a meta-info dictionary.
pub open spec fn info_field(d: Value) -> Value {
    dict_get(d, "info".spec_bytes())->0
}

pub open spec fn info_ok(d: Value) -> bool {
    &&& dict_get(d, "info".spec_bytes()) matches Some(Value::Dict(_))
    &&& number_field(info_field(d), "piece length".spec_bytes()) is Some
    &&& text_field(info_field(d), "pieces".spec_bytes()) is Some
    &&& file_mode_ok(info_field(d))
}

pub open spec fn info_matches(info: Info, d: Value) -> bool {
    let i = info_field(d);
    &&& info.piece_length == number_field(i, "piece length".spec_bytes())->0
    &&& info.pieces@ == text_field(i, "pieces".spec_bytes())->0
    &&& info.private == (dict_get(i, "private".spec_bytes()) == Some(Value::Number(1)))
    &&& file_mode_matches(info.file_info, i)
    &&& info.bencode_value@ == crate::grammar::enc(i)
}

impl Info {
    /// Reads the `info` dictionary of a meta-info dictionary.
    pub fn from(dict: &Bencode) -> (r: Result<Info, BencodeError>)
        ensures
            r is Ok <==> info_ok(dict@),
            r matches Ok(info) ==> info_matches(info, dict@),
            r matches Err(e) ==> e.kind == ErrorKind::Malformed,
    {
        let info_dict = match get_value("info", dict) {
            Ok(v) => v,
            Err(e) => {
                return Err(e);
            },
        };
        if let Bencode::Dict(_) = info_dict {
            if let Some(Bencode::Number(piece_length)) = info_dict.get("piece length".as_bytes()) {
                if let Some(Bencode::Text(pieces)) = info_dict.get("pieces".as_bytes()) {
                    let private = match info_dict.get("private".as_bytes()) {
                        Some(Bencode::Number(n)) => *n == 1,
                        _ => false,
                    };
                    let file_info = match Self::parse_file_info(info_dict) {
                        Ok(f) => f,
                        Err(e) => {
                            return Err(e);
                        },
                    };
                    return Ok(Info {
                        piece_length: *piece_length,
                        pieces: ByteString::from_vec(slice_to_vec_bytes(pieces.0.as_slice())),
                        private,
                        file_info,
                        bencode_value: BencodeParser::encode(info_dict),
                    });
                }
            }
        }
        Err(parsing_error("invalid meta info"))
    }

    /// Several files when the dictionary has a `files` entry, one otherwise.
    fn parse_file_info(dict: &Bencode) -> (r: Result<FileMode, BencodeError>)
        ensures
            r is Ok <==> file_mode_ok(dict@),
            r matches Ok(m) ==> file_mode_matches(m, dict@),
            r matches Err(e) ==> e.kind == ErrorKind::Malformed,
    {
        match dict.get("files".as_bytes()) {
            Some(_) => match MultiFile::from(dict) {
                Ok(m) => Ok(FileMode::Multi(m)),
                Err(e) => Err(e),
            },
            None => match SingleFile::from(dict) {
                Ok(f) => Ok(FileMode::Single(f)),
                Err(e) => Err(e),
            },
        }
    }
}

/// The URLs of an `announce-list`: the byte strings of each inner list,
/// shown, one list after another; items that are not lists are skipped.
pub open spec fn announce_urls(outer: Seq<Value>) -> Seq<Seq<char>>
    decreases outer.len(),
{
    if outer.len() == 0 {
        seq![]
    } else {
        match outer.last() {
            Value::List(inner) => announce_urls(outer.drop_last()) + texts(inner),
            _ => announce_urls(outer.drop_last()),
        }
    }
}

pub open spec fn announce_list_field(d: Value) -> Option<Seq<Seq<char>>> {
    match dict_get(d, "announce-list".spec_bytes()) {
        Some(Value::List(outer)) => Some(announce_urls(outer)),
        _ => None,
    }
}

pub open spec fn strings_opt(o: Option<Vec<String>>) -> Option<Seq<Seq<char>>> {
    match o {
        Some(l) => Some(strings_view(l@)),
        None => None,
    }
}

/// Whether a decoded document is a meta-info dictionary.
pub open spec fn meta_ok(d: Value) -> bool {
    info_ok(d) && text_field(d, "announce".spec_bytes()) is Some
}

/// The fields of `m` are those that `d` holds.
pub open spec fn meta_matches(m: MetaInfo, d: Value) -> bool {
    &&& info_matches(m.info, d)
    &&& m.announce@ == display_chars(text_field(d, "announce".spec_bytes())->0)
    &&& strings_opt(m.announce_list) == announce_list_field(d)
    &&& m.creation_date == number_field(d, "creation date".spec_bytes())
    &&& string_opt(m.comment) == shown(text_field(d, "comment".spec_bytes()))
    &&& string_opt(m.created_by) == shown(text_field(d, "created by".spec_bytes()))
    &&& string_opt(m.encoding) == shown(text_field(d, "encoding".spec_bytes()))
}

/// A torrent meta-info file.
#[derive(Debug)]
pub struct MetaInfo {
    pub info: Info,
    /// The announce URL of the tracker.
    pub announce: String,
    /// Further trackers, flattened from the tiers of `announce-list`.
    pub announce_list: Option<Vec<String>>,
    /// Creation time, in seconds since the Unix epoch.
    pub creation_date: Option<u64>,
    /// Free-form comment of the author.
    pub comment: Option<String>,
    pub created_by: Option<String>,
    /// The text encoding of the `pieces` field's source.
    pub encoding: Option<String>,
}

/// The URLs of the tiers of an `announce-list`, flattened.
fn announce_urls_of(outer: &Vec<Bencode>) -> (r: Vec<String>)
    ensures
        strings_view(r@) == announce_urls(items_view(outer@)),
{
    let ghost all = items_view(outer@);
    proof {
        lemma_items_view(outer@);
    }
    let mut values: Vec<String> = Vec::new();
    let mut i: usize = 0;
    assert(all.subrange(0, 0) =~= Seq::<Value>::empty());
    assert(strings_view(values@) =~= Seq::<Seq<char>>::empty());
    while i < outer.len()
        invariant
            i <= outer@.len(),
            all == items_view(outer@),
            all.len() == outer@.len(),
            forall|j: int| 0 <= j < outer@.len() ==> #[trigger] all[j] == model(outer@[j]),
            strings_view(values@) == announce_urls(all.subrange(0, i as int)),
        decreases outer@.len() - i,
    {
        let ghost before = values@;
        assert(all.subrange(0, i as int + 1).drop_last() =~= all.subrange(0, i as int));
        assert(all.subrange(0, i as int + 1).last() == model(outer@[i as int]));
        if let Bencode::List(inner) = &outer[i] {
            let mut urls = texts_of(inner);
            let ghost added = urls@;
            values.append(&mut urls);
            assert(strings_view(values@) =~= strings_view(before) + strings_view(added));
        }
        i = i + 1;
    }
    assert(all.subrange(0, i as int) =~= all);
    values
}

impl MetaInfo {
    /// Reads a meta-info dictionary from its decoded tree.
    pub fn from_bencode(value: &Bencode) -> (r: Result<MetaInfo, BencodeError>)
        ensures
            r is Ok <==> meta_ok(value@),
            r matches Ok(m) ==> meta_matches(m, value@),
            r matches Err(e) ==> e.kind == ErrorKind::Malformed,
    {
        let info = match Info::from(value) {
            Ok(info) => info,
            Err(e) => {
                return Err(e);
            },
        };
        if let Some(Bencode::Text(announce)) = value.get("announce".as_bytes()) {
            let announce_list = match value.get("announce-list".as_bytes()) {
                Some(Bencode::List(outer)) => Some(announce_urls_of(outer)),
                _ => None,
            };
            let creation_date = match value.get("creation date".as_bytes()) {
                Some(Bencode::Number(date)) => Some(*date),
                _ => None,
            };
            return Ok(MetaInfo {
                info,
                announce: announce.print(),
                announce_list,
                creation_date,
                comment: get_optional_str("comment", value),
                created_by: get_optional_str("created by", value),
                encoding: get_optional_str("encoding", value),
            });
        }
        Err(parsing_error("invalid meta info file"))
    }

    /// Decodes a meta-info file's bytes and reads the dictionary.
    pub fn from_bytes(bytes: &[u8]) -> (r: Result<MetaInfo, BencodeError>)
        ensures
            match decode_prefix(bytes@, DEFAULT_MAX_DEPTH as nat) {
                Err((kind, offset)) => r matches Err(e) && e.kind == kind && e.offset == offset,
                Ok((v, _)) => {
                    &&& r is Ok <==> meta_ok(v)
                    &&& r matches Ok(m) ==> meta_matches(m, v)
                    &&& r matches Err(e) ==> e.kind == ErrorKind::Malformed
                },
            },
    {
        match BencodeParser::decode(bytes) {
            Ok(value) => Self::from_bencode(&value),
            Err(e) => Err(e),
        }
    }
}

} // verus!
