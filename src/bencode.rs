//! The bencode value tree and its codec.
use vstd::prelude::*;
use crate::byte_string::ByteString;
use crate::grammar::{Value, digits, enc, enc_text, enc_items, enc_entries};

verus! {

broadcast use vstd::std_specs::vec::group_vec_axioms;

/// What went wrong while reading a document.
#[derive(Clone, Copy, Debug, PartialEq, Eq, Structural)]
pub enum ErrorKind {
    /// A value starts with a byte that begins no production.
    UnexpectedByte,
    /// A string's length prefix is not a well-formed, in-range number.
    InvalidLength,
    /// An integer has no digits, a non-digit, or does not fit in 64 bits.
    InvalidInteger,
    /// The input ends inside a value.
    Truncated,
    /// A dictionary key is not a string.
    NonStringKey,
    /// Containers nest deeper than allowed.
    DepthLimit,
    /// The bytes of the document could not be read.
    Io,
    /// The document does not have the shape that a reader expects.
    Malformed,
}

/// A failure to read a document: its kind, the byte offset where it was
/// found (the start of the production that failed, or the end of the input
/// where a closing marker was due), and a free-form message.
#[derive(Clone, Debug)]
pub struct BencodeError {
    pub kind: ErrorKind,
    pub offset: usize,
    pub message: String,
}

impl BencodeError {
    /// An error of a reader that found the document in an unexpected shape.
    pub fn new(message: String) -> (r: Self)
        ensures
            r.kind == ErrorKind::Malformed,
            r.offset == 0,
            r.message == message,
    {
        BencodeError { kind: ErrorKind::Malformed, offset: 0, message }
    }

    /// An error of the given kind at the given offset, without a message.
    pub fn at(kind: ErrorKind, offset: usize) -> (r: Self)
        ensures
            r.kind == kind,
            r.offset == offset,
            r.message@ == Seq::<char>::empty(),
    {
        BencodeError { kind, offset, message: String::new() }
    }
}

/// A decoded bencode value.
#[derive(Debug, PartialEq, Eq)]
pub enum Bencode {
    /// A byte string; it need not be valid text.
    Text(ByteString),
    Number(u64),
    List(Vec<Bencode>),
    /// Entries in their stored order.
    Dict(Vec<(ByteString, Bencode)>),
}

/// The mathematical tree of an in-memory value.
pub open spec fn model(b: Bencode) -> Value
    decreases b,
{
    match b {
        Bencode::Text(t) => Value::Text(t@),
        Bencode::Number(n) => Value::Number(n),
        Bencode::List(items) => Value::List(items_view(items@)),
        Bencode::Dict(entries) => Value::Dict(entries_view(entries@)),
    }
}

/// The trees of a sequence of values.
pub open spec fn items_view(s: Seq<Bencode>) -> Seq<Value>
    decreases s,
{
    if s.len() == 0 {
        seq![]
    } else {
        items_view(s.drop_last()).push(model(s.last()))
    }
}

/// The keys' bytes and the values' trees of a sequence of entries.
pub open spec fn entries_view(s: Seq<(ByteString, Bencode)>) -> Seq<(Seq<u8>, Value)>
    decreases s,
{
    if s.len() == 0 {
        seq![]
    } else {
        entries_view(s.drop_last()).push((s.last().0@, model(s.last().1)))
    }
}

/// The value of the first entry whose key is `k`.
pub open spec fn first_match(entries: Seq<(Seq<u8>, Value)>, k: Seq<u8>) -> Option<Value>
    decreases entries.len(),
{
    if entries.len() == 0 {
        None
    } else if entries[0].0 == k {
        Some(entries[0].1)
    } else {
        first_match(entries.drop_first(), k)
    }
}

/// What a dictionary holds under key `k`; nothing when `v` is no dictionary.
pub open spec fn dict_get(v: Value, k: Seq<u8>) -> Option<Value> {
    match v {
        Value::Dict(entries) => first_match(entries, k),
        _ => None,
    }
}

impl View for Bencode {
    type V = Value;

    open spec fn view(&self) -> Value {
        model(*self)
    }
}

pub proof fn lemma_items_view(s: Seq<Bencode>)
    ensures
        items_view(s).len() == s.len(),
        forall|i: int| 0 <= i < s.len() ==> #[trigger] items_view(s)[i] == model(s[i]),
    decreases s.len(),
{
    if s.len() > 0 {
        lemma_items_view(s.drop_last());
    }
}

pub proof fn lemma_entries_view(s: Seq<(ByteString, Bencode)>)
    ensures
        entries_view(s).len() == s.len(),
        forall|i: int| 0 <= i < s.len() ==> #[trigger] entries_view(s)[i] == (s[i].0@, model(s[i].1)),
    decreases s.len(),
{
    if s.len() > 0 {
        lemma_entries_view(s.drop_last());
    }
}

proof fn lemma_items_view_prefix(s: Seq<Bencode>, i: int)
    requires
        0 <= i < s.len(),
    ensures
        items_view(s.subrange(0, i + 1)) == items_view(s.subrange(0, i)).push(model(s[i])),
{
    assert(s.subrange(0, i + 1).drop_last() =~= s.subrange(0, i));
}

proof fn lemma_entries_view_prefix(s: Seq<(ByteString, Bencode)>, i: int)
    requires
        0 <= i < s.len(),
    ensures
        entries_view(s.subrange(0, i + 1)) == entries_view(s.subrange(0, i)).push((s[i].0@, model(s[i].1))),
{
    assert(s.subrange(0, i + 1).drop_last() =~= s.subrange(0, i));
}

proof fn lemma_enc_items_push(xs: Seq<Value>, x: Value)
    ensures
        enc_items(xs.push(x)) == enc_items(xs) + enc(x),
    decreases xs.len(),
{
    if xs.len() == 0 {
        let ys = xs.push(x);
        assert(ys.drop_first() =~= Seq::<Value>::empty());
        assert(enc_items(ys.drop_first()) == Seq::<u8>::empty());
        assert(ys[0] == x);
        assert(enc_items(ys) =~= enc(x));
        assert(enc_items(xs) == Seq::<u8>::empty());
        assert(enc_items(ys) =~= enc_items(xs) + enc(x));
    } else {
        assert(xs.push(x).drop_first() =~= xs.drop_first().push(x));
        lemma_enc_items_push(xs.drop_first(), x);
        assert(enc_items(xs.push(x)) =~= enc_items(xs) + enc(x));
    }
}

proof fn lemma_enc_entries_push(es: Seq<(Seq<u8>, Value)>, e: (Seq<u8>, Value))
    ensures
        enc_entries(es.push(e)) == enc_entries(es) + enc_text(e.0) + enc(e.1),
    decreases es.len(),
{
    if es.len() == 0 {
        let ys = es.push(e);
        assert(ys.drop_first() =~= Seq::<(Seq<u8>, Value)>::empty());
        assert(enc_entries(ys.drop_first()) == Seq::<u8>::empty());
        assert(ys[0] == e);
        assert(enc_entries(es) == Seq::<u8>::empty());
        assert(enc_entries(ys) =~= enc_entries(es) + enc_text(e.0) + enc(e.1));
    } else {
        assert(es.push(e).drop_first() =~= es.drop_first().push(e));
        lemma_enc_entries_push(es.drop_first(), e);
        assert(enc_entries(es.push(e)) =~= enc_entries(es) + enc_text(e.0) + enc(e.1));
    }
}

/// The ASCII decimal digits of `n`.
pub fn decimal_digits(n: u64) -> (r: Vec<u8>)
    ensures
        r@ == digits(n as nat),
    decreases n,
{
    if n < 10 {
        let mut v: Vec<u8> = Vec::new();
        v.push((n + 48) as u8);
        assert(v@ =~= digits(n as nat));
        v
    } else {
        let mut v = decimal_digits(n / 10);
        v.push((n % 10 + 48) as u8);
        v
    }
}

impl Bencode {
    /// The value stored under `key` when this is a dictionary (that of the
    /// first entry with that key); `None` when it is absent or this is not
    /// a dictionary.
    pub fn get(&self, key: &[u8]) -> (r: Option<&Bencode>)
        ensures
            match r {
                Some(b) => dict_get(self@, key@) == Some(b@),
                None => dict_get(self@, key@) is None,
            },
    {
        match self {
            Bencode::Dict(entries) => {
                let ghost es = entries_view(entries@);
                proof {
                    lemma_entries_view(entries@);
                    assert(es.subrange(0, es.len() as int) =~= es);
                }
                let mut i: usize = 0;
                while i < entries.len()
                    invariant
                        i <= entries@.len(),
                        es == entries_view(entries@),
                        self@ == Value::Dict(es),
                        es.len() == entries@.len(),
                        forall|j: int| 0 <= j < entries@.len() ==> #[trigger] es[j] == (entries@[j].0@, model(entries@[j].1)),
                        first_match(es, key@) == first_match(es.subrange(i as int, es.len() as int), key@),
                    decreases entries@.len() - i,
                {
                    let ghost rest = es.subrange(i as int, es.len() as int);
                    assert(rest[0] == es[i as int]);
                    if entries[i].0.equals_bytes(key) {
                        assert(rest[0].0 == key@);
                        assert(first_match(rest, key@) == Some(model(entries@[i as int].1)));
                        return Some(&entries[i].1);
                    }
                    assert(rest.drop_first() =~= es.subrange(i + 1, es.len() as int));
                    i = i + 1;
                }
                None
            },
            _ => None,
        }
    }
}

/// Reads and writes bencoded documents.
pub struct BencodeParser;

impl BencodeParser {
    /// The wire form of a value. Dictionary entries are written in their
    /// stored order; every value has a wire form, so this cannot fail.
    pub fn encode(value: &Bencode) -> (r: Vec<u8>)
        ensures
            r@ == enc(value@),
        decreases value,
    {
        match value {
            Bencode::Dict(d) => Self::encode_dict(d),
            Bencode::List(l) => Self::encode_list(l),
            Bencode::Number(n) => Self::encode_number(n),
            Bencode::Text(t) => Self::encode_text(t),
        }
    }

    fn encode_number(value: &u64) -> (r: Vec<u8>)
        ensures
            r@ == seq![105u8] + digits(*value as nat) + seq![101u8],
    {
        let mut out: Vec<u8> = Vec::new();
        out.push(105u8);
        let mut digits = decimal_digits(*value);
        out.append(&mut digits);
        out.push(101u8);
        out
    }

    fn encode_text(value: &ByteString) -> (r: Vec<u8>)
        ensures
            r@ == enc_text(value@),
    {
        let mut out = decimal_digits(value.0.len() as u64);
        out.push(58u8);
        let mut i: usize = 0;
        while i < value.0.len()
            invariant
                i <= value@.len(),
                out@ == digits(value@.len()) + seq![58u8] + value@.subrange(0, i as int),
            decreases value@.len() - i,
        {
            out.push(value.0[i]);
            assert(value@.subrange(0, i as int + 1) =~= value@.subrange(0, i as int).push(value@[i as int]));
            i = i + 1;
        }
        assert(value@.subrange(0, i as int) =~= value@);
        out
    }

    fn encode_list(values: &Vec<Bencode>) -> (r: Vec<u8>)
        ensures
            r@ == seq![108u8] + enc_items(items_view(values@)) + seq![101u8],
        decreases values,
    {
        let mut out: Vec<u8> = Vec::new();
        out.push(108u8);
        let mut i: usize = 0;
        while i < values.len()
            invariant
                i <= values@.len(),
                out@ == seq![108u8] + enc_items(items_view(values@.subrange(0, i as int))),
            decreases values@.len() - i,
        {
            let mut part = Self::encode(&values[i]);
            proof {
                lemma_items_view_prefix(values@, i as int);
                lemma_enc_items_push(items_view(values@.subrange(0, i as int)), model(values@[i as int]));
            }
            out.append(&mut part);
            i = i + 1;
        }
        assert(values@.subrange(0, i as int) =~= values@);
        out.push(101u8);
        out
    }

    fn encode_dict(entries: &Vec<(ByteString, Bencode)>) -> (r: Vec<u8>)
        ensures
            r@ == seq![100u8] + enc_entries(entries_view(entries@)) + seq![101u8],
        decreases entries,
    {
        let mut out: Vec<u8> = Vec::new();
        out.push(100u8);
        let mut i: usize = 0;
        while i < entries.len()
            invariant
                i <= entries@.len(),
                out@ == seq![100u8] + enc_entries(entries_view(entries@.subrange(0, i as int))),
            decreases entries@.len() - i,
        {
            let entry = &entries[i];
            let mut key = Self::encode_text(&entry.0);
            let mut value = Self::encode(&entry.1);
            proof {
                lemma_entries_view_prefix(entries@, i as int);
                lemma_enc_entries_push(
                    entries_view(entries@.subrange(0, i as int)),
                    (entries@[i as int].0@, model(entries@[i as int].1)),
                );
            }
            out.append(&mut key);
            out.append(&mut value);
            i = i + 1;
        }
        assert(entries@.subrange(0, i as int) =~= entries@);
        out.push(101u8);
        out
    }
}

} // verus!
