//! The mathematical model of a bencoded document: the value tree, its wire
//! form, and the grammar that reads a value tree back from bytes.
//!
//! Bytes of the format are written by their ASCII values: `i` 105, `l` 108,
//! `d` 100, `e` 101, `:` 58, and the digits `0`..`9` 48..57.
use vstd::prelude::*;
use crate::bencode::ErrorKind;

verus! {

/// A decoded document as a mathematical tree.
pub ghost enum Value {
    Text(Seq<u8>),
    Number(u64),
    List(Seq<Value>),
    Dict(Seq<(Seq<u8>, Value)>),
}

/// Outcome of reading one production: what was read and the position just
/// after it, or the kind of failure and the position where it was found.
pub type Outcome<T> = Result<(T, int), (ErrorKind, int)>;

pub open spec fn is_digit(b: u8) -> bool {
    48 <= b <= 57
}

/// The ASCII decimal digits of `n`, most significant first, without leading zeros.
pub open spec fn digits(n: nat) -> Seq<u8>
    decreases n,
{
    if n < 10 {
        seq![(n + 48) as u8]
    } else {
        digits(n / 10).push(((n % 10) + 48) as u8)
    }
}

/// The number that a run of ASCII decimal digits denotes.
pub open spec fn digits_value(s: Seq<u8>) -> nat
    decreases s.len(),
{
    if s.len() == 0 {
        0
    } else {
        digits_value(s.drop_last()) * 10 + (s.last() - 48) as nat
    }
}

/// Wire form of a byte string: its decimal length, `:`, then the bytes.
pub open spec fn enc_text(b: Seq<u8>) -> Seq<u8> {
    digits(b.len()) + seq![58u8] + b
}

/// Wire form of a value.
pub open spec fn enc(v: Value) -> Seq<u8>
    decreases v,
{
    match v {
        Value::Text(b) => enc_text(b),
        Value::Number(n) => seq![105u8] + digits(n as nat) + seq![101u8],
        Value::List(items) => seq![108u8] + enc_items(items) + seq![101u8],
        Value::Dict(entries) => seq![100u8] + enc_entries(entries) + seq![101u8],
    }
}

/// Wire form of the items of a list, in order.
pub open spec fn enc_items(items: Seq<Value>) -> Seq<u8>
    decreases items,
{
    if items.len() == 0 {
        seq![]
    } else {
        enc(items[0]) + enc_items(items.drop_first())
    }
}

/// Wire form of the entries of a dictionary, in their stored order.
pub open spec fn enc_entries(entries: Seq<(Seq<u8>, Value)>) -> Seq<u8>
    decreases entries,
{
    if entries.len() == 0 {
        seq![]
    } else {
        enc_text(entries[0].0) + enc(entries[0].1) + enc_entries(entries.drop_first())
    }
}

/// No two entries share a key.
pub open spec fn keys_unique<V>(entries: Seq<(Seq<u8>, V)>) -> bool {
    forall|i: int, j: int|
        0 <= i < j < entries.len() ==> #[trigger] entries[i].0 != #[trigger] entries[j].0
}

/// Whether some entry has key `k`.
pub open spec fn has_key<V>(entries: Seq<(Seq<u8>, V)>, k: Seq<u8>) -> bool {
    exists|i: int| 0 <= i < entries.len() && #[trigger] entries[i].0 == k
}

/// Ordered-map insertion: an existing key keeps its position and takes the
/// new value; a new key goes last.
pub open spec fn insert_entry<V>(entries: Seq<(Seq<u8>, V)>, k: Seq<u8>, v: V) -> Seq<(Seq<u8>, V)> {
    if has_key(entries, k) {
        let i = choose|i: int| 0 <= i < entries.len() && #[trigger] entries[i].0 == k;
        entries.update(i, (k, v))
    } else {
        entries.push((k, v))
    }
}

/// Every dictionary in the tree has distinct keys, and every byte string
/// (key or value) has a length that fits in 64 bits.
pub open spec fn well_formed(v: Value) -> bool
    decreases v,
{
    match v {
        Value::Text(b) => b.len() <= u64::MAX,
        Value::Number(_) => true,
        Value::List(items) => forall|i: int| 0 <= i < items.len() ==> well_formed(#[trigger] items[i]),
        Value::Dict(entries) => keys_unique(entries) && forall|i: int|
            0 <= i < entries.len() ==> entries[i].0.len() <= u64::MAX && well_formed(
                #[trigger] entries[i].1,
            ),
    }
}

/// Containers nest at most `d` levels deep.
pub open spec fn fits_depth(v: Value, d: nat) -> bool
    decreases v,
{
    match v {
        Value::List(items) => d > 0 && forall|i: int|
            0 <= i < items.len() ==> fits_depth(#[trigger] items[i], (d - 1) as nat),
        Value::Dict(entries) => d > 0 && forall|i: int|
            0 <= i < entries.len() ==> fits_depth(#[trigger] entries[i].1, (d - 1) as nat),
        _ => true,
    }
}

/// The first position at or after `pos` that holds no digit (or the end).
pub open spec fn scan_digits(s: Seq<u8>, pos: int) -> int
    decreases s.len() - pos,
{
    if pos < 0 || pos >= s.len() || !is_digit(s[pos]) {
        pos
    } else {
        scan_digits(s, pos + 1)
    }
}

/// Where a run of digits ends, and that it holds only digits.
pub proof fn lemma_scan(s: Seq<u8>, pos: int)
    requires
        0 <= pos <= s.len(),
    ensures
        pos <= scan_digits(s, pos) <= s.len(),
        forall|k: int| pos <= k < scan_digits(s, pos) ==> is_digit(#[trigger] s[k]),
        scan_digits(s, pos) < s.len() ==> !is_digit(s[scan_digits(s, pos)]),
    decreases s.len() - pos,
{
    if pos < s.len() && is_digit(s[pos]) {
        lemma_scan(s, pos + 1);
    }
}

/// Reads an integer whose `i` stands at `start`: digits, then `e`.
pub open spec fn parse_int(s: Seq<u8>, start: int) -> Outcome<u64> {
    let end = scan_digits(s, start + 1);
    if end >= s.len() {
        Err((ErrorKind::Truncated, start))
    } else if s[end] != 101u8 || end == start + 1 {
        Err((ErrorKind::InvalidInteger, start))
    } else if digits_value(s.subrange(start + 1, end)) > u64::MAX {
        Err((ErrorKind::InvalidInteger, start))
    } else {
        Ok((digits_value(s.subrange(start + 1, end)) as u64, end + 1))
    }
}

/// Reads a byte string whose length starts at `start`: digits, `:`, then
/// exactly that many bytes.
pub open spec fn parse_text(s: Seq<u8>, start: int) -> Outcome<Seq<u8>> {
    let colon = scan_digits(s, start);
    if colon >= s.len() {
        Err((ErrorKind::Truncated, start))
    } else if s[colon] != 58u8 || colon == start {
        Err((ErrorKind::InvalidLength, start))
    } else if digits_value(s.subrange(start, colon)) > u64::MAX {
        Err((ErrorKind::InvalidLength, start))
    } else if colon + 1 + digits_value(s.subrange(start, colon)) > s.len() {
        Err((ErrorKind::Truncated, start))
    } else {
        let end = colon + 1 + digits_value(s.subrange(start, colon));
        Ok((s.subrange(colon + 1, end), end))
    }
}

/// Reads one value at `pos`, with at most `depth` levels of containers.
pub open spec fn parse_value(s: Seq<u8>, pos: int, depth: nat) -> Outcome<Value>
    decreases s.len() - pos, 0int,
{
    if pos < 0 || pos >= s.len() {
        Err((ErrorKind::Truncated, pos))
    } else if s[pos] == 105u8 {
        match parse_int(s, pos) {
            Ok((n, e)) => Ok((Value::Number(n), e)),
            Err(x) => Err(x),
        }
    } else if is_digit(s[pos]) {
        match parse_text(s, pos) {
            Ok((b, e)) => Ok((Value::Text(b), e)),
            Err(x) => Err(x),
        }
    } else if s[pos] == 108u8 || s[pos] == 100u8 {
        if depth == 0 {
            Err((ErrorKind::DepthLimit, pos))
        } else if s[pos] == 108u8 {
            match parse_items(s, pos + 1, (depth - 1) as nat, seq![]) {
                Ok((items, e)) => Ok((Value::List(items), e)),
                Err(x) => Err(x),
            }
        } else {
            match parse_entries(s, pos + 1, (depth - 1) as nat, seq![]) {
                Ok((entries, e)) => Ok((Value::Dict(entries), e)),
                Err(x) => Err(x),
            }
        }
    } else {
        Err((ErrorKind::UnexpectedByte, pos))
    }
}

/// Reads list items from `pos` up to and including the closing `e`,
/// appending them to `acc`.
pub open spec fn parse_items(s: Seq<u8>, pos: int, depth: nat, acc: Seq<Value>) -> Outcome<Seq<Value>>
    decreases s.len() - pos, 1int,
{
    if pos < 0 || pos >= s.len() {
        Err((ErrorKind::Truncated, pos))
    } else if s[pos] == 101u8 {
        Ok((acc, pos + 1))
    } else {
        match parse_value(s, pos, depth) {
            Err(x) => Err(x),
            Ok((v, next)) => if pos < next && next <= s.len() {
                parse_items(s, next, depth, acc.push(v))
            } else {
                Err((ErrorKind::Truncated, pos))
            },
        }
    }
}

/// Reads dictionary entries from `pos` up to and including the closing
/// `e`, inserting them into `acc` in order.
pub open spec fn parse_entries(
    s: Seq<u8>,
    pos: int,
    depth: nat,
    acc: Seq<(Seq<u8>, Value)>,
) -> Outcome<Seq<(Seq<u8>, Value)>>
    decreases s.len() - pos, 1int,
{
    if pos < 0 || pos >= s.len() {
        Err((ErrorKind::Truncated, pos))
    } else if s[pos] == 101u8 {
        Ok((acc, pos + 1))
    } else if !is_digit(s[pos]) {
        Err((ErrorKind::NonStringKey, pos))
    } else {
        match parse_text(s, pos) {
            Err(x) => Err(x),
            Ok((k, after_key)) => if pos < after_key && after_key <= s.len() {
                match parse_value(s, after_key, depth) {
                    Err(x) => Err(x),
                    Ok((v, next)) => if after_key < next && next <= s.len() {
                        parse_entries(s, next, depth, insert_entry(acc, k, v))
                    } else {
                        Err((ErrorKind::Truncated, pos))
                    },
                }
            } else {
                Err((ErrorKind::Truncated, pos))
            },
        }
    }
}

/// Reads the first complete value of `s`; bytes after it are not read.
pub open spec fn decode_prefix(s: Seq<u8>, max_depth: nat) -> Outcome<Value> {
    parse_value(s, 0, max_depth)
}

} // verus!
