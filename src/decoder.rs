//! Reading a bencoded document into a value tree.
use vstd::prelude::*;
use vstd::slice::slice_subrange;
use crate::bencode::{
    Bencode, BencodeError, BencodeParser, ErrorKind, entries_view, items_view, lemma_entries_view, model,
};
use crate::byte_string::{ByteString, slice_to_vec_bytes};
use crate::grammar::{
    Value, decode_prefix, digits_value, has_key, insert_entry, is_digit, keys_unique, parse_entries,
    parse_int, parse_items, parse_text, parse_value, scan_digits, lemma_scan,
};
use crate::ordered::{entries_of, insert, into_entries, new_map};

verus! {

/// How many levels of nested containers `decode` accepts.
pub const DEFAULT_MAX_DEPTH: usize = 512;

/// `r` is what the grammar reads from `s` with at most `max_depth` levels
/// of containers: the same tree, or an error of the same kind at the same
/// offset.
pub open spec fn decoded_as(r: Result<Bencode, BencodeError>, s: Seq<u8>, max_depth: nat) -> bool {
    match decode_prefix(s, max_depth) {
        Ok((v, _)) => r matches Ok(b) && b@ == v,
        Err((kind, offset)) => r matches Err(e) && e.kind == kind && e.offset == offset,
    }
}

/// The trees of a map's entries.
pub open spec fn pairs_view(s: Seq<(Seq<u8>, Bencode)>) -> Seq<(Seq<u8>, Value)> {
    Seq::new(s.len(), |i: int| (s[i].0, model(s[i].1)))
}

proof fn lemma_digits_value_prefix(t: Seq<u8>, k: int)
    requires
        0 <= k <= t.len(),
        forall|j: int| 0 <= j < t.len() ==> is_digit(#[trigger] t[j]),
    ensures
        digits_value(t.subrange(0, k)) <= digits_value(t),
    decreases t.len(),
{
    if k == t.len() {
        assert(t.subrange(0, k) =~= t);
    } else {
        assert(t.drop_last().subrange(0, k) =~= t.subrange(0, k));
        lemma_digits_value_prefix(t.drop_last(), k);
    }
}

proof fn lemma_pairs_view_insert(es: Seq<(Seq<u8>, Bencode)>, k: Seq<u8>, v: Bencode)
    requires
        keys_unique(es),
    ensures
        pairs_view(insert_entry(es, k, v)) == insert_entry(pairs_view(es), k, model(v)),
        keys_unique(insert_entry(es, k, v)),
{
    let vs = pairs_view(es);
    if has_key(es, k) {
        let i = choose|i: int| 0 <= i < es.len() && #[trigger] es[i].0 == k;
        assert(vs[i].0 == k);
        assert(has_key(vs, k));
        let j = choose|j: int| 0 <= j < vs.len() && #[trigger] vs[j].0 == k;
        assert(es[j].0 == k);
        assert(i == j);
        assert(pairs_view(insert_entry(es, k, v)) =~= insert_entry(pairs_view(es), k, model(v)));
    } else {
        assert(!has_key(vs, k)) by {
            if has_key(vs, k) {
                let j = choose|j: int| 0 <= j < vs.len() && #[trigger] vs[j].0 == k;
                assert(es[j].0 == k);
            }
        }
        assert(pairs_view(insert_entry(es, k, v)) =~= insert_entry(pairs_view(es), k, model(v)));
    }
}

impl BencodeParser {
    /// Reads the first complete value of `raw_content`, with at most
    /// `DEFAULT_MAX_DEPTH` levels of nested containers. Bytes after that
    /// value are not read: a buffer may hold more than one document.
    ///
    /// Dictionaries keep their keys in the order of first appearance. A key
    /// that appears again does not add an entry: its entry keeps its first
    /// position and takes the value read last. This is a choice of this
    /// library, not a rule of the format.
    pub fn decode(raw_content: &[u8]) -> (r: Result<Bencode, BencodeError>)
        ensures
            decoded_as(r, raw_content@, DEFAULT_MAX_DEPTH as nat),
    {
        Self::decode_with_max_depth(raw_content, DEFAULT_MAX_DEPTH)
    }

    /// Reads the first complete value of `raw_content`, with at most
    /// `max_depth` levels of nested containers; a deeper document fails
    /// with `ErrorKind::DepthLimit`.
    pub fn decode_with_max_depth(raw_content: &[u8], max_depth: usize) -> (r: Result<Bencode, BencodeError>)
        ensures
            decoded_as(r, raw_content@, max_depth as nat),
    {
        match Self::parse(raw_content, 0, max_depth) {
            Ok((value, _)) => Ok(value),
            Err(e) => Err(e),
        }
    }

    /// The first position at or after `pos` that holds no ASCII digit.
    fn scan_digits(s: &[u8], pos: usize) -> (r: usize)
        requires
            pos <= s@.len(),
        ensures
            r == scan_digits(s@, pos as int),
    {
        let mut i = pos;
        while i < s.len() && Self::is_digit(s[i])
            invariant
                pos <= i <= s@.len(),
                scan_digits(s@, pos as int) == scan_digits(s@, i as int),
            decreases s@.len() - i,
        {
            i = i + 1;
        }
        i
    }

    /// Whether the byte is an ASCII decimal digit.
    fn is_digit(b: u8) -> (r: bool)
        ensures
            r == is_digit(b),
    {
        48 <= b && b <= 57
    }

    /// The number that the digits `s[start..end]` denote, or `None` when it
    /// does not fit in 64 bits.
    fn digits_to_u64(s: &[u8], start: usize, end: usize) -> (r: Option<u64>)
        requires
            start <= end <= s@.len(),
            forall|k: int| start <= k < end ==> is_digit(#[trigger] s@[k]),
        ensures
            match r {
                Some(n) => digits_value(s@.subrange(start as int, end as int)) == n,
                None => digits_value(s@.subrange(start as int, end as int)) > u64::MAX,
            },
    {
        let ghost t = s@.subrange(start as int, end as int);
        let mut acc: u64 = 0;
        let mut i = start;
        assert(s@.subrange(start as int, start as int) =~= Seq::<u8>::empty());
        while i < end
            invariant
                start <= i <= end <= s@.len(),
                t == s@.subrange(start as int, end as int),
                forall|k: int| start <= k < end ==> is_digit(#[trigger] s@[k]),
                acc == digits_value(s@.subrange(start as int, i as int)),
            decreases end - i,
        {
            let d = (s[i] - 48) as u64;
            proof {
                assert(s@.subrange(start as int, i as int + 1).drop_last() =~= s@.subrange(start as int, i as int));
                assert(t.subrange(0, i - start + 1) =~= s@.subrange(start as int, i as int + 1));
                assert forall|j: int| 0 <= j < t.len() implies is_digit(#[trigger] t[j]) by {
                    assert(t[j] == s@[start + j]);
                }
                lemma_digits_value_prefix(t, i - start + 1);
            }
            match acc.checked_mul(10) {
                None => {
                    return None;
                },
                Some(m) => match m.checked_add(d) {
                    None => {
                        return None;
                    },
                    Some(x) => {
                        acc = x;
                    },
                },
            }
            i = i + 1;
        }
        Some(acc)
    }

    /// Reads an integer whose `i` stands at `start`.
    fn parse_int(s: &[u8], start: usize) -> (r: Result<(u64, usize), BencodeError>)
        requires
            start < s@.len(),
        ensures
            match r {
                Ok((n, e)) => parse_int(s@, start as int) == Ok::<(u64, int), (ErrorKind, int)>((n, e as int)),
                Err(x) => parse_int(s@, start as int) == Err::<(u64, int), (ErrorKind, int)>((x.kind, x.offset as int)),
            },
            r matches Ok((_, e)) ==> start < e <= s@.len(),
    {
        let len = s.len();
        let end = Self::scan_digits(s, start + 1);
        proof {
            lemma_scan(s@, start + 1);
        }
        if end >= len {
            return Err(BencodeError::at(ErrorKind::Truncated, start));
        }
        if s[end] != 101u8 || end == start + 1 {
            return Err(BencodeError::at(ErrorKind::InvalidInteger, start));
        }
        match Self::digits_to_u64(s, start + 1, end) {
            None => Err(BencodeError::at(ErrorKind::InvalidInteger, start)),
            Some(n) => Ok((n, end + 1)),
        }
    }

    /// Reads a byte string whose length prefix starts at `start`.
    fn parse_str(s: &[u8], start: usize) -> (r: Result<(ByteString, usize), BencodeError>)
        requires
            start < s@.len(),
        ensures
            match r {
                Ok((b, e)) => parse_text(s@, start as int) == Ok::<(Seq<u8>, int), (ErrorKind, int)>((b@, e as int)),
                Err(x) => parse_text(s@, start as int) == Err::<(Seq<u8>, int), (ErrorKind, int)>((x.kind, x.offset as int)),
            },
            r matches Ok((_, e)) ==> start < e <= s@.len(),
    {
        let colon = Self::scan_digits(s, start);
        proof {
            lemma_scan(s@, start as int);
        }
        if colon >= s.len() {
            return Err(BencodeError::at(ErrorKind::Truncated, start));
        }
        if s[colon] != 58u8 || colon == start {
            return Err(BencodeError::at(ErrorKind::InvalidLength, start));
        }
        match Self::digits_to_u64(s, start, colon) {
            None => Err(BencodeError::at(ErrorKind::InvalidLength, start)),
            Some(n) => {
                let available = s.len() - (colon + 1);
                if n > available as u64 {
                    return Err(BencodeError::at(ErrorKind::Truncated, start));
                }
                let end = colon + 1 + n as usize;
                let payload = slice_to_vec_bytes(slice_subrange(s, colon + 1, end));
                Ok((ByteString::from_vec(payload), end))
            },
        }
    }

    /// Reads one value at `pos`, with at most `depth` levels of containers.
    fn parse(s: &[u8], pos: usize, depth: usize) -> (r: Result<(Bencode, usize), BencodeError>)
        requires
            pos <= s@.len(),
        ensures
            match r {
                Ok((b, e)) => parse_value(s@, pos as int, depth as nat) == Ok::<(Value, int), (ErrorKind, int)>((b@, e as int)),
                Err(x) => parse_value(s@, pos as int, depth as nat) == Err::<(Value, int), (ErrorKind, int)>((x.kind, x.offset as int)),
            },
            r matches Ok((_, e)) ==> pos < e <= s@.len(),
        decreases depth,
    {
        if pos >= s.len() {
            return Err(BencodeError::at(ErrorKind::Truncated, pos));
        }
        let byte = s[pos];
        if byte == 105u8 {
            match Self::parse_int(s, pos) {
                Ok((n, e)) => Ok((Bencode::Number(n), e)),
                Err(x) => Err(x),
            }
        } else if Self::is_digit(byte) {
            match Self::parse_str(s, pos) {
                Ok((b, e)) => Ok((Bencode::Text(b), e)),
                Err(x) => Err(x),
            }
        } else if byte == 108u8 || byte == 100u8 {
            if depth == 0 {
                Err(BencodeError::at(ErrorKind::DepthLimit, pos))
            } else if byte == 108u8 {
                Self::parse_list(s, pos, depth)
            } else {
                Self::parse_dict(s, pos, depth)
            }
        } else {
            Err(BencodeError::at(ErrorKind::UnexpectedByte, pos))
        }
    }

    /// Reads a list whose `l` stands at `pos`.
    fn parse_list(s: &[u8], pos: usize, depth: usize) -> (r: Result<(Bencode, usize), BencodeError>)
        requires
            pos < s@.len(),
            s@[pos as int] == 108u8,
            depth > 0,
        ensures
            match r {
                Ok((b, e)) => parse_value(s@, pos as int, depth as nat) == Ok::<(Value, int), (ErrorKind, int)>((b@, e as int)),
                Err(x) => parse_value(s@, pos as int, depth as nat) == Err::<(Value, int), (ErrorKind, int)>((x.kind, x.offset as int)),
            },
            r matches Ok((_, e)) ==> pos < e <= s@.len(),
        decreases depth, 0usize,
    {
        let ghost inner = (depth - 1) as nat;
        let len = s.len();
        let mut items: Vec<Bencode> = Vec::new();
        let mut p = pos + 1;
        loop
            invariant
                pos < p <= s@.len(),
                s@[pos as int] == 108u8,
                parse_items(s@, pos + 1, inner, seq![]) == parse_items(s@, p as int, inner, items_view(items@)),
                inner == depth - 1,
                depth > 0,
                len == s@.len(),
            decreases s@.len() - p,
        {
            if p >= len {
                return Err(BencodeError::at(ErrorKind::Truncated, p));
            }
            if s[p] == 101u8 {
                return Ok((Bencode::List(items), p + 1));
            }
            match Self::parse(s, p, depth - 1) {
                Err(x) => {
                    return Err(x);
                },
                Ok((v, next)) => {
                    proof {
                        assert(items_view(items@.push(v)) == items_view(items@).push(model(v))) by {
                            assert(items@.push(v).drop_last() =~= items@);
                        }
                    }
                    items.push(v);
                    p = next;
                },
            }
        }
    }

    /// Reads a dictionary whose `d` stands at `pos`. A key that appears
    /// again keeps its first position and takes the value read last.
    fn parse_dict(s: &[u8], pos: usize, depth: usize) -> (r: Result<(Bencode, usize), BencodeError>)
        requires
            pos < s@.len(),
            s@[pos as int] == 100u8,
            depth > 0,
        ensures
            match r {
                Ok((b, e)) => parse_value(s@, pos as int, depth as nat) == Ok::<(Value, int), (ErrorKind, int)>((b@, e as int)),
                Err(x) => parse_value(s@, pos as int, depth as nat) == Err::<(Value, int), (ErrorKind, int)>((x.kind, x.offset as int)),
            },
            r matches Ok((_, e)) ==> pos < e <= s@.len(),
        decreases depth, 0usize,
    {
        let ghost inner = (depth - 1) as nat;
        let len = s.len();
        let mut map = new_map();
        let mut p = pos + 1;
        assert(pairs_view(entries_of(map)) =~= Seq::<(Seq<u8>, Value)>::empty());
        loop
            invariant
                pos < p <= s@.len(),
                s@[pos as int] == 100u8,
                parse_entries(s@, pos + 1, inner, seq![]) == parse_entries(s@, p as int, inner, pairs_view(entries_of(map))),
                keys_unique(entries_of(map)),
                inner == depth - 1,
                depth > 0,
                len == s@.len(),
            decreases s@.len() - p,
        {
            if p >= len {
                return Err(BencodeError::at(ErrorKind::Truncated, p));
            }
            if s[p] == 101u8 {
                let ghost es = entries_of(map);
                let entries = into_entries(map);
                proof {
                    lemma_entries_view(entries@);
                    assert(entries_view(entries@) =~= pairs_view(es));
                }
                return Ok((Bencode::Dict(entries), p + 1));
            }
            if !Self::is_digit(s[p]) {
                return Err(BencodeError::at(ErrorKind::NonStringKey, p));
            }
            match Self::parse_str(s, p) {
                Err(x) => {
                    return Err(x);
                },
                Ok((key, after_key)) => match Self::parse(s, after_key, depth - 1) {
                    Err(x) => {
                        return Err(x);
                    },
                    Ok((v, next)) => {
                        proof {
                            lemma_pairs_view_insert(entries_of(map), key@, v);
                        }
                        insert(&mut map, key.0, v);
                        p = next;
                    },
                },
            }
        }
    }
}

} // verus!
