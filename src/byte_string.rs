use vstd::prelude::*;
use vstd::string::StringSliceAdditionalSpecFns;
use vstd::utf8::{decode_utf8, valid_utf8};

verus! {

/// A string of raw bytes. It carries no encoding information: bencoded
/// "strings" may hold arbitrary binary content, such as hash digests.
#[derive(Clone, Debug, Hash, PartialOrd, Ord)]
pub struct ByteString(pub Vec<u8>);

impl View for ByteString {
    type V = Seq<u8>;

    open spec fn view(&self) -> Seq<u8> {
        self.0@
    }
}

/// The characters `0`..`9` of the decimal representation of `n`, most
/// significant first, without leading zeros.
pub open spec fn decimal_chars(n: nat) -> Seq<char>
    decreases n,
{
    if n < 10 {
        seq![(n + 48) as char]
    } else {
        decimal_chars(n / 10).push(((n % 10) + 48) as char)
    }
}

/// How a byte string is shown to a reader: its text when the bytes are
/// valid UTF-8, otherwise its length in bytes, in decimal.
pub open spec fn display_chars(b: Seq<u8>) -> Seq<char> {
    if valid_utf8(b) {
        decode_utf8(b)
    } else {
        decimal_chars(b.len())
    }
}

/// Relies on `String::from_utf8`: it succeeds exactly on valid UTF-8, and
/// then holds the decoded characters.
#[verifier::external_body]
fn utf8_text(bytes: &Vec<u8>) -> (r: Option<String>)
    ensures
        r is Some <==> valid_utf8(bytes@),
        r matches Some(s) ==> s@ == decode_utf8(bytes@),
{
    String::from_utf8(bytes.clone()).ok()
}

/// Relies on `ToString` for `usize`: the decimal representation.
#[verifier::external_body]
fn usize_text(n: usize) -> (r: String)
    ensures
        r@ == decimal_chars(n as nat),
{
    n.to_string()
}

impl ByteString {
    /// The bytes of the given text.
    pub fn new(text: &str) -> (r: Self)
        ensures
            r@ == text.spec_bytes(),
    {
        let bytes = text.as_bytes();
        ByteString(slice_to_vec_bytes(bytes))
    }

    /// Takes ownership of the given bytes.
    pub fn from_vec(vec: Vec<u8>) -> (r: Self)
        ensures
            r@ == vec@,
    {
        ByteString(vec)
    }

    /// Read-only access to the bytes.
    pub fn as_bytes(&self) -> (r: &Vec<u8>)
        ensures
            r@ == self@,
    {
        &self.0
    }

    /// Number of bytes.
    pub fn len(&self) -> (r: usize)
        ensures
            r == self@.len(),
    {
        self.0.len()
    }

    /// Whether the two byte sequences have the same length and the same
    /// byte at every position.
    fn compare_vectors(a: &[u8], b: &[u8]) -> (r: bool)
        ensures
            r <==> a@ == b@,
    {
        if a.len() != b.len() {
            return false;
        }
        let mut i: usize = 0;
        while i < a.len()
            invariant
                a@.len() == b@.len(),
                i <= a@.len(),
                a@.subrange(0, i as int) == b@.subrange(0, i as int),
            decreases a@.len() - i,
        {
            if a[i] != b[i] {
                assert(a@.subrange(0, i as int + 1)[i as int] != b@.subrange(0, i as int + 1)[i as int]);
                return false;
            }
            assert(a@.subrange(0, i as int + 1) =~= a@.subrange(0, i as int).push(a@[i as int]));
            assert(b@.subrange(0, i as int + 1) =~= b@.subrange(0, i as int).push(b@[i as int]));
            i = i + 1;
        }
        assert(a@ =~= a@.subrange(0, i as int));
        assert(b@ =~= b@.subrange(0, i as int));
        true
    }

    /// Whether both hold the same bytes.
    pub fn equals(&self, other: &ByteString) -> (r: bool)
        ensures
            r <==> self@ == other@,
    {
        Self::compare_vectors(self.0.as_slice(), other.0.as_slice())
    }

    /// Whether it holds exactly the given bytes.
    pub fn equals_bytes(&self, other: &[u8]) -> (r: bool)
        ensures
            r <==> self@ == other@,
    {
        Self::compare_vectors(self.0.as_slice(), other)
    }

    /// Renders the bytes for display: as text when they are valid UTF-8,
    /// otherwise as their length in bytes (never a lossy decoding).
    pub fn print(&self) -> (r: String)
        ensures
            r@ == display_chars(self@),
    {
        match utf8_text(&self.0) {
            Some(text) => text,
            None => usize_text(self.0.len()),
        }
    }
}

/// Copies a slice of bytes into a new vector.
pub fn slice_to_vec_bytes(s: &[u8]) -> (r: Vec<u8>)
    ensures
        r@ == s@,
{
    let mut out: Vec<u8> = Vec::with_capacity(s.len());
    let mut i: usize = 0;
    while i < s.len()
        invariant
            i <= s@.len(),
            out@ == s@.subrange(0, i as int),
        decreases s@.len() - i,
    {
        out.push(s[i]);
        assert(out@ =~= s@.subrange(0, i as int + 1));
        i = i + 1;
    }
    assert(out@ =~= s@);
    out
}

impl PartialEq for ByteString {
    fn eq(&self, other: &ByteString) -> (r: bool) {
        Self::compare_vectors(self.0.as_slice(), other.0.as_slice())
    }
}

impl vstd::std_specs::cmp::PartialEqSpecImpl for ByteString {
    open spec fn obeys_eq_spec() -> bool {
        true
    }

    open spec fn eq_spec(&self, other: &ByteString) -> bool {
        self@ == other@
    }
}

impl Eq for ByteString {
}

} // verus!
