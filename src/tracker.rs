//! What an announce request to an HTTP tracker is made of: the URL-encoded
//! SHA-1 digests that name the torrent and the client, and the request URL.
use vstd::prelude::*;
use vstd::string::StringExecFns;
use sha1::{Digest, Sha1};

verus! {

/// The SHA-1 digest of a byte sequence.
pub uninterp spec fn sha1_digest(data: Seq<u8>) -> Seq<u8>;

/// Bytes that a URL carries as they are: ASCII letters and digits, `-`,
/// `.`, `_` and `~`.
pub open spec fn url_safe(b: u8) -> bool {
    (48 <= b <= 57) || (65 <= b <= 90) || (97 <= b <= 122) || b == 45 || b == 46 || b == 95 || b == 126
}

/// An uppercase hexadecimal digit of a value below 16.
pub open spec fn hex_digit(d: u8) -> char {
    if d < 10 {
        (d + 48) as char
    } else {
        (d + 55) as char
    }
}

/// Percent-encoding of bytes: a URL-safe byte stands for itself, any other
/// byte becomes `%` and its two uppercase hexadecimal digits.
pub open spec fn percent_encoded(b: Seq<u8>) -> Seq<char>
    decreases b.len(),
{
    if b.len() == 0 {
        seq![]
    } else {
        let last = b.last();
        percent_encoded(b.drop_last()) + if url_safe(last) {
            seq![last as char]
        } else {
            seq!['%', hex_digit(last / 16), hex_digit(last % 16)]
        }
    }
}

/// Relies on `sha1::Sha1` through `digest::Digest::digest`: the SHA-1
/// digest of the bytes, 20 bytes long, a function of the bytes alone.
#[verifier::external_body]
fn sha1_of(data: &[u8]) -> (r: Vec<u8>)
    ensures
        r@ == sha1_digest(data@),
        r@.len() == 20,
{
    Sha1::digest(data).to_vec()
}

/// Relies on `urlencoding::encode_binary`: ASCII letters and digits, `-`,
/// `.`, `_` and `~` stay; every other byte becomes `%` and two uppercase
/// hexadecimal digits.
#[verifier::external_body]
fn url_encode(data: &[u8]) -> (r: String)
    ensures
        r@ == percent_encoded(data@),
{
    urlencoding::encode_binary(data).into_owned()
}

/// The URL-encoded SHA-1 digest of `value`, as a tracker expects the
/// `info_hash` and `peer_id` query parameters.
pub fn generate_hash(value: &[u8]) -> (r: String)
    ensures
        r@ == percent_encoded(sha1_digest(value@)),
{
    let digest = sha1_of(value);
    url_encode(digest.as_slice())
}

/// The announce URL with the torrent's and the client's encoded digests:
/// `url?info_hash=<info_hash>&peer_id=<peer_id>`.
pub fn tracker_url(url: &str, info_hash: &str, peer_id: &str) -> (r: String)
    ensures
        r@ == url@ + "?info_hash="@ + info_hash@ + "&peer_id="@ + peer_id@,
{
    let mut out = url.to_owned();
    out.append("?info_hash=");
    out.append(info_hash);
    out.append("&peer_id=");
    out.append(peer_id);
    out
}

} // verus!
