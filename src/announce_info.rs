//! Typed view of a tracker's announce response, read from its decoded
//! value tree.
use vstd::prelude::*;
use vstd::string::StringSliceAdditionalSpecFns;
use crate::bencode::{Bencode, BencodeError, ErrorKind, dict_get, items_view, lemma_items_view, model};
use crate::byte_string::display_chars;
use crate::grammar::Value;
use crate::meta_info::{number_field, shown, string_opt, text_field};

verus! {

/// A peer that a tracker lists.
#[derive(Clone, Debug)]
pub struct Peer {
    pub peer_id: String,
    pub ip: String,
    pub port: u64,
}

/// Whether a value describes a peer.
pub open spec fn peer_ok(v: Value) -> bool {
    &&& text_field(v, "peer id".spec_bytes()) is Some
    &&& text_field(v, "ip".spec_bytes()) is Some
    &&& number_field(v, "port".spec_bytes()) is Some
}

/// The fields of `p` are those that `v` holds.
pub open spec fn peer_matches(p: Peer, v: Value) -> bool {
    &&& p.peer_id@ == display_chars(text_field(v, "peer id".spec_bytes())->0)
    &&& p.ip@ == display_chars(text_field(v, "ip".spec_bytes())->0)
    &&& p.port == number_field(v, "port".spec_bytes())->0
}

impl Peer {
    /// Reads one peer dictionary of the `peers` list.
    pub fn parse(value: &Bencode) -> (r: Result<Peer, BencodeError>)
        ensures
            r is Ok <==> peer_ok(value@),
            r matches Ok(p) ==> peer_matches(p, value@),
            r matches Err(e) ==> e.kind == ErrorKind::Malformed,
    {
        let peer_id = match value.get("peer id".as_bytes()) {
            Some(Bencode::Text(t)) => t.print(),
            _ => {
                return Err(BencodeError::new("invalid peer: peer id".to_string()));
            },
        };
        let ip = match value.get("ip".as_bytes()) {
            Some(Bencode::Text(t)) => t.print(),
            _ => {
                return Err(BencodeError::new("invalid peer: ip".to_string()));
            },
        };
        let port = match value.get("port".as_bytes()) {
            Some(Bencode::Number(n)) => *n,
            _ => {
                return Err(BencodeError::new("invalid peer: port".to_string()));
            },
        };
        Ok(Peer { peer_id, ip, port })
    }
}

/// Response of a tracker to an announce request.
#[derive(Clone, Debug)]
pub struct AnnounceInfo {
    /// Seconds to wait between regular requests.
    pub interval: u64,
    /// Number of peers with the whole file.
    pub complete: u64,
    /// Number of peers still downloading.
    pub incomplete: u64,
    pub peers: Vec<Peer>,
    pub min_interval: Option<u64>,
    pub tracker_id: Option<String>,
}

/// The `peers` list of a response.
pub open spec fn peers_field(v: Value) -> Option<Seq<Value>> {
    match dict_get(v, "peers".spec_bytes()) {
        Some(Value::List(items)) => Some(items),
        _ => None,
    }
}

/// Whether a value is a tracker response.
pub open spec fn announce_ok(v: Value) -> bool {
    &&& number_field(v, "complete".spec_bytes()) is Some
    &&& number_field(v, "incomplete".spec_bytes()) is Some
    &&& number_field(v, "interval".spec_bytes()) is Some
    &&& peers_field(v) is Some
    &&& forall|i: int| 0 <= i < peers_field(v)->0.len() ==> peer_ok(#[trigger] peers_field(v)->0[i])
}

/// The fields of `a` are those that `v` holds.
pub open spec fn announce_matches(a: AnnounceInfo, v: Value) -> bool {
    &&& a.complete == number_field(v, "complete".spec_bytes())->0
    &&& a.incomplete == number_field(v, "incomplete".spec_bytes())->0
    &&& a.interval == number_field(v, "interval".spec_bytes())->0
    &&& a.peers@.len() == peers_field(v)->0.len()
    &&& forall|i: int| 0 <= i < a.peers@.len() ==> peer_matches(#[trigger] a.peers@[i], peers_field(v)->0[i])
    &&& string_opt(a.tracker_id) == shown(text_field(v, "tracker id".spec_bytes()))
    &&& a.min_interval is None
}

impl AnnounceInfo {
    /// Reads a tracker response from its decoded tree.
    pub fn parse(value: &Bencode) -> (r: Result<AnnounceInfo, BencodeError>)
        ensures
            r is Ok <==> announce_ok(value@),
            r matches Ok(a) ==> announce_matches(a, value@),
            r matches Err(e) ==> e.kind == ErrorKind::Malformed,
    {
        let complete = match value.get("complete".as_bytes()) {
            Some(Bencode::Number(n)) => *n,
            _ => {
                return Err(BencodeError::new("invalid announce response: complete".to_string()));
            },
        };
        let incomplete = match value.get("incomplete".as_bytes()) {
            Some(Bencode::Number(n)) => *n,
            _ => {
                return Err(BencodeError::new("invalid announce response: incomplete".to_string()));
            },
        };
        let interval = match value.get("interval".as_bytes()) {
            Some(Bencode::Number(n)) => *n,
            _ => {
                return Err(BencodeError::new("invalid announce response: interval".to_string()));
            },
        };
        let peers_list = match value.get("peers".as_bytes()) {
            Some(Bencode::List(l)) => l,
            _ => {
                return Err(BencodeError::new("invalid announce response: peers".to_string()));
            },
        };
        let tracker_id = match value.get("tracker id".as_bytes()) {
            Some(Bencode::Text(t)) => Some(t.print()),
            _ => None,
        };
        let ghost ps = items_view(peers_list@);
        proof {
            lemma_items_view(peers_list@);
        }
        let mut peers: Vec<Peer> = Vec::new();
        let mut i: usize = 0;
        while i < peers_list.len()
            invariant
                i <= peers_list@.len(),
                ps == items_view(peers_list@),
                ps.len() == peers_list@.len(),
                peers_field(value@) == Some(ps),
                forall|j: int| 0 <= j < peers_list@.len() ==> #[trigger] ps[j] == model(peers_list@[j]),
                peers@.len() == i,
                forall|j: int| 0 <= j < i ==> peer_ok(#[trigger] ps[j]),
                forall|j: int| 0 <= j < i ==> peer_matches(#[trigger] peers@[j], ps[j]),
            decreases peers_list@.len() - i,
        {
            match Peer::parse(&peers_list[i]) {
                Ok(peer) => {
                    peers.push(peer);
                },
                Err(e) => {
                    assert(peers_field(value@)->0[i as int] == ps[i as int]);
                    return Err(e);
                },
            }
            i = i + 1;
        }
        Ok(AnnounceInfo { complete, incomplete, interval, peers, tracker_id, min_interval: None })
    }
}

} // verus!
