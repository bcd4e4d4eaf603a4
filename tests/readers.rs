use rustorrent::announce_info::{AnnounceInfo, Peer};
use rustorrent::bencode::{Bencode, BencodeParser, ErrorKind};
use rustorrent::byte_string::ByteString;
use rustorrent::meta_info::{FileMode, MetaInfo, MultiFileItem, SingleFile};
use rustorrent::tracker::{generate_hash, tracker_url};

fn text(s: &str) -> Bencode {
    Bencode::Text(ByteString::new(s))
}

fn entry(k: &str, v: Bencode) -> (ByteString, Bencode) {
    (ByteString::new(k), v)
}

fn single_file_torrent() -> Bencode {
    Bencode::Dict(vec![
        entry("announce", text("https://torrent.ubuntu.com/announce")),
        entry(
            "announce-list",
            Bencode::List(vec![
                Bencode::List(vec![text("https://torrent.ubuntu.com/announce")]),
                Bencode::List(vec![text("https://ipv6.torrent.ubuntu.com/announce"), Bencode::Number(3)]),
                Bencode::Number(9),
            ]),
        ),
        entry("comment", text("Ubuntu CD releases.ubuntu.com")),
        entry("created by", text("mktorrent 1.1")),
        entry("creation date", Bencode::Number(1666291305)),
        entry(
            "info",
            Bencode::Dict(vec![
                entry("length", Bencode::Number(4071903232)),
                entry("name", text("ubuntu-22.10-desktop-amd64.iso")),
                entry("piece length", Bencode::Number(262144)),
                entry("pieces", Bencode::Text(ByteString::from_vec(vec![0xde; 20]))),
            ]),
        ),
    ])
}

#[test]
fn reads_a_single_file_torrent() {
    let doc = single_file_torrent();
    let meta_info = MetaInfo::from_bencode(&doc).unwrap();
    assert_eq!(&meta_info.announce, "https://torrent.ubuntu.com/announce");
    assert_eq!(
        &meta_info.info.file_info,
        &FileMode::Single(SingleFile {
            length: 4071903232,
            md5sum: None,
            name: String::from("ubuntu-22.10-desktop-amd64.iso"),
        })
    );
    assert_eq!(
        meta_info.announce_list,
        Some(vec![
            String::from("https://torrent.ubuntu.com/announce"),
            String::from("https://ipv6.torrent.ubuntu.com/announce"),
        ])
    );
    assert_eq!(meta_info.creation_date, Some(1666291305));
    assert_eq!(meta_info.comment, Some(String::from("Ubuntu CD releases.ubuntu.com")));
    assert_eq!(meta_info.created_by, Some(String::from("mktorrent 1.1")));
    assert_eq!(meta_info.encoding, None);
    assert_eq!(meta_info.info.piece_length, 262144);
    assert_eq!(meta_info.info.pieces, ByteString::from_vec(vec![0xde; 20]));
    assert!(!meta_info.info.private);
    let info = doc.get(b"info").unwrap();
    assert_eq!(meta_info.info.bencode_value, BencodeParser::encode(info));
}

#[test]
fn reads_a_torrent_from_bytes() {
    let bytes = BencodeParser::encode(&single_file_torrent());
    let meta_info = MetaInfo::from_bytes(&bytes).unwrap();
    assert_eq!(&meta_info.announce, "https://torrent.ubuntu.com/announce");
    let e = MetaInfo::from_bytes(&bytes[..bytes.len() - 1]).unwrap_err();
    assert_eq!(e.kind, ErrorKind::Truncated);
}

#[test]
fn reads_a_multi_file_torrent() {
    let doc = Bencode::Dict(vec![
        entry("announce", text("dht://3C9650FDF0E03236FD7CDB343FFB1F792342C11F.dht/announce")),
        entry(
            "info",
            Bencode::Dict(vec![
                entry(
                    "files",
                    Bencode::List(vec![
                        Bencode::Dict(vec![
                            entry("length", Bencode::Number(10)),
                            entry("path", Bencode::List(vec![text("dir1"), text("file.ext")])),
                        ]),
                        Bencode::Dict(vec![
                            entry("length", Bencode::Number(20)),
                            entry("md5sum", text("0123456789abcdef0123456789abcdef")),
                            entry("path", Bencode::List(vec![text("b.txt")])),
                        ]),
                    ]),
                ),
                entry("name", text("bundle")),
                entry("piece length", Bencode::Number(16384)),
                entry("pieces", text("")),
                entry("private", Bencode::Number(1)),
            ]),
        ),
    ]);
    let meta_info = MetaInfo::from_bencode(&doc).unwrap();
    assert_eq!(&meta_info.announce, "dht://3C9650FDF0E03236FD7CDB343FFB1F792342C11F.dht/announce");
    assert!(meta_info.info.private);
    assert_eq!(meta_info.announce_list, None);
    match &meta_info.info.file_info {
        FileMode::Multi(m) => {
            assert_eq!(m.name, "bundle");
            assert_eq!(
                m.files,
                vec![
                    MultiFileItem {
                        length: 10,
                        md5sum: None,
                        path: vec![String::from("dir1"), String::from("file.ext")],
                    },
                    MultiFileItem {
                        length: 20,
                        md5sum: Some(String::from("0123456789abcdef0123456789abcdef")),
                        path: vec![String::from("b.txt")],
                    },
                ]
            );
        },
        FileMode::Single(_) => panic!("expected several files"),
    }
}

#[test]
fn rejects_meta_info_without_required_fields() {
    let no_announce = Bencode::Dict(vec![entry(
        "info",
        Bencode::Dict(vec![
            entry("length", Bencode::Number(1)),
            entry("name", text("a")),
            entry("piece length", Bencode::Number(1)),
            entry("pieces", text("")),
        ]),
    )]);
    assert_eq!(MetaInfo::from_bencode(&no_announce).unwrap_err().kind, ErrorKind::Malformed);
    assert_eq!(MetaInfo::from_bencode(&Bencode::Number(1)).unwrap_err().kind, ErrorKind::Malformed);
    let bad_file = Bencode::Dict(vec![
        entry("announce", text("x")),
        entry(
            "info",
            Bencode::Dict(vec![
                entry("files", Bencode::List(vec![Bencode::Number(1)])),
                entry("name", text("a")),
                entry("piece length", Bencode::Number(1)),
                entry("pieces", text("")),
            ]),
        ),
    ]);
    assert!(MetaInfo::from_bencode(&bad_file).is_err());
}

#[test]
fn reads_an_announce_response() {
    let raw = b"d8:completei5e10:incompletei2e8:intervali1800e5:peersld2:ip9:127.0.0.17:peer id3:abc4:porti6881eee10:tracker id2:t1e";
    let value = BencodeParser::decode(raw).unwrap();
    let info = AnnounceInfo::parse(&value).unwrap();
    assert_eq!(info.complete, 5);
    assert_eq!(info.incomplete, 2);
    assert_eq!(info.interval, 1800);
    assert_eq!(info.tracker_id, Some(String::from("t1")));
    assert_eq!(info.min_interval, None);
    assert_eq!(info.peers.len(), 1);
    assert_eq!(info.peers[0].ip, "127.0.0.1");
    assert_eq!(info.peers[0].peer_id, "abc");
    assert_eq!(info.peers[0].port, 6881);
}

#[test]
fn rejects_an_incomplete_peer() {
    let value = BencodeParser::decode(b"d2:ip9:127.0.0.14:porti1ee").unwrap();
    assert_eq!(Peer::parse(&value).unwrap_err().kind, ErrorKind::Malformed);
    let value = BencodeParser::decode(b"d8:completei5e10:incompletei2e8:intervali1800e5:peersli1eee").unwrap();
    assert!(AnnounceInfo::parse(&value).is_err());
}

#[test]
fn hash_is_url_encoded_sha1() {
    assert_eq!(generate_hash(b"abc"), "%A9%99%3E6G%06%81j%BA%3E%25qxP%C2l%9C%D0%D8%9D");
}

#[test]
fn builds_the_tracker_url() {
    assert_eq!(
        tracker_url("http://t.example/announce", "%AB", "x-1"),
        "http://t.example/announce?info_hash=%AB&peer_id=x-1"
    );
}
