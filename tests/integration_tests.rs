use rustorrent::bencode::BencodeParser;
use rustorrent::meta_info::{FileMode, MetaInfo};

fn ubuntu_sample() -> Vec<u8> {
    let mut doc = b"d8:announce35:https://torrent.ubuntu.com/announce7:comment29:Ubuntu CD releases.ubuntu.com13:creation datei1666291305e4:infod6:lengthi4071903232e4:name30:ubuntu-22.10-desktop-amd64.iso12:piece lengthi262144e6:pieces40:".to_vec();
    doc.extend_from_slice(&[0x5a; 40]);
    doc.extend_from_slice(b"ee");
    doc
}

fn haphead_bundle() -> Vec<u8> {
    b"d8:announce59:dht://3C9650FDF0E03236FD7CDB343FFB1F792342C11F.dht/announce4:infod5:filesld6:lengthi1024e4:pathl5:music9:track.mp3eed6:lengthi2048e4:pathl9:cover.jpgeee4:name14:haphead bundle12:piece lengthi65536e6:pieces0:ee".to_vec()
}

#[test]
fn can_parse_bencode_from_file() {
    let content = BencodeParser::decode(&ubuntu_sample());
    assert!(content.is_ok());
}

#[test]
fn can_decode_a_torrent_file_with_multiple_files() {
    let meta_info = MetaInfo::from_bytes(&haphead_bundle());

    println!("Meta Info: {:?}", meta_info);
    assert!(&meta_info.is_ok());

    let meta_info = meta_info.unwrap();
    assert_eq!(
        &meta_info.announce,
        "dht://3C9650FDF0E03236FD7CDB343FFB1F792342C11F.dht/announce"
    );
    match &meta_info.info.file_info {
        FileMode::Multi(m) => assert_eq!(m.files.len(), 2),
        FileMode::Single(_) => panic!("expected several files"),
    }
}

#[test]
fn can_decode_a_torrent_file_with_a_single_file() {
    let meta_info = MetaInfo::from_bytes(&ubuntu_sample()).unwrap();
    assert_eq!(&meta_info.announce, "https://torrent.ubuntu.com/announce");
    match &meta_info.info.file_info {
        FileMode::Single(f) => {
            assert_eq!(f.length, 4071903232);
            assert_eq!(f.name, "ubuntu-22.10-desktop-amd64.iso");
        },
        FileMode::Multi(_) => panic!("expected one file"),
    }
}

#[test]
fn can_write_file() {
    let decoded_file = BencodeParser::decode(&ubuntu_sample()).unwrap();
    let encoded_file_content = BencodeParser::encode(&decoded_file);
    let decoded_again = BencodeParser::decode(&encoded_file_content).unwrap();
    assert_eq!(decoded_file, decoded_again);
}
