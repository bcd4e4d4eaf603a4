use rustorrent::bencode::{Bencode, BencodeError, BencodeParser, ErrorKind};
use rustorrent::byte_string::ByteString;
use rustorrent::decoder::DEFAULT_MAX_DEPTH;

fn text(s: &str) -> Bencode {
    Bencode::Text(ByteString::new(s))
}

fn entry(k: &str, v: Bencode) -> (ByteString, Bencode) {
    (ByteString::new(k), v)
}

fn decode_err(input: &[u8]) -> BencodeError {
    match BencodeParser::decode(input) {
        Ok(v) => panic!("expected an error, got {:?}", v),
        Err(e) => e,
    }
}

fn sample_values() -> Vec<Bencode> {
    vec![
        Bencode::Number(0),
        Bencode::Number(u64::MAX),
        text(""),
        Bencode::Text(ByteString::from_vec(vec![0, 255, 58, 101, 105])),
        Bencode::List(vec![]),
        Bencode::Dict(vec![]),
        Bencode::List(vec![
            Bencode::Number(7),
            Bencode::List(vec![Bencode::List(vec![text("deep")])]),
            Bencode::Dict(vec![entry("k", Bencode::List(vec![]))]),
        ]),
        Bencode::Dict(vec![
            entry("zeta", Bencode::Number(1)),
            entry("alpha", Bencode::Dict(vec![entry("", text("empty key"))])),
        ]),
    ]
}

#[test]
fn round_trip_of_every_variant() {
    for v in sample_values() {
        let bytes = BencodeParser::encode(&v);
        assert_eq!(BencodeParser::decode(&bytes).unwrap(), v);
    }
}

#[test]
fn encode_is_deterministic() {
    for v in sample_values() {
        assert_eq!(BencodeParser::encode(&v), BencodeParser::encode(&v));
    }
}

#[test]
fn every_strict_prefix_fails() {
    for v in sample_values() {
        let bytes = BencodeParser::encode(&v);
        for k in 0..bytes.len() {
            assert!(BencodeParser::decode(&bytes[..k]).is_err(), "prefix {} of {:?}", k, bytes);
        }
    }
}

#[test]
fn repeated_key_keeps_first_position_and_last_value() {
    let result = BencodeParser::decode(b"d1:ai1e1:bi2e1:ai3ee").unwrap();
    assert_eq!(
        result,
        Bencode::Dict(vec![entry("a", Bencode::Number(3)), entry("b", Bencode::Number(2))])
    );
}

#[test]
fn nesting_past_the_limit_fails_with_depth_error() {
    let ok = BencodeParser::decode_with_max_depth(b"llee", 2).unwrap();
    assert_eq!(ok, Bencode::List(vec![Bencode::List(vec![])]));
    let e = BencodeParser::decode_with_max_depth(b"llleee", 2).unwrap_err();
    assert_eq!(e.kind, ErrorKind::DepthLimit);
    assert_eq!(e.offset, 2);
    let e = BencodeParser::decode_with_max_depth(b"d1:ad1:bleee", 2).unwrap_err();
    assert_eq!(e.kind, ErrorKind::DepthLimit);
}

#[test]
fn deep_adversarial_input_fails_without_exhausting_the_stack() {
    let input = vec![b'l'; 100_000];
    let e = BencodeParser::decode(&input).unwrap_err();
    assert_eq!(e.kind, ErrorKind::DepthLimit);
    assert_eq!(e.offset, DEFAULT_MAX_DEPTH);
}

#[test]
fn scenario_integer() {
    assert_eq!(BencodeParser::decode(b"i64520998877e").unwrap(), Bencode::Number(64520998877));
}

#[test]
fn scenario_text() {
    assert_eq!(BencodeParser::decode(b"6:bruno0").unwrap(), text("bruno0"));
}

#[test]
fn scenario_list() {
    assert_eq!(BencodeParser::decode(b"l4:spam4:eggse").unwrap(), Bencode::List(vec![text("spam"), text("eggs")]));
}

#[test]
fn scenario_dict_keeps_key_order() {
    let result = BencodeParser::decode(b"d3:cow3:moo4:spam4:eggse").unwrap();
    assert_eq!(result, Bencode::Dict(vec![entry("cow", text("moo")), entry("spam", text("eggs"))]));
    let reversed = Bencode::Dict(vec![entry("spam", text("eggs")), entry("cow", text("moo"))]);
    assert_ne!(result, reversed);
}

#[test]
fn scenario_empty_integer() {
    let e = decode_err(b"ie");
    assert_eq!(e.kind, ErrorKind::InvalidInteger);
    assert_eq!(e.offset, 0);
}

#[test]
fn scenario_truncated_text() {
    let e = decode_err(b"5:ab");
    assert_eq!(e.kind, ErrorKind::Truncated);
}

#[test]
fn scenario_encode_then_decode() {
    let x = b"li32e5:brunod4:life7:is-goodee";
    let value = BencodeParser::decode(x).unwrap();
    let bytes = BencodeParser::encode(&value);
    assert_eq!(bytes, x.to_vec());
    assert_eq!(BencodeParser::decode(&bytes).unwrap(), value);
}

#[test]
fn encode_exact_bytes() {
    assert_eq!(BencodeParser::encode(&Bencode::Number(0)), b"i0e".to_vec());
    assert_eq!(BencodeParser::encode(&Bencode::Number(1234567890)), b"i1234567890e".to_vec());
    assert_eq!(BencodeParser::encode(&text("")), b"0:".to_vec());
    assert_eq!(BencodeParser::encode(&text("abcdefghijkl")), b"12:abcdefghijkl".to_vec());
    let d = Bencode::Dict(vec![entry("b", Bencode::Number(1)), entry("a", Bencode::List(vec![]))]);
    assert_eq!(BencodeParser::encode(&d), b"d1:bi1e1:alee".to_vec());
}

#[test]
fn trailing_bytes_are_ignored() {
    assert_eq!(BencodeParser::decode(b"i1ei2e").unwrap(), Bencode::Number(1));
    assert_eq!(BencodeParser::decode(b"3:abcXYZ").unwrap(), text("abc"));
}

#[test]
fn leading_zeros_are_accepted() {
    assert_eq!(BencodeParser::decode(b"i007e").unwrap(), Bencode::Number(7));
    assert_eq!(BencodeParser::decode(b"03:abc").unwrap(), text("abc"));
}

#[test]
fn error_unexpected_byte() {
    let e = decode_err(b"x");
    assert_eq!(e.kind, ErrorKind::UnexpectedByte);
    let e = decode_err(b"l1:ax");
    assert_eq!(e.kind, ErrorKind::UnexpectedByte);
    assert_eq!(e.offset, 4);
}

#[test]
fn error_empty_input_is_truncated() {
    let e = decode_err(b"");
    assert_eq!(e.kind, ErrorKind::Truncated);
    assert_eq!(e.offset, 0);
}

#[test]
fn error_invalid_integer() {
    assert_eq!(decode_err(b"i12x4e").kind, ErrorKind::InvalidInteger);
    assert_eq!(decode_err(b"i-3e").kind, ErrorKind::InvalidInteger);
    assert_eq!(decode_err(b"i18446744073709551616e").kind, ErrorKind::InvalidInteger);
    assert_eq!(BencodeParser::decode(b"i18446744073709551615e").unwrap(), Bencode::Number(u64::MAX));
}

#[test]
fn error_invalid_length() {
    assert_eq!(decode_err(b"3x:abc").kind, ErrorKind::InvalidLength);
    assert_eq!(decode_err(b"18446744073709551616:a").kind, ErrorKind::InvalidLength);
}

#[test]
fn error_truncated_cases() {
    assert_eq!(decode_err(b"i12").kind, ErrorKind::Truncated);
    assert_eq!(decode_err(b"12").kind, ErrorKind::Truncated);
    assert_eq!(decode_err(b"18446744073709551615:a").kind, ErrorKind::Truncated);
    let e = decode_err(b"l4:spam");
    assert_eq!(e.kind, ErrorKind::Truncated);
    assert_eq!(e.offset, 7);
    assert_eq!(decode_err(b"d3:cow").kind, ErrorKind::Truncated);
}

#[test]
fn error_non_string_key() {
    let e = decode_err(b"di1e3:mooe");
    assert_eq!(e.kind, ErrorKind::NonStringKey);
    assert_eq!(e.offset, 1);
}

#[test]
fn dictionary_lookup() {
    let d = BencodeParser::decode(b"d3:cow3:moo4:spami5ee").unwrap();
    assert_eq!(d.get(b"spam"), Some(&Bencode::Number(5)));
    assert_eq!(d.get(b"cow"), Some(&text("moo")));
    assert_eq!(d.get(b"co"), None);
    assert_eq!(Bencode::Number(1).get(b"cow"), None);
}

#[test]
fn byte_string_display_and_equality() {
    assert_eq!(ByteString::new("héllo").print(), "héllo");
    assert_eq!(ByteString::from_vec(vec![0xff, 0xfe, 0x00]).print(), "3");
    assert_eq!(ByteString::from_vec(Vec::new()).print(), "");
    assert!(ByteString::new("abc") == ByteString::from_vec(b"abc".to_vec()));
    assert!(ByteString::new("abc") != ByteString::new("abcd"));
    assert!(ByteString::new("abc").equals(&ByteString::new("abc")));
    assert!(!ByteString::new("abd").equals(&ByteString::new("abc")));
    assert_eq!(ByteString::new("abc").len(), 3);
}

#[test]
fn error_new_is_malformed() {
    let e = BencodeError::new(String::from("no announce"));
    assert_eq!(e.kind, ErrorKind::Malformed);
    assert_eq!(e.message, "no announce");
}
