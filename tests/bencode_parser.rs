use rustorrent::bencode::{Bencode, BencodeParser};
use rustorrent::byte_string::ByteString;

fn text(s: &str) -> Bencode {
    Bencode::Text(ByteString::new(s))
}

fn entry(k: &str, v: Bencode) -> (ByteString, Bencode) {
    (ByteString::new(k), v)
}

#[test]
fn lib_should_parse_integer_values() {
    let str = "64520998877";
    let content = format!("i{}e", str).as_bytes().to_vec();
    let result = BencodeParser::decode(&content).unwrap();
    assert_eq!(result, Bencode::Number(str.parse::<u64>().unwrap()));
}

#[test]
fn lib_should_parse_string_values() {
    let bencode_str = "6:bruno0".as_bytes().to_vec();
    let result = BencodeParser::decode(&bencode_str).unwrap();
    assert_eq!(result, Bencode::Text(ByteString::new("bruno0")));
}

#[test]
fn lib_should_parse_list_of_strings() {
    let list = "l4:spam4:eggse".as_bytes().to_vec();
    let result = BencodeParser::decode(&list).unwrap();
    let expected = Bencode::List(vec![text("spam"), text("eggs")]);
    assert_eq!(result, expected);
}

#[test]
fn lib_should_parse_list_of_strings_and_integers() {
    let list = "l4:spami55ee".as_bytes().to_vec();
    let result = BencodeParser::decode(&list).unwrap();
    let expected = Bencode::List(vec![text("spam"), Bencode::Number(55)]);
    assert_eq!(result, expected);
}

#[test]
fn lib_should_parse_lists_recursively() {
    let list = "l4:spami55eli10el4:spam4:feeti33ee5:brunoee".as_bytes().to_vec();
    let result = BencodeParser::decode(&list).unwrap();
    let expected = Bencode::List(vec![
        text("spam"),
        Bencode::Number(55),
        Bencode::List(vec![
            Bencode::Number(10),
            Bencode::List(vec![text("spam"), text("feet"), Bencode::Number(33)]),
            text("bruno"),
        ]),
    ]);
    assert_eq!(result, expected);
}

#[test]
fn bencode_should_parse_integer_values() {
    let str = "64520998877";
    let content = format!("i{}e", str).as_bytes().to_vec();
    let result = BencodeParser::decode(&content).unwrap();
    assert_eq!(result, Bencode::Number(str.parse::<u64>().unwrap()));
}

#[test]
fn bencode_should_parse_string_values() {
    let bencode_str = "6:bruno0".as_bytes().to_vec();
    let result = BencodeParser::decode(&bencode_str).unwrap();
    assert_eq!(result, Bencode::Text(ByteString::new("bruno0")));
}

#[test]
fn bencode_should_parse_list_of_strings() {
    let list = "l4:spam4:eggse".as_bytes().to_vec();
    let result = BencodeParser::decode(&list).unwrap();
    let expected = Bencode::List(vec![text("spam"), text("eggs")]);
    assert_eq!(result, expected);
}

#[test]
fn bencode_should_parse_list_of_strings_and_integers() {
    let list = "l4:spami55ee".as_bytes().to_vec();
    let result = BencodeParser::decode(&list).unwrap();
    let expected = Bencode::List(vec![text("spam"), Bencode::Number(55)]);
    assert_eq!(result, expected);
}

#[test]
fn bencode_should_parse_lists_recursively() {
    let list = "l4:spami55eli10el4:spam4:feeti33ee5:brunoee".as_bytes().to_vec();
    let result = BencodeParser::decode(&list).unwrap();
    let expected = Bencode::List(vec![
        text("spam"),
        Bencode::Number(55),
        Bencode::List(vec![
            Bencode::Number(10),
            Bencode::List(vec![text("spam"), text("feet"), Bencode::Number(33)]),
            text("bruno"),
        ]),
    ]);
    assert_eq!(result, expected);
}

#[test]
fn should_parse_all_value_types_within_a_list() {
    let list = "li32e5:brunod4:life7:is-good3:agei64e4:listli32e4:cooleee".as_bytes().to_vec();
    let result = BencodeParser::decode(&list).unwrap();
    let expected = Bencode::List(vec![
        Bencode::Number(32),
        text("bruno"),
        Bencode::Dict(vec![
            entry("life", text("is-good")),
            entry("age", Bencode::Number(64)),
            entry("list", Bencode::List(vec![Bencode::Number(32), text("cool")])),
        ]),
    ]);
    assert_eq!(result, expected);
}

#[test]
fn should_parse_dictionary() {
    let list = "d9:publisher3:bob17:publisher-webpage15:www.example.com18:publisher.location4:home13:publisher.agei33ee"
        .as_bytes()
        .to_vec();
    let result = BencodeParser::decode(&list).unwrap();
    let expected = Bencode::Dict(vec![
        entry("publisher", text("bob")),
        entry("publisher-webpage", text("www.example.com")),
        entry("publisher.location", text("home")),
        entry("publisher.age", Bencode::Number(33)),
    ]);
    assert_eq!(result, expected);
}

#[test]
fn should_parse_dictionaries_recursively() {
    let list = "d3:cow3:moo4:spam4:eggs4:home6:vienna3:agei33e4:lifed6:can.be7:amazingee"
        .as_bytes()
        .to_vec();
    let result = BencodeParser::decode(&list).unwrap();
    let expected = Bencode::Dict(vec![
        entry("cow", text("moo")),
        entry("spam", text("eggs")),
        entry("home", text("vienna")),
        entry("age", Bencode::Number(33)),
        entry("life", Bencode::Dict(vec![entry("can.be", text("amazing"))])),
    ]);
    assert_eq!(result, expected);
}

#[test]
fn should_encode_and_decode_bencode_values_to_bytes() {
    let decoded_value = Bencode::Dict(vec![
        entry("cow", text("moo")),
        entry("spam", text("eggs")),
        entry("home", text("vienna")),
        entry("age", Bencode::Number(33)),
        entry("life", Bencode::Dict(vec![entry("can.be", text("amazing"))])),
        entry("items", Bencode::List(vec![Bencode::Number(10), text("who cares")])),
    ]);
    let encoded_value = BencodeParser::encode(&decoded_value);
    let new_decoded_value = BencodeParser::decode(&encoded_value).unwrap();
    assert_eq!(decoded_value, new_decoded_value);
}
