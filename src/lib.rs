//! Decoding and encoding of bencoded documents, and typed readers of
//! torrent meta-info files and tracker responses built on the decoded tree.

pub mod byte_string;
pub mod announce_info;
pub mod bencode;
pub mod decoder;
pub mod grammar;
pub mod laws;
pub mod meta_info;
pub mod ordered;
pub mod tracker;
