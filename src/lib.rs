//! Bencode decoding and canonical encoding, the torrent metadata read from a
//! decoded tree, and the info-hash that identifies a torrent.
pub mod bencode;
pub mod model;
pub mod encode;
pub mod laws;
pub mod torrent;
pub mod text;
