use bencode_torrent::bencode::{decode, Bencode, Dict};
use bencode_torrent::torrent::{Torrent, TorrentFile, TorrentInfo};

#[test]
fn renders_nested_value() {
    let (value, _) = decode(b"li42e4:spamd1:ki-1e1:lleee").unwrap();
    assert_eq!(value.to_string(), "[42, \"spam\", {\"k\": -1, \"l\": []}]");
}

#[test]
fn renders_scalars() {
    assert_eq!(Bencode::Integer(-5).to_string(), "-5");
    assert_eq!(Bencode::Integer(i64::MIN).to_string(), "-9223372036854775808");
    assert_eq!(Bencode::String(b"bencode".to_vec()).to_string(), "\"bencode\"");
    assert_eq!(Bencode::List(vec![]).to_string(), "[]");
    assert_eq!(Bencode::Dictionary(Dict::new()).to_string(), "{}");
}

#[test]
fn renders_dictionary_in_key_order() {
    let mut d = Dict::new();
    d.insert(b"wiki".to_vec(), Bencode::String(b"bencode".to_vec()));
    d.insert(b"meaning".to_vec(), Bencode::Integer(42));
    assert_eq!(Bencode::Dictionary(d).to_string(), "{\"meaning\": 42, \"wiki\": \"bencode\"}");
}

#[test]
fn renders_invalid_utf8_with_replacement() {
    assert_eq!(Bencode::String(vec![b'a', 0xff]).to_string(), "\"a\u{FFFD}\"");
}

fn info_with_lengths(lengths: &[i64]) -> TorrentInfo {
    TorrentInfo {
        name: "n".to_string(),
        piece_length: 1,
        files: lengths
            .iter()
            .map(|&length| TorrentFile { length, path: vec!["p".to_string()] })
            .collect(),
        pieces: vec![],
    }
}

#[test]
fn total_length_sums_files() {
    assert_eq!(info_with_lengths(&[]).total_length(), Some(0));
    assert_eq!(info_with_lengths(&[3, 4, 5]).total_length(), Some(12));
    assert_eq!(info_with_lengths(&[i64::MAX, 1]).total_length(), None);
    assert_eq!(info_with_lengths(&[i64::MAX, 1, -1]).total_length(), Some(i64::MAX));
}

#[test]
fn total_length_of_decoded_torrent() {
    let input = b"d8:announce1:a10:created by1:b13:creation datei1e4:infod5:filesld6:lengthi10e4:pathl1:xeed6:lengthi32e4:pathl1:yeee4:name1:n12:piece lengthi1e6:pieces0:ee";
    let torrent = Torrent::new(input.to_vec()).unwrap();
    assert_eq!(torrent.info.total_length(), Some(42));
}
