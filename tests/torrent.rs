use bencode_torrent::bencode::{decode, Bencode, BencodeError, Dict};
use bencode_torrent::torrent::{info_hash, Field, Torrent, TorrentError};

const SAMPLE: &[u8] = b"d8:announce23:http://tracker.test/ann10:created by9:mktorrent13:creation datei1700000000e4:infod5:filesld6:lengthi3e4:pathl3:dir5:a.txteee4:name4:demo12:piece lengthi16384e6:pieces20:abcdefghijklmnopqrst7:privatei1eee";

const SAMPLE_INFO_HASH: [u8; 20] = [
    166, 70, 74, 77, 101, 16, 251, 223, 236, 42, 153, 71, 47, 143, 15, 246, 55, 92, 150, 215,
];

#[test]
fn maps_a_complete_torrent() {
    let torrent = Torrent::new(SAMPLE.to_vec()).unwrap();
    assert_eq!(torrent.announce, "http://tracker.test/ann");
    assert_eq!(torrent.created_by, "mktorrent");
    assert_eq!(torrent.creation_date, 1700000000);
    assert_eq!(torrent.info.name, "demo");
    assert_eq!(torrent.info.piece_length, 16384);
    assert_eq!(torrent.info.pieces, b"abcdefghijklmnopqrst".to_vec());
    assert_eq!(torrent.info.files.len(), 1);
    assert_eq!(torrent.info.files[0].length, 3);
    assert_eq!(torrent.info.files[0].path, vec!["dir".to_string(), "a.txt".to_string()]);
}

#[test]
fn info_hash_covers_unmodelled_keys() {
    let torrent = Torrent::new(SAMPLE.to_vec()).unwrap();
    assert_eq!(torrent.info_hash(), SAMPLE_INFO_HASH);
}

#[test]
fn info_hash_of_known_bytes() {
    let (value, _) = decode(b"d1:ai1e1:bi2ee").unwrap();
    assert_eq!(
        info_hash(&value),
        [3, 170, 176, 136, 184, 97, 31, 204, 171, 140, 147, 187, 69, 1, 204, 199, 157, 169, 20, 253]
    );
}

#[test]
fn info_hash_ignores_insertion_order() {
    let mut first = Dict::new();
    first.insert(b"name".to_vec(), Bencode::String(b"demo".to_vec()));
    first.insert(b"piece length".to_vec(), Bencode::Integer(16384));
    first.insert(b"pieces".to_vec(), Bencode::String(vec![7; 20]));
    let mut second = Dict::new();
    second.insert(b"pieces".to_vec(), Bencode::String(vec![7; 20]));
    second.insert(b"name".to_vec(), Bencode::String(b"demo".to_vec()));
    second.insert(b"piece length".to_vec(), Bencode::Integer(16384));
    assert_eq!(
        info_hash(&Bencode::Dictionary(first)),
        info_hash(&Bencode::Dictionary(second))
    );
    let (unsorted, _) = decode(b"d6:pieces1:x4:name1:ae").unwrap();
    let (sorted, _) = decode(b"d4:name1:a6:pieces1:xe").unwrap();
    assert_eq!(info_hash(&unsorted), info_hash(&sorted));
}

#[test]
fn missing_announce_is_reported() {
    let (value, _) = decode(b"d10:created by1:x13:creation datei1ee").unwrap();
    assert!(matches!(
        Torrent::from_value(&value),
        Err(TorrentError::MissingField(Field::Announce))
    ));
}

#[test]
fn first_missing_field_in_order_is_reported() {
    let (value, _) = decode(b"d8:announce1:ae").unwrap();
    assert!(matches!(
        Torrent::from_value(&value),
        Err(TorrentError::MissingField(Field::CreatedBy))
    ));
    let (value, _) = decode(b"d8:announce1:a10:created by1:b13:creation datei1e4:infoi5ee").unwrap();
    assert!(matches!(
        Torrent::from_value(&value),
        Err(TorrentError::MissingField(Field::Info))
    ));
    let (value, _) = decode(b"d8:announce1:a10:created by1:b13:creation date1:x4:infodee").unwrap();
    assert!(matches!(
        Torrent::from_value(&value),
        Err(TorrentError::MissingField(Field::CreationDate))
    ));
    let (value, _) =
        decode(b"d8:announce1:a10:created by1:b13:creation datei1e4:infod4:name1:n12:piece lengthi1e5:filesleeee")
            .unwrap();
    assert!(matches!(
        Torrent::from_value(&value),
        Err(TorrentError::MissingField(Field::Pieces))
    ));
}

#[test]
fn root_must_be_a_dictionary() {
    let (value, _) = decode(b"li1ee").unwrap();
    assert!(matches!(Torrent::from_value(&value), Err(TorrentError::InvalidTorrentFile)));
}

#[test]
fn file_entry_must_be_a_dictionary() {
    let (value, _) =
        decode(b"d8:announce1:a10:created by1:b13:creation datei1e4:infod4:name1:n12:piece lengthi1e5:filesli3ee6:pieces0:ee")
            .unwrap();
    assert!(matches!(Torrent::from_value(&value), Err(TorrentError::InvalidDictionary)));
}

#[test]
fn path_segment_must_be_text() {
    let (value, _) =
        decode(b"d8:announce1:a10:created by1:b13:creation datei1e4:infod4:name1:n12:piece lengthi1e5:filesld6:lengthi1e4:pathl1:\xffeee6:pieces0:ee")
            .unwrap();
    assert!(matches!(Torrent::from_value(&value), Err(TorrentError::InvalidString)));
}

#[test]
fn non_utf8_announce_is_invalid_string() {
    let (value, _) = decode(b"d8:announce1:\xfe10:created by1:b13:creation datei1ee").unwrap();
    assert!(matches!(Torrent::from_value(&value), Err(TorrentError::InvalidString)));
}

#[test]
fn undecodable_file_is_reported() {
    assert!(matches!(
        Torrent::new(b"d8:announce".to_vec()),
        Err(TorrentError::Decode(BencodeError::InvalidInput))
    ));
    assert!(matches!(
        Torrent::new(b"d8announce".to_vec()),
        Err(TorrentError::Decode(BencodeError::NoStringDelimiter))
    ));
}

#[test]
fn to_torrent_reads_three_fields() {
    let (value, _) = decode(SAMPLE).unwrap();
    let torrent = value.to_torrent().unwrap();
    assert_eq!(torrent.announce, "http://tracker.test/ann");
    assert_eq!(torrent.created_by, "mktorrent");
    assert_eq!(torrent.creation_date, 1700000000);
    let (partial, _) = decode(b"d8:announce1:ae").unwrap();
    assert!(partial.to_torrent().is_none());
}

#[test]
fn as_string_checks_utf8() {
    assert_eq!(Bencode::String(b"spam".to_vec()).as_string(), Some("spam"));
    assert_eq!(Bencode::String(vec![0xff]).as_string(), None);
    assert_eq!(Bencode::Integer(1).as_string(), None);
}

#[test]
fn field_names() {
    assert_eq!(Field::CreatedBy.name(), "created by");
    assert_eq!(Field::PieceLength.key(), b"piece length");
}
