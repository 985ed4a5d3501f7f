use bittorrent_starter_rust::bencode::{encode, BencodeValue};
use bittorrent_starter_rust::torrent::{DecodeError, FieldId, Torrent};
use sha1::{Digest, Sha1};

fn metainfo_value(length: i64, piece_length: i64, pieces: &[u8]) -> BencodeValue {
    BencodeValue::Dict(vec![
        (
            b"announce".to_vec(),
            BencodeValue::ByteString(b"http://tracker.example/announce".to_vec()),
        ),
        (
            b"info".to_vec(),
            BencodeValue::Dict(vec![
                (b"length".to_vec(), BencodeValue::Integer(length)),
                (
                    b"name".to_vec(),
                    BencodeValue::ByteString(b"sample.txt".to_vec()),
                ),
                (b"piece length".to_vec(), BencodeValue::Integer(piece_length)),
                (b"pieces".to_vec(), BencodeValue::ByteString(pieces.to_vec())),
            ]),
        ),
    ])
}

fn sample_metainfo_bytes() -> Vec<u8> {
    let pieces: Vec<u8> = (0u8..40).collect();
    encode(&metainfo_value(40, 32, &pieces))
}

#[test]
fn parse_sample_metainfo() {
    let bytes = sample_metainfo_bytes();
    let t = Torrent::from_bytes(&bytes).unwrap();
    assert_eq!(t.announce, "http://tracker.example/announce");
    assert_eq!(t.info.length, 40);
    assert_eq!(t.info.name, "sample.txt");
    assert_eq!(t.info.piece_length, 32);
    assert_eq!(t.info.pieces.0.len(), 2);
    let first: Vec<u8> = (0u8..20).collect();
    let second: Vec<u8> = (20u8..40).collect();
    assert_eq!(t.info.pieces.0[0].to_vec(), first);
    assert_eq!(t.info.pieces.0[1].to_vec(), second);
}

#[test]
fn pieces_not_multiple_of_twenty_is_decode_error() {
    // 39 bytes of hashes: one byte short of two records.
    let pieces: Vec<u8> = (0u8..39).collect();
    let bytes = encode(&metainfo_value(40, 32, &pieces));
    assert_eq!(
        Torrent::from_bytes(&bytes).unwrap_err(),
        DecodeError::PiecesLength
    );
}

#[test]
fn piece_count_mismatch_is_decode_error() {
    // One 20-byte record where the sizes demand two.
    let pieces: Vec<u8> = (0u8..20).collect();
    let bytes = encode(&metainfo_value(40, 32, &pieces));
    assert_eq!(
        Torrent::from_bytes(&bytes).unwrap_err(),
        DecodeError::PieceCount
    );
}

#[test]
fn missing_fields_are_named() {
    let v = BencodeValue::Dict(vec![(
        b"info".to_vec(),
        BencodeValue::Dict(Vec::new()),
    )]);
    assert_eq!(
        Torrent::from_bytes(&encode(&v)).unwrap_err(),
        DecodeError::Missing(FieldId::Announce)
    );
    let v = BencodeValue::Dict(vec![(
        b"announce".to_vec(),
        BencodeValue::ByteString(b"http://t".to_vec()),
    )]);
    assert_eq!(
        Torrent::from_bytes(&encode(&v)).unwrap_err(),
        DecodeError::Missing(FieldId::Info)
    );
}

#[test]
fn mistyped_field_is_named() {
    let v = BencodeValue::Dict(vec![
        (b"announce".to_vec(), BencodeValue::Integer(3)),
        (b"info".to_vec(), BencodeValue::Dict(Vec::new())),
    ]);
    assert_eq!(
        Torrent::from_bytes(&encode(&v)).unwrap_err(),
        DecodeError::Mistyped(FieldId::Announce)
    );
}

#[test]
fn not_bencode_is_syntax_error() {
    assert!(matches!(
        Torrent::from_bytes(b"garbage").unwrap_err(),
        DecodeError::Syntax(_)
    ));
}

#[test]
fn info_hash_matches_direct_sha1_of_info_encoding() {
    let bytes = sample_metainfo_bytes();
    let t = Torrent::from_bytes(&bytes).unwrap();
    let pieces: Vec<u8> = (0u8..40).collect();
    let info_value = BencodeValue::Dict(vec![
        (b"length".to_vec(), BencodeValue::Integer(40)),
        (
            b"name".to_vec(),
            BencodeValue::ByteString(b"sample.txt".to_vec()),
        ),
        (b"piece length".to_vec(), BencodeValue::Integer(32)),
        (b"pieces".to_vec(), BencodeValue::ByteString(pieces)),
    ]);
    let info_bytes = encode(&info_value);
    let mut hasher = <Sha1 as Digest>::new();
    hasher.update(&info_bytes);
    let expected: Vec<u8> = hasher.finalize().to_vec();
    assert_eq!(t.info.info_hash_bytes().to_vec(), expected);
}

#[test]
fn info_hash_is_deterministic_across_reparses() {
    let bytes = sample_metainfo_bytes();
    let t1 = Torrent::from_bytes(&bytes).unwrap();
    let t2 = Torrent::from_bytes(&bytes).unwrap();
    assert_eq!(t1.info.info_hash_bytes(), t2.info.info_hash_bytes());
}

#[test]
fn flipping_a_byte_inside_info_changes_the_hash() {
    let bytes = sample_metainfo_bytes();
    let t1 = Torrent::from_bytes(&bytes).unwrap();
    // Same metainfo but for one flipped byte inside a piece hash.
    let mut pieces: Vec<u8> = (0u8..40).collect();
    pieces[0] ^= 0x01;
    let t2 = Torrent::from_bytes(&encode(&metainfo_value(40, 32, &pieces))).unwrap();
    assert_ne!(t1.info.info_hash_bytes(), t2.info.info_hash_bytes());
}

#[test]
fn info_hash_str_is_lowercase_hex() {
    let bytes = sample_metainfo_bytes();
    let t = Torrent::from_bytes(&bytes).unwrap();
    let s = t.info.info_hash_str();
    let h = t.info.info_hash_bytes();
    let mut expected = String::new();
    for b in h.iter() {
        expected.push_str(&format!("{:02x}", b));
    }
    assert_eq!(s, expected);
}

#[test]
fn info_hash_urlencoded_escapes_every_byte() {
    let bytes = sample_metainfo_bytes();
    let t = Torrent::from_bytes(&bytes).unwrap();
    let s = t.info.info_hash_urlencoded();
    let h = t.info.info_hash_bytes();
    let mut expected = String::new();
    for b in h.iter() {
        expected.push_str(&format!("%{:02x}", b));
    }
    assert_eq!(s, expected);
    assert_eq!(s.len(), 60);
}

#[test]
fn overview_renders_all_fields() {
    let bytes = sample_metainfo_bytes();
    let t = Torrent::from_bytes(&bytes).unwrap();
    let first: Vec<u8> = (0u8..20).collect();
    let second: Vec<u8> = (20u8..40).collect();
    let expected = format!(
        "Tracker URL: http://tracker.example/announce\nLength: 40\nInfo Hash: {}\nPiece Length: 32\nPiece Hashes:\n{}\n{}",
        t.info.info_hash_str(),
        hex::encode(&first),
        hex::encode(&second),
    );
    assert_eq!(t.overview(), expected);
}

#[test]
fn non_dict_metainfo_is_rejected() {
    assert_eq!(
        Torrent::from_bytes(b"i42e").unwrap_err(),
        DecodeError::NotADict
    );
}
