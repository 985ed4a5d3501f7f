use bittorrent_starter_rust::bencode::{encode, BencodeValue};
use bittorrent_starter_rust::download::{parse_piece_payload, piece_byte_length, PieceDownload};
use bittorrent_starter_rust::peer::PeerError;
use bittorrent_starter_rust::torrent::Torrent;
use sha1::{Digest, Sha1};

fn torrent_with(length: i64, piece_length: i64, piece_count: usize) -> Torrent {
    let pieces: Vec<u8> = (0..piece_count * 20).map(|i| i as u8).collect();
    let v = BencodeValue::Dict(vec![
        (
            b"announce".to_vec(),
            BencodeValue::ByteString(b"http://t".to_vec()),
        ),
        (
            b"info".to_vec(),
            BencodeValue::Dict(vec![
                (b"length".to_vec(), BencodeValue::Integer(length)),
                (b"name".to_vec(), BencodeValue::ByteString(b"f".to_vec())),
                (b"piece length".to_vec(), BencodeValue::Integer(piece_length)),
                (b"pieces".to_vec(), BencodeValue::ByteString(pieces)),
            ]),
        ),
    ]);
    Torrent::from_bytes(&encode(&v)).unwrap()
}

#[test]
fn piece_lengths_follow_the_geometry() {
    // 100000 bytes at 40000 each: pieces of 40000, 40000, 20000.
    let t = torrent_with(100000, 40000, 3);
    assert_eq!(piece_byte_length(&t.info, 0), 40000);
    assert_eq!(piece_byte_length(&t.info, 1), 40000);
    assert_eq!(piece_byte_length(&t.info, 2), 20000);
    // An exactly divisible file has no short last piece.
    let t = torrent_with(80000, 40000, 2);
    assert_eq!(piece_byte_length(&t.info, 1), 40000);
}

#[test]
fn blocks_of_a_divisible_piece_are_all_full() {
    // 32768 = 2 * 16384: exactly two full blocks, no empty third.
    let mut d = PieceDownload::new(0, 32768);
    let mut sizes = Vec::new();
    while let Some((off, len)) = d.next_request() {
        assert_eq!(off as usize, sizes.iter().sum::<u32>() as usize);
        sizes.push(len);
        let block = vec![0u8; len as usize];
        d.accept_block(0, off, &block).unwrap();
    }
    assert_eq!(sizes, vec![16384, 16384]);
}

#[test]
fn final_block_takes_the_remainder() {
    // 40000 = 2 * 16384 + 7232.
    let mut d = PieceDownload::new(0, 40000);
    let mut sizes = Vec::new();
    while let Some((off, len)) = d.next_request() {
        sizes.push(len);
        let block = vec![0u8; len as usize];
        d.accept_block(0, off, &block).unwrap();
    }
    assert_eq!(sizes, vec![16384, 16384, 7232]);
    assert!(d.is_complete());
}

#[test]
fn misordered_block_is_rejected() {
    let mut d = PieceDownload::new(3, 40000);
    let (off, len) = d.next_request().unwrap();
    assert_eq!(off, 0);
    // Wrong piece index.
    assert_eq!(
        d.accept_block(4, off, &vec![0u8; len as usize]).unwrap_err(),
        PeerError::UnexpectedBlock
    );
    // Wrong offset.
    assert_eq!(
        d.accept_block(3, off + 1, &vec![0u8; len as usize]).unwrap_err(),
        PeerError::UnexpectedBlock
    );
    // Wrong length.
    assert_eq!(
        d.accept_block(3, off, &vec![0u8; len as usize - 1]).unwrap_err(),
        PeerError::UnexpectedBlock
    );
    // Nothing was consumed; the right block still fits.
    d.accept_block(3, off, &vec![0u8; len as usize]).unwrap();
}

#[test]
fn verified_piece_is_released() {
    let payload: Vec<u8> = (0u8..200).collect();
    let mut d = PieceDownload::new(0, payload.len());
    let (off, len) = d.next_request().unwrap();
    assert_eq!((off, len as usize), (0, payload.len()));
    d.accept_block(0, 0, &payload).unwrap();
    let mut hasher = <Sha1 as Digest>::new();
    hasher.update(&payload);
    let mut hash = [0u8; 20];
    hash.copy_from_slice(&hasher.finalize());
    let released = d.finish(&hash).unwrap();
    assert_eq!(released, payload);
}

#[test]
fn corrupted_piece_is_rejected() {
    let payload: Vec<u8> = (0u8..200).collect();
    let mut hasher = <Sha1 as Digest>::new();
    hasher.update(&payload);
    let mut hash = [0u8; 20];
    hash.copy_from_slice(&hasher.finalize());
    // Flip one byte after hashing.
    let mut corrupted = payload.clone();
    corrupted[17] ^= 0x20;
    let mut d = PieceDownload::new(0, corrupted.len());
    d.accept_block(0, 0, &corrupted).unwrap();
    assert_eq!(d.finish(&hash).unwrap_err(), PeerError::Integrity);
}

#[test]
fn piece_payload_is_split_into_its_fields() {
    let mut payload = vec![7u8, 0, 0, 0, 2, 0, 0, 0x40, 0];
    payload.extend_from_slice(b"blockdata");
    let (idx, beg, data) = parse_piece_payload(&payload).unwrap();
    assert_eq!(idx, 2);
    assert_eq!(beg, 16384);
    assert_eq!(data, b"blockdata".to_vec());
}

#[test]
fn non_piece_payload_is_protocol_error() {
    assert_eq!(
        parse_piece_payload(&[4u8, 0, 0, 0, 1]).unwrap_err(),
        PeerError::UnexpectedMessage(4)
    );
    assert_eq!(
        parse_piece_payload(&[]).unwrap_err(),
        PeerError::UnexpectedKeepAlive
    );
    assert_eq!(
        parse_piece_payload(&[7u8, 0, 0]).unwrap_err(),
        PeerError::UnexpectedBlock
    );
}
