use bittorrent_starter_rust::bencode::{encode, BencodeValue};
use bittorrent_starter_rust::tracker::{TrackerError, TrackerRequest, TrackerResponse};

#[test]
fn default_request_fields() {
    let r = TrackerRequest::default(12345);
    assert_eq!(r.peer_id, "00112233445566778899");
    assert_eq!(r.port, 6881);
    assert_eq!(r.uploaded, 0);
    assert_eq!(r.downloaded, 0);
    assert_eq!(r.left, 12345);
    assert_eq!(r.compact, 1);
}

#[test]
fn compact_peer_list_is_parsed() {
    let peers_bytes: Vec<u8> = vec![
        192, 168, 0, 1, 0x1a, 0xe1, // 192.168.0.1:6881
        10, 0, 0, 2, 0x00, 0x50, // 10.0.0.2:80
    ];
    let v = BencodeValue::Dict(vec![
        (b"interval".to_vec(), BencodeValue::Integer(1800)),
        (b"peers".to_vec(), BencodeValue::ByteString(peers_bytes)),
    ]);
    let resp = TrackerResponse::from_bytes(&encode(&v)).unwrap();
    assert_eq!(resp.peers.addresses.len(), 2);
    assert_eq!(resp.peers.addresses[0].ip, [192, 168, 0, 1]);
    assert_eq!(resp.peers.addresses[0].port, 6881);
    assert_eq!(resp.peers.addresses[1].ip, [10, 0, 0, 2]);
    assert_eq!(resp.peers.addresses[1].port, 80);
}

#[test]
fn short_peer_entries_are_rejected() {
    let v = BencodeValue::Dict(vec![(
        b"peers".to_vec(),
        BencodeValue::ByteString(vec![1, 2, 3, 4, 5]),
    )]);
    assert_eq!(
        TrackerResponse::from_bytes(&encode(&v)).unwrap_err(),
        TrackerError::PeersLength
    );
}

#[test]
fn response_without_peers_is_rejected() {
    let v = BencodeValue::Dict(vec![(
        b"interval".to_vec(),
        BencodeValue::Integer(1800),
    )]);
    assert_eq!(
        TrackerResponse::from_bytes(&encode(&v)).unwrap_err(),
        TrackerError::MissingPeers
    );
    assert_eq!(
        TrackerResponse::from_bytes(b"not bencode at all").unwrap_err(),
        TrackerError::Syntax(bittorrent_starter_rust::bencode::ParseError::UnexpectedToken)
    );
}

#[test]
fn non_byte_string_peers_are_rejected() {
    let v = BencodeValue::Dict(vec![(
        b"peers".to_vec(),
        BencodeValue::Integer(7),
    )]);
    assert_eq!(
        TrackerResponse::from_bytes(&encode(&v)).unwrap_err(),
        TrackerError::MistypedPeers
    );
    assert_eq!(
        TrackerResponse::from_bytes(b"i42e").unwrap_err(),
        TrackerError::NotADict
    );
}
