use bittorrent_starter_rust::peer::{
    build_request, engine_step, event_for_frame, u32_from_be, u32_to_be,
    verify_handshake_response, EngineAction, EngineEvent, EngineState, Handshake, MessageType,
    PeerError, HANDSHAKE_BYTE_BUFFER_SIZE, HANDSHAKE_PEER_ID_BYTE_INDEX_START,
};

fn sample_hash() -> [u8; 20] {
    let mut h = [0u8; 20];
    for (i, b) in h.iter_mut().enumerate() {
        *b = i as u8;
    }
    h
}

#[test]
fn handshake_layout_is_68_bytes() {
    let h = Handshake::new(sample_hash());
    let bytes = h.as_bytes();
    assert_eq!(bytes.len(), HANDSHAKE_BYTE_BUFFER_SIZE);
    assert_eq!(bytes[0], 19);
    assert_eq!(&bytes[1..20], b"BitTorrent protocol");
    assert_eq!(&bytes[20..28], &[0u8; 8]);
    assert_eq!(&bytes[28..48], &sample_hash());
    assert_eq!(
        &bytes[HANDSHAKE_PEER_ID_BYTE_INDEX_START..],
        b"00112233445566778899"
    );
}

#[test]
fn handshake_response_with_matching_hash_is_accepted() {
    let ours = Handshake::new(sample_hash());
    let mut resp = [0u8; 68];
    resp.copy_from_slice(&ours.as_bytes());
    // The peer answers with its own id but the same info hash.
    for b in resp[48..].iter_mut() {
        *b = 0xab;
    }
    let pid = verify_handshake_response(&resp, &sample_hash()).unwrap();
    assert_eq!(pid, [0xab; 20]);
}

#[test]
fn handshake_response_with_wrong_hash_is_rejected() {
    let ours = Handshake::new(sample_hash());
    let mut resp = [0u8; 68];
    resp.copy_from_slice(&ours.as_bytes());
    resp[28] ^= 0x80;
    assert_eq!(
        verify_handshake_response(&resp, &sample_hash()).unwrap_err(),
        PeerError::Handshake
    );
}

#[test]
fn message_ids_round_trip() {
    for id in 0u8..=8 {
        let m = MessageType::from_id(id).unwrap();
        assert_eq!(m.id(), id);
    }
    assert!(MessageType::from_id(9).is_none());
    assert!(MessageType::from_id(255).is_none());
}

#[test]
fn interested_write_buffer() {
    let buf = MessageType::Interested.get_write_buffer(|| (0, 0, 0));
    assert_eq!(buf, vec![0, 0, 0, 1, 2]);
}

#[test]
fn request_write_buffer() {
    let buf = MessageType::Request.get_write_buffer(|| (7, 16384, 1024));
    assert_eq!(buf, build_request(7, 16384, 1024));
    assert_eq!(buf.len(), 17);
    assert_eq!(&buf[0..4], &[0, 0, 0, 13]);
    assert_eq!(buf[4], 6);
    assert_eq!(&buf[5..9], &[0, 0, 0, 7]);
    assert_eq!(&buf[9..13], &[0, 0, 0x40, 0]);
    assert_eq!(&buf[13..17], &[0, 0, 4, 0]);
}

#[test]
fn other_kinds_have_no_write_buffer() {
    assert!(MessageType::Choke.get_write_buffer(|| (0, 0, 0)).is_empty());
    assert!(MessageType::Have.get_write_buffer(|| (0, 0, 0)).is_empty());
}

#[test]
fn u32_big_endian_round_trip() {
    for x in [0u32, 1, 255, 256, 16384, 0xdeadbeef, u32::MAX] {
        assert_eq!(u32_from_be(&u32_to_be(x)), x);
        assert_eq!(u32_to_be(x), x.to_be_bytes());
    }
}

#[test]
fn bitfield_then_interested_then_unchoke() {
    let s = EngineState::AwaitingBitfield;
    let (s, a) = engine_step(s, EngineEvent::Message { id: 5 }).unwrap();
    assert_eq!(s, EngineState::Choked { interested: false });
    assert_eq!(a, EngineAction::SendInterested);
    let (s, a) = engine_step(s, EngineEvent::InterestedSent).unwrap();
    assert_eq!(s, EngineState::Choked { interested: true });
    assert_eq!(a, EngineAction::NoAction);
    let (s, _) = engine_step(s, EngineEvent::Message { id: 1 }).unwrap();
    assert_eq!(s, EngineState::Unchoked);
}

#[test]
fn non_bitfield_first_message_is_protocol_error() {
    assert_eq!(
        engine_step(EngineState::AwaitingBitfield, EngineEvent::Message { id: 4 }).unwrap_err(),
        PeerError::UnexpectedMessage(4)
    );
    assert_eq!(
        engine_step(EngineState::AwaitingBitfield, EngineEvent::KeepAlive).unwrap_err(),
        PeerError::UnexpectedKeepAlive
    );
}

#[test]
fn waiting_for_unchoke_discards_other_messages() {
    let s = EngineState::Choked { interested: true };
    let (s2, a) = engine_step(s, EngineEvent::Message { id: 4 }).unwrap();
    assert_eq!(s2, s);
    assert_eq!(a, EngineAction::NoAction);
    let (s3, _) = engine_step(s, EngineEvent::KeepAlive).unwrap();
    assert_eq!(s3, s);
}

#[test]
fn unchoke_wait_times_out() {
    // A peer that keeps sending anything but `unchoke` never advances
    // the engine, and the elapsed bound surfaces as `Timeout`.
    let mut s = EngineState::Choked { interested: true };
    for _ in 0..100 {
        let (s2, _) = engine_step(s, EngineEvent::Message { id: 4 }).unwrap();
        s = s2;
    }
    assert_eq!(s, EngineState::Choked { interested: true });
    assert_eq!(
        engine_step(s, EngineEvent::TimedOut).unwrap_err(),
        PeerError::Timeout
    );
}

#[test]
fn zero_length_frame_is_keep_alive() {
    assert_eq!(event_for_frame(0, 0), EngineEvent::KeepAlive);
    assert_eq!(event_for_frame(5, 7), EngineEvent::Message { id: 7 });
}
