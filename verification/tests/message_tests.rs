use rsbt_core::message::{
    bit_by_index, build_handshake, decode_message, index_in_bitarray, parse_handshake, set_bit,
    Message, HANDSHAKE_SIZE,
};

fn round_trip(message: Message) {
    let frame = message.encode();
    let decoded = decode_message(frame.as_slice());
    assert_eq!(decoded, Some(message));
}

#[test]
fn codec_round_trips_every_kind() {
    round_trip(Message::KeepAlive);
    round_trip(Message::Choke);
    round_trip(Message::Unchoke);
    round_trip(Message::Interested);
    round_trip(Message::NotInterested);
    round_trip(Message::Have(0x01020304));
    round_trip(Message::Bitfield(vec![0b1010_0000, 0xff, 0x00]));
    round_trip(Message::Bitfield(Vec::new()));
    round_trip(Message::Request {
        index: 7,
        begin: 16384,
        length: 16384,
    });
    round_trip(Message::Piece {
        index: 3,
        begin: 32768,
        block: b"hello piece".to_vec(),
    });
    round_trip(Message::Cancel {
        index: 7,
        begin: 16384,
        length: 16384,
    });
    round_trip(Message::Port(6881));
}

#[test]
fn codec_exact_bytes() {
    assert_eq!(Message::KeepAlive.encode(), vec![0, 0, 0, 0]);
    assert_eq!(Message::Choke.encode(), vec![0, 0, 0, 1, 0]);
    assert_eq!(
        Message::Have(9).encode(),
        vec![0, 0, 0, 5, 4, 0, 0, 0, 9]
    );
    assert_eq!(Message::Port(0x1A2B).encode(), vec![0, 0, 0, 3, 9, 0x1A, 0x2B]);
}

#[test]
fn decoder_rejects_bad_frames() {
    // truncated length prefix
    assert_eq!(decode_message(&[0, 0]), None);
    // length prefix longer than the frame
    assert_eq!(decode_message(&[0, 0, 0, 9, 4, 0, 0, 0, 9]), None);
    // unknown id
    assert_eq!(decode_message(&[0, 0, 0, 1, 42]), None);
    // wrong payload size for a known id
    assert_eq!(decode_message(&[0, 0, 0, 2, 4, 1]), None);
    // trailing garbage after a whole frame
    assert_eq!(decode_message(&[0, 0, 0, 1, 0, 0]), None);
}

#[test]
fn handshake_round_trip() {
    let info_hash = vec![7u8; 20];
    let peer_id = vec![9u8; 20];
    let handshake = build_handshake(&info_hash, &peer_id);
    assert_eq!(handshake.len(), HANDSHAKE_SIZE);
    assert_eq!(handshake[0], 19);
    assert_eq!(&handshake[1..20], b"BitTorrent protocol".as_ref());
    assert_eq!(&handshake[20..28], &[0u8; 8]);
    let parsed = parse_handshake(handshake.as_slice()).unwrap();
    assert_eq!(parsed.info_hash, info_hash);
    assert_eq!(parsed.peer_id, peer_id);
}

#[test]
fn handshake_rejects_bad_prefix() {
    let info_hash = vec![7u8; 20];
    let peer_id = vec![9u8; 20];
    let mut handshake = build_handshake(&info_hash, &peer_id);
    handshake[1] = b'X';
    assert!(parse_handshake(handshake.as_slice()).is_none());
    assert!(parse_handshake(&handshake[..67]).is_none());
}

#[test]
fn bitfield_helpers() {
    assert_eq!(index_in_bitarray(0), (0, 0b1000_0000));
    assert_eq!(index_in_bitarray(7), (0, 0b0000_0001));
    assert_eq!(index_in_bitarray(9), (1, 0b0100_0000));

    let data = [0b1000_0001u8, 0b0100_0000];
    assert_eq!(bit_by_index(0, &data), Some((0, 0b1000_0000)));
    assert_eq!(bit_by_index(1, &data), None);
    assert_eq!(bit_by_index(7, &data), Some((0, 0b0000_0001)));
    assert_eq!(bit_by_index(9, &data), Some((1, 0b0100_0000)));
    assert_eq!(bit_by_index(16, &data), None);

    let mut bits = vec![0u8; 2];
    set_bit(&mut bits, 9);
    assert_eq!(bits, vec![0b0000_0000, 0b0100_0000]);
    set_bit(&mut bits, 0);
    assert_eq!(bits, vec![0b1000_0000, 0b0100_0000]);
}
