use dips::peer::{
    create_peer_id, decode_message, decode_message_body, encode_message, frame_length,
    ip_to_str, parse_bitfield, HandshakePacket, Message, MessageType, Peer,
};
use dips::torrent::{Block, DownloadBlock};
use dips::util::ErrorKind;

#[test]
fn test_parse_bitfield() {
    let mut v = Vec::new();
    v.push(0b11110000);
    v.push(0b11111111);
    v.push(0b00000000);
    v.push(0b00000001);
    let b = parse_bitfield(&v);
    println!("{:?} {}", b, b.len());
    assert_eq!(b, vec![0, 1, 2, 3, 8, 9, 10, 11, 12, 13, 14, 15, 31]);
}

#[test]
fn bitfield_full_byte_marks_eight_pieces() {
    let b = parse_bitfield(&vec![0x00, 0x00, 0xff]);
    assert_eq!(b, vec![16, 17, 18, 19, 20, 21, 22, 23]);
    let first = parse_bitfield(&vec![0x80]);
    assert_eq!(first, vec![0]);
    assert_eq!(parse_bitfield(&vec![]), Vec::<usize>::new());
}

#[test]
fn use_bitfield_adds_pieces() {
    let mut p = Peer::new(1, 2);
    p.use_bitfield(&vec![0x00, 0xff]);
    for i in 8..16u32 {
        assert!(p.has_piece(i));
    }
    assert!(!p.has_piece(7));
    assert!(!p.has_piece(16));
}

#[test]
fn from_u8_maps_ids() {
    assert_eq!(MessageType::from_u8(0), Some(MessageType::Choke));
    assert_eq!(MessageType::from_u8(7), Some(MessageType::Piece));
    assert_eq!(MessageType::from_u8(9), Some(MessageType::Port));
    assert_eq!(MessageType::from_u8(10), None);
    assert_eq!(MessageType::from_u8(255), None);
}

fn round_trip(t: MessageType, payload: Vec<u8>) {
    let m = Message { message_type: t, payload: payload.clone() };
    let frame = encode_message(&m);
    assert_eq!(frame_length(&frame) as usize, frame.len() - 4);
    let back = decode_message(&frame).unwrap();
    assert_eq!(back.message_type, t);
    assert_eq!(back.payload, payload);
}

#[test]
fn message_round_trip_every_kind() {
    round_trip(MessageType::KeepAlive, vec![]);
    round_trip(MessageType::Choke, vec![]);
    round_trip(MessageType::Unchoke, vec![]);
    round_trip(MessageType::Interested, vec![]);
    round_trip(MessageType::NotInterested, vec![]);
    round_trip(MessageType::Have, vec![0, 0, 0, 5]);
    round_trip(MessageType::Bitfield, vec![0xf0, 0x01]);
    round_trip(MessageType::Request, vec![0, 0, 0, 1, 0, 0, 0x40, 0, 0, 0, 0x40, 0]);
    round_trip(MessageType::Piece, vec![0, 0, 0, 1, 0, 0, 0, 0, 9, 8, 7]);
    round_trip(MessageType::Cancel, vec![0, 0, 0, 1, 0, 0, 0x40, 0, 0, 0, 0x40, 0]);
    round_trip(MessageType::Port, vec![0x1a, 0xe1]);
}

#[test]
fn message_frames_exact_bytes() {
    let keep = encode_message(&Message { message_type: MessageType::KeepAlive, payload: vec![] });
    assert_eq!(keep, vec![0, 0, 0, 0]);
    let int = encode_message(&Message { message_type: MessageType::Interested, payload: vec![] });
    assert_eq!(int, vec![0, 0, 0, 1, 2]);
    let have = encode_message(&Message { message_type: MessageType::Have, payload: vec![0, 0, 1, 2] });
    assert_eq!(have, vec![0, 0, 0, 5, 4, 0, 0, 1, 2]);
}

#[test]
fn decode_rejects_unknown_id_and_bad_length() {
    let e = decode_message_body(&[42, 1, 2]).unwrap_err();
    assert_eq!(e.kind, ErrorKind::Format);
    assert!(decode_message(&[0, 0, 0, 3, 1]).is_err());
    assert!(decode_message(&[0, 0]).is_err());
    let ka = decode_message_body(&[]).unwrap();
    assert_eq!(ka.message_type, MessageType::KeepAlive);
}

#[test]
fn handshake_build_and_parse() {
    let h = HandshakePacket::new([3u8; 20], [4u8; 20]);
    let b = h.build();
    assert_eq!(b.len(), 68);
    assert_eq!(b[0], 19);
    assert_eq!(&b[1..20], b"BitTorrent protocol");
    assert_eq!(&b[20..28], &[0u8; 8]);
    let p = HandshakePacket::parse(&b).unwrap();
    assert_eq!(p.info_hash(), [3u8; 20]);
    assert_eq!(p.peer_id(), [4u8; 20]);
    let mut bad = b.clone();
    bad[5] = b'x';
    assert!(HandshakePacket::parse(&bad).is_none());
    assert!(HandshakePacket::parse(&b[..67]).is_none());
}

#[test]
fn complete_handshake_checks_info_hash() {
    let reply = HandshakePacket::new([3u8; 20], [4u8; 20]).build();
    let mut p = Peer::new(1, 1);
    let e = p.complete_handshake(&reply, &[9u8; 20]).unwrap_err();
    assert_eq!(e.kind, ErrorKind::Handshake);
    assert!(p.peer_id.is_none());
    p.complete_handshake(&reply, &[3u8; 20]).unwrap();
    assert_eq!(p.peer_id, Some([4u8; 20]));
}

#[test]
fn block_bytes_round_trip() {
    let b = Block::new(1, 16384, 3616);
    let bytes = b.to_bytes();
    assert_eq!(bytes, [0, 0, 0, 1, 0, 0, 0x40, 0, 0, 0, 0x0e, 0x20]);
    assert_eq!(Block::parse(&bytes.to_vec()).unwrap(), b);
    let e = Block::parse(&vec![0; 11]).unwrap_err();
    assert_eq!(e.kind, ErrorKind::Format);
}

#[test]
fn download_block_parse() {
    let d = DownloadBlock::parse(&vec![0, 0, 0, 2, 0, 0, 0, 16, 5, 6]).unwrap();
    assert_eq!(d.piece_index, 2);
    assert_eq!(d.byte_offset, 16);
    assert_eq!(d.data, vec![5, 6]);
    assert!(DownloadBlock::parse(&vec![0; 7]).is_err());
    assert_eq!(DownloadBlock::parse(&vec![0; 8]).unwrap_err().kind, ErrorKind::Format);
    let one = DownloadBlock::parse(&vec![0, 0, 0, 0, 0, 0, 0, 0, 9]).unwrap();
    assert_eq!(one.data, vec![9]);
}

#[test]
fn peer_handles_messages() {
    let mut p = Peer::new(1, 1);
    assert!(p.am_choked && p.peer_choked && !p.am_interested && !p.peer_interested);
    p.handle_message(Message { message_type: MessageType::Unchoke, payload: vec![] }, 5).unwrap();
    assert!(!p.am_choked);
    assert_eq!(p.last_message_at, Some(5));
    p.handle_message(Message { message_type: MessageType::Interested, payload: vec![] }, 6).unwrap();
    assert!(p.peer_interested);
    p.handle_message(Message { message_type: MessageType::Have, payload: vec![0, 0, 0, 7] }, 7).unwrap();
    assert!(p.has_piece(7));
    let e = p
        .handle_message(Message { message_type: MessageType::Have, payload: vec![0, 7] }, 8)
        .unwrap_err();
    assert_eq!(e.kind, ErrorKind::Format);
    assert_eq!(p.last_message_at, Some(7));
    let req = Block::new(7, 0, 100).to_bytes().to_vec();
    p.handle_message(Message { message_type: MessageType::Request, payload: req.clone() }, 9).unwrap();
    assert_eq!(p.request_queue, vec![Block::new(7, 0, 100)]);
    p.handle_message(Message { message_type: MessageType::Cancel, payload: req }, 10).unwrap();
    assert!(p.request_queue.is_empty());
    p.handle_message(Message { message_type: MessageType::Piece, payload: vec![0, 0, 0, 7, 0, 0, 0, 0, 1, 2, 3] }, 11)
        .unwrap();
    assert_eq!(p.downloaded_blocks.len(), 1);
    assert_eq!(p.downloaded_blocks[0].data, vec![1, 2, 3]);
    assert_eq!(p.data_movements.len(), 1);
    p.handle_message(Message { message_type: MessageType::Choke, payload: vec![] }, 12).unwrap();
    assert!(p.am_choked);
    assert!(!p.can_download());
}

#[test]
fn set_interested_sends_only_on_change() {
    let mut p = Peer::new(1, 1);
    assert_eq!(p.set_interested(false), None);
    assert_eq!(p.set_interested(true), Some(MessageType::Interested));
    assert_eq!(p.set_interested(true), None);
    assert_eq!(p.set_interested(false), Some(MessageType::NotInterested));
    assert_eq!(p.set_choked(true), None);
    assert_eq!(p.set_choked(false), Some(MessageType::Unchoke));
    assert_eq!(p.set_choked(true), Some(MessageType::Choke));
}

#[test]
fn upload_rate_over_window() {
    let mut p = Peer::new(1, 1);
    p.record_upload(100, 1_000);
    p.record_upload(200, 20_000);
    p.record_upload(400, 31_000);
    assert_eq!(p.calculate_upload_rate(31_000, 30_000), 700);
    assert_eq!(p.calculate_upload_rate(40_000, 30_000), 600);
    assert_eq!(p.calculate_upload_rate(10, 30_000), 0);
}

#[test]
fn ip_to_str_dotted() {
    assert_eq!(ip_to_str(0x7f000001), "127.0.0.1");
    assert_eq!(ip_to_str(0xc0a8_01ff), "192.168.1.255");
    assert_eq!(ip_to_str(0), "0.0.0.0");
}

#[test]
fn peer_id_has_tag_and_digits() {
    let id = create_peer_id(123456789);
    assert_eq!(&id[..9], b"dips-001-");
    let mut n: u128 = 123456789;
    for k in 9..20 {
        assert_eq!(id[k], b'0' + (n % 10) as u8);
        n >>= 2;
    }
}

#[test]
fn prune_keeps_recent_movements() {
    let mut p = Peer::new(1, 1);
    p.record_upload(1, 1_000);
    p.record_upload(2, 50_000);
    p.record_upload(3, 20_000);
    p.prune_movements(60_000, 40_000);
    let kept: Vec<usize> = p.data_movements.iter().map(|m| m.data_len).collect();
    assert_eq!(kept, vec![2, 3]);
    p.prune_movements(10, 40_000);
    assert_eq!(p.data_movements.len(), 2);
}

#[test]
fn empty_piece_message_refused() {
    let mut p = Peer::new(1, 1);
    let e = p
        .handle_message(Message { message_type: MessageType::Piece, payload: vec![0; 8] }, 3)
        .unwrap_err();
    assert_eq!(e.kind, ErrorKind::Format);
    assert!(p.downloaded_blocks.is_empty());
    assert_eq!(p.last_message_at, None);
}

#[test]
fn discard_blocks_of_assembled_piece() {
    let mut p = Peer::new(1, 1);
    for (piece, b) in [(1u32, 5u8), (2, 6), (1, 7)] {
        let payload = vec![0, 0, 0, piece as u8, 0, 0, 0, 0, b];
        p.handle_message(Message { message_type: MessageType::Piece, payload }, 1).unwrap();
    }
    p.discard_blocks_of(1);
    assert_eq!(p.downloaded_blocks.len(), 1);
    assert_eq!(p.downloaded_blocks[0].piece_index, 2);
}

#[test]
fn mark_connected_starts_silence_clock() {
    let mut p = Peer::new(1, 1);
    p.mark_connected(42);
    assert_eq!(p.last_message_at, Some(42));
}
