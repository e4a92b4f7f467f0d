use dips::peer::{Message, MessageType, Peer};
use dips::peer_pool::{
    download_requests, piece_payload, PeerMessage, PeerPool, PieceDownload, PieceOutcome,
    MAX_CONNECTIONS,
};
use dips::torrent::{Block, DownloadBlock, Torrent};

fn sha1(b: &[u8]) -> [u8; 20] {
    sha1_smol::Sha1::from(b).digest().bytes()
}

fn msg(t: MessageType, payload: Vec<u8>) -> Message {
    Message { message_type: t, payload }
}

/// Connects `peer`, then lets it send `bitfield` and an Unchoke.
fn join(pool: &mut PeerPool, peer: Peer, bitfield: Vec<u8>, now: u64) {
    pool.finish_connect(peer, true);
    let mut peers = pool.take_active_peers();
    let mut last = peers.pop().unwrap();
    for p in peers {
        pool.return_peer(p, true);
    }
    last.handle_message(msg(MessageType::Bitfield, bitfield), now).unwrap();
    last.handle_message(msg(MessageType::Unchoke, vec![]), now).unwrap();
    pool.return_peer(last, true);
}

#[test]
fn tiny_torrent_one_seeder_one_piece() {
    let data = vec![7u8; 16384];
    let t = Torrent::new([1; 20], vec![], 16384, vec![sha1(&data)], 16384).unwrap();
    let mut pool = PeerPool::new(t, "out".to_string(), 0);
    join(&mut pool, Peer::new(0x7f000001, 6881), vec![0x80], 1);
    let (msgs, mut assigns) = pool.plan_downloads();
    assert_eq!(
        msgs,
        vec![PeerMessage {
            ip_address: 0x7f000001,
            port: 6881,
            message_type: MessageType::Interested,
            piece_index: 0
        }]
    );
    assert_eq!(assigns.len(), 1);
    let a = assigns.pop().unwrap();
    assert_eq!((a.piece, a.piece_len), (0, 16384));
    let dl = PieceDownload::start(&a.peer, a.piece, a.piece_len).unwrap();
    assert_eq!(dl.requests, vec![Block::new(0, 0, 16384)]);
    let mut peer = a.peer;
    assert!(dl.assemble(&peer).is_none());
    peer.handle_message(msg(MessageType::Piece, piece_payload(0, 0, &data)), 2).unwrap();
    let bytes = dl.assemble(&peer).unwrap();
    assert_eq!(bytes, data);
    match pool.finish_download(0, Some(bytes), peer) {
        PieceOutcome::Verified { piece, offset, data: d } => {
            assert_eq!((piece, offset), (0, 0));
            assert_eq!(sha1(&d), pool.torrent.piece_hashes[0]);
        },
        _ => panic!("piece not verified"),
    }
    assert!(pool.has_piece(0));
    assert_eq!(pool.count_pieces_left(), 0);
    assert_eq!(pool.active_peers.len(), 1);
    let have = pool.broadcast_have(0);
    assert_eq!(have.len(), 1);
    assert_eq!(have[0].message_type, MessageType::Have);
    assert_eq!(have[0].piece_index, 0);
}

#[test]
fn two_pieces_two_peers() {
    let a = vec![1u8; 16384];
    let b = vec![2u8; 3616];
    let t = Torrent::new([1; 20], vec![], 16384, vec![sha1(&a), sha1(&b)], 20000).unwrap();
    let mut pool = PeerPool::new(t, "out".to_string(), 0);
    join(&mut pool, Peer::new(1, 1), vec![0x80], 1);
    join(&mut pool, Peer::new(2, 2), vec![0x40], 1);
    let (_, assigns) = pool.plan_downloads();
    assert_eq!(assigns.len(), 2);
    let mut lens: Vec<(u32, u32)> = assigns.iter().map(|x| (x.piece, x.piece_len)).collect();
    lens.sort();
    assert_eq!(lens, vec![(0, 16384), (1, 3616)]);
    assert_eq!(pool.count_pieces_left(), 0);
    for asg in assigns {
        let dl = PieceDownload::start(&asg.peer, asg.piece, asg.piece_len).unwrap();
        assert_eq!(dl.requests, vec![Block::new(asg.piece, 0, asg.piece_len)]);
        let mut peer = asg.peer;
        let content = if asg.piece == 0 { a.clone() } else { b.clone() };
        peer.handle_message(msg(MessageType::Piece, piece_payload(asg.piece, 0, &content)), 2).unwrap();
        let bytes = dl.assemble(&peer).unwrap();
        match pool.finish_download(asg.piece, Some(bytes), peer) {
            PieceOutcome::Verified { piece, offset, .. } => {
                assert_eq!(offset, piece as u64 * 16384);
            },
            _ => panic!("piece not verified"),
        }
    }
    assert!(pool.has_piece(0) && pool.has_piece(1));
}

#[test]
fn piece_hash_mismatch_goes_to_another_peer() {
    let good = vec![3u8; 100];
    let t = Torrent::new([1; 20], vec![], 100, vec![sha1(&good)], 100).unwrap();
    let mut pool = PeerPool::new(t, "out".to_string(), 0);
    join(&mut pool, Peer::new(1, 1), vec![0x80], 1);
    let (_, mut assigns) = pool.plan_downloads();
    let asg = assigns.pop().unwrap();
    let mut bad_peer = asg.peer;
    let dl = PieceDownload::start(&bad_peer, 0, 100).unwrap();
    bad_peer.handle_message(msg(MessageType::Piece, piece_payload(0, 0, &vec![4u8; 100])), 2).unwrap();
    let bytes = dl.assemble(&bad_peer).unwrap();
    assert!(matches!(pool.finish_download(0, Some(bytes), bad_peer), PieceOutcome::Corrupt));
    assert!(!pool.has_piece(0));
    assert_eq!(pool.backlog_peers.len(), 1);
    assert_eq!(pool.backlog_peers[0].ip_address, 1);
    assert_eq!(pool.count_pieces_left(), 1);
    join(&mut pool, Peer::new(2, 2), vec![0x80], 3);
    let (_, assigns) = pool.plan_downloads();
    assert_eq!(assigns.len(), 1);
    assert_eq!(assigns[0].piece, 0);
    assert_eq!(assigns[0].peer.ip_address, 2);
}

#[test]
fn complete_piece_with_digest() {
    let t = Torrent::new([1; 20], vec![], 4, vec![[9u8; 20]], 4).unwrap();
    let mut pool = PeerPool::new(t, "out".to_string(), 0);
    join(&mut pool, Peer::new(1, 1), vec![0x80], 1);
    let (_, mut assigns) = pool.plan_downloads();
    let asg = assigns.pop().unwrap();
    let out = pool.complete_piece(0, vec![1, 2, 3, 4], [9u8; 20], asg.peer);
    assert!(matches!(out, PieceOutcome::Verified { offset: 0, .. }));
    let out = pool.complete_piece(0, vec![1, 2, 3, 4], [9u8; 20], Peer::new(5, 5));
    assert!(matches!(out, PieceOutcome::Failed));
}

#[test]
fn choked_peer_gets_no_request() {
    let t = Torrent::new([1; 20], vec![], 100, vec![[0; 20]], 100).unwrap();
    let mut pool = PeerPool::new(t, "out".to_string(), 0);
    pool.finish_connect(Peer::new(1, 1), true);
    let mut ps = pool.take_active_peers();
    let mut p = ps.pop().unwrap();
    p.handle_message(msg(MessageType::Bitfield, vec![0x80]), 1).unwrap();
    assert!(PieceDownload::start(&p, 0, 100).is_none());
    pool.return_peer(p, true);
    let (msgs, assigns) = pool.plan_downloads();
    assert!(assigns.is_empty());
    assert!(msgs.is_empty());
    assert_eq!(pool.active_peers.len(), 1);
}

#[test]
fn block_requests_cover_piece() {
    let r = download_requests(3, 40000);
    assert_eq!(
        r,
        vec![Block::new(3, 0, 16384), Block::new(3, 16384, 16384), Block::new(3, 32768, 7232)]
    );
    assert!(download_requests(0, 0).is_empty());
    assert_eq!(download_requests(0, 16384), vec![Block::new(0, 0, 16384)]);
}

#[test]
fn piece_payload_answers_request() {
    let req = Block::new(5, 16384, 3);
    let payload = piece_payload(req.piece_index, req.byte_offset, &vec![1, 2, 3]);
    let d = DownloadBlock::parse(&payload).unwrap();
    assert_eq!((d.piece_index, d.byte_offset), (5, 16384));
    assert_eq!(d.data.len() as u32, req.requested_length);
}

fn peer_with_rate(id: u32, bytes: usize, at: u64) -> Peer {
    let mut p = Peer::new(id, 1);
    p.peer_interested = true;
    p.record_upload(bytes, at);
    p
}

#[test]
fn choke_cycle_six_peers() {
    let t = Torrent::new([1; 20], vec![], 1, vec![], 0).unwrap();
    let mut pool = PeerPool::new(t, "out".to_string(), 0);
    let rates = [1000usize, 900, 800, 700, 600, 500];
    for (i, r) in rates.iter().enumerate() {
        pool.finish_connect(peer_with_rate(i as u32, r * 30, 5_000), true);
    }
    assert!(pool.choke_due(10_000));
    let msgs = pool.run_choke_algo(10_000);
    let unchoked: Vec<u32> = msgs
        .iter()
        .filter(|m| m.message_type == MessageType::Unchoke)
        .map(|m| m.ip_address)
        .collect();
    assert_eq!(unchoked, vec![0, 1, 2, 3]);
    assert!(msgs.iter().all(|m| m.message_type == MessageType::Unchoke));
    assert!(pool.active_peers[4].peer_choked && pool.active_peers[5].peer_choked);
    assert!(!pool.choke_due(15_000));
    let msgs = pool.run_choke_algo(40_000);
    let flipped: Vec<&PeerMessage> =
        msgs.iter().filter(|m| m.message_type == MessageType::Unchoke).collect();
    assert_eq!(flipped.len(), 1);
    assert!(flipped[0].ip_address == 4 || flipped[0].ip_address == 5);
}

#[test]
fn choke_with_no_interested_peers() {
    let t = Torrent::new([1; 20], vec![], 1, vec![], 0).unwrap();
    let mut pool = PeerPool::new(t, "out".to_string(), 0);
    for i in 0..3 {
        let mut p = Peer::new(i, 1);
        p.peer_choked = false;
        pool.finish_connect(p, true);
    }
    let msgs = pool.run_choke_algo(40_000);
    assert_eq!(msgs.len(), 3);
    assert!(msgs.iter().all(|m| m.message_type == MessageType::Choke));
}

#[test]
fn choke_with_ten_interested_peers() {
    let t = Torrent::new([1; 20], vec![], 1, vec![], 0).unwrap();
    let mut pool = PeerPool::new(t, "out".to_string(), 0);
    for i in 0..10u32 {
        pool.finish_connect(peer_with_rate(i, 100 * (i as usize + 1), 35_000), true);
    }
    let (regular, pick) = pool.decide_unchoke(40_000);
    assert_eq!(regular.iter().filter(|x| **x).count(), 4);
    assert_eq!(regular, vec![false, false, false, false, false, false, true, true, true, true]);
    assert_eq!(pick, Some(5));
    let (regular, pick) = pool.decide_unchoke(45_000);
    assert_eq!(regular.iter().filter(|x| **x).count(), 4);
    assert_eq!(pick, None);
}

#[test]
fn keep_alive_eviction() {
    let t = Torrent::new([1; 20], vec![], 1, vec![], 0).unwrap();
    let mut pool = PeerPool::new(t, "out".to_string(), 0);
    let mut quiet = Peer::new(1, 1);
    quiet.mark_connected(1_000);
    let mut edge = Peer::new(2, 2);
    edge.last_message_at = Some(2_000);
    let mut fresh = Peer::new(3, 3);
    fresh.last_message_at = Some(100_000);
    pool.finish_connect(quiet, true);
    pool.finish_connect(edge, true);
    pool.finish_connect(fresh, true);
    pool.finish_connect(Peer::new(4, 4), true);
    let gone = pool.check_keep_alive(122_000);
    let gone_ids: Vec<u32> = gone.iter().map(|p| p.ip_address).collect();
    assert_eq!(gone_ids, vec![1, 2]);
    let kept: Vec<u32> = pool.active_peers.iter().map(|p| p.ip_address).collect();
    assert_eq!(kept, vec![3, 4]);
    assert!(pool.backlog_peers.is_empty());
}

#[test]
fn keep_alive_exactly_120_seconds() {
    let t = Torrent::new([1; 20], vec![], 1, vec![], 0).unwrap();
    let mut pool = PeerPool::new(t, "out".to_string(), 0);
    let mut p = Peer::new(1, 1);
    p.last_message_at = Some(0);
    pool.finish_connect(p, true);
    assert!(pool.check_keep_alive(119_999).is_empty());
    assert_eq!(pool.check_keep_alive(120_000).len(), 1);
}

#[test]
fn failed_connections_leave_backlog_at_five() {
    let t = Torrent::new([1; 20], vec![], 1, vec![[0; 20]], 1).unwrap();
    let mut pool = PeerPool::new(t, "out".to_string(), 0);
    pool.finish_connect(Peer::new(1, 1), false);
    for round in 1..5 {
        assert_eq!(pool.backlog_peers.len(), 1);
        assert_eq!(pool.backlog_peers[0].failed_connection_attempts, round);
        let mut again = pool.attempt_backlog_connections();
        assert_eq!(again.len(), 1);
        pool.finish_connect(again.pop().unwrap(), false);
    }
    assert!(pool.backlog_peers.is_empty());
}

#[test]
fn connections_capped() {
    let t = Torrent::new([1; 20], vec![], 1, vec![[0; 20]], 1).unwrap();
    let mut pool = PeerPool::new(t, "out".to_string(), 0);
    for i in 0..(MAX_CONNECTIONS as u32 + 3) {
        pool.finish_connect(Peer::new(i, 1), true);
    }
    assert_eq!(pool.active_peers.len(), MAX_CONNECTIONS);
    assert_eq!(pool.backlog_peers.len(), 3);
    assert!(pool.attempt_backlog_connections().is_empty());
    assert_eq!(pool.backlog_peers.len(), 3);
}

#[test]
fn backlog_cleared_when_complete() {
    let t = Torrent::new([1; 20], vec![], 1, vec![], 0).unwrap();
    let mut pool = PeerPool::new(t, "out".to_string(), 0);
    pool.finish_connect(Peer::new(1, 1), false);
    assert_eq!(pool.backlog_peers.len(), 1);
    assert!(pool.attempt_backlog_connections().is_empty());
    assert!(pool.backlog_peers.is_empty());
}

#[test]
fn upload_serves_owned_pieces() {
    let data = vec![7u8; 10];
    let t = Torrent::new([1; 20], vec![], 10, vec![sha1(&data), [0; 20]], 20).unwrap();
    let mut pool = PeerPool::new(t, "out".to_string(), 0);
    join(&mut pool, Peer::new(1, 1), vec![0x80], 1);
    let (_, mut assigns) = pool.plan_downloads();
    let asg = assigns.pop().unwrap();
    assert!(matches!(
        pool.finish_download(0, Some(data.clone()), asg.peer),
        PieceOutcome::Verified { .. }
    ));
    let mut leecher = Peer::new(2, 2);
    leecher.peer_choked = false;
    leecher.peer_interested = true;
    leecher.request_queue = vec![Block::new(0, 2, 5), Block::new(1, 0, 10), Block::new(0, 8, 5)];
    pool.finish_connect(leecher, true);
    let mut ups = pool.take_uploaders();
    assert_eq!(ups.len(), 1);
    let mut up = ups.pop().unwrap();
    let reads = pool.serve_requests(&mut up);
    assert_eq!(reads.len(), 3);
    assert_eq!(reads[0].block, Block::new(0, 2, 5));
    assert_eq!(reads[0].file_offset, 2);
    assert_eq!(reads[1].block, Block::new(1, 0, 10));
    assert_eq!(reads[1].file_offset, 10);
    assert_eq!(reads[2].file_offset, 8);
    assert!(up.request_queue.is_empty());
    up.record_upload(5, 3);
    pool.return_peer(up, true);
    assert!(pool.take_uploaders().is_empty());
}

#[test]
fn pieces_left_in_order() {
    let t = Torrent::new([1; 20], vec![], 1, vec![[0; 20]; 3], 3).unwrap();
    let mut pool = PeerPool::new(t, "out".to_string(), 0);
    assert_eq!(pool.get_pieces_left(), vec![0, 1, 2]);
    join(&mut pool, Peer::new(1, 1), vec![0x40], 1);
    let (_, assigns) = pool.plan_downloads();
    assert_eq!(assigns[0].piece, 1);
    assert_eq!(pool.get_pieces_left(), vec![0, 2]);
    assert_eq!(pool.count_pieces_left(), 2);
    assert!(matches!(pool.finish_download(1, None, Peer::new(9, 9)), PieceOutcome::Failed));
    assert_eq!(pool.get_pieces_left(), vec![0, 1, 2]);
}
