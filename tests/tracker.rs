use dips::udp::{attempt_with_backoff, backoff, PeerEndpoint, RetryAction, Tracker};
use dips::util::ErrorKind;

#[test]
fn connect_packet_bytes() {
    let t = Tracker::new();
    let p = t.create_connect_packet(0x01020304);
    assert_eq!(p, vec![0, 0, 4, 0x17, 0x27, 0x10, 0x19, 0x80, 0, 0, 0, 0, 1, 2, 3, 4]);
}

#[test]
fn connect_reply_sets_connection_id() {
    let mut t = Tracker::new();
    let mut reply = vec![0, 0, 0, 0, 0, 0, 0, 9];
    reply.extend_from_slice(&[0, 0, 0, 0, 0, 0, 1, 2]);
    assert_eq!(t.initiate(&reply, 9).unwrap(), 0x102);
    assert_eq!(t.connection_id, Some(0x102));
    let e = Tracker::new().initiate(&reply, 8).unwrap_err();
    assert_eq!(e.kind, ErrorKind::Transport);
    assert!(Tracker::new().initiate(&reply[..15], 9).is_err());
}

#[test]
fn announce_packet_layout() {
    let mut t = Tracker::new();
    t.connection_id = Some(7);
    t.left = 20000;
    let p = t.create_announce_packet(5, &[1; 20], &[2; 20], 2);
    assert_eq!(p.len(), 98);
    assert_eq!(&p[0..8], &[0, 0, 0, 0, 0, 0, 0, 7]);
    assert_eq!(&p[8..12], &[0, 0, 0, 1]);
    assert_eq!(&p[12..16], &[0, 0, 0, 5]);
    assert_eq!(&p[16..36], &[1; 20]);
    assert_eq!(&p[36..56], &[2; 20]);
    assert_eq!(&p[64..72], &20000u64.to_be_bytes());
    assert_eq!(&p[80..84], &[0, 0, 0, 2]);
    assert_eq!(&p[92..96], &[0xff; 4]);
    assert_eq!(&p[96..98], &6881u16.to_be_bytes());
}

#[test]
fn announce_reply_peers() {
    let t = Tracker::new();
    let mut reply = vec![0, 0, 0, 1, 0, 0, 0, 5, 0, 0, 7, 8, 0, 0, 0, 2, 0, 0, 0, 3];
    reply.extend_from_slice(&[10, 0, 0, 1, 0x1a, 0xe1, 10, 0, 0, 2, 0, 80, 9]);
    let a = t.announce(&reply, 5).unwrap();
    assert_eq!(a.interval, 0x708);
    assert_eq!(a.leechers, 2);
    assert_eq!(a.seeders, 3);
    assert_eq!(
        a.peers,
        vec![
            PeerEndpoint { ip_address: 0x0a000001, port: 6881 },
            PeerEndpoint { ip_address: 0x0a000002, port: 80 }
        ]
    );
    assert!(t.announce(&reply, 6).is_err());
    let mut other = reply.clone();
    other[3] = 2;
    assert_eq!(t.announce(&other, 5).unwrap().peers.len(), 2);
    let mut err = reply.clone();
    err[3] = 3;
    assert_eq!(t.announce(&err, 5).unwrap_err().kind, ErrorKind::Transport);
    assert!(t.announce(&reply[..19], 5).is_err());
}

#[test]
fn tracker_timeout_then_success() {
    assert_eq!(backoff(0), 15);
    assert_eq!(backoff(1), 30);
    assert_eq!(backoff(2), 60);
    assert_eq!(attempt_with_backoff(0, false), RetryAction::WaitThenRetry(15));
    assert_eq!(attempt_with_backoff(1, false), RetryAction::WaitThenRetry(30));
    assert_eq!(attempt_with_backoff(2, true), RetryAction::Finish);
    assert_eq!(attempt_with_backoff(2, false), RetryAction::WaitThenGiveUp(60));
}
