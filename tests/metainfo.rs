use dips::bencoding::{marshal, parse, Statement};
use dips::torrent::{get_file_len, Torrent};
use dips::util::{easy_err, ErrorKind};

fn sha1(b: &[u8]) -> [u8; 20] {
    sha1_smol::Sha1::from(b).digest().bytes()
}

#[test]
fn bencoding_parse_values() {
    let v = parse(&b"i-42e4:spaml1:ai7eed1:ai1e1:b0:e".to_vec()).unwrap();
    assert_eq!(v.len(), 4);
    assert!(matches!(v[0], Statement::Integer(-42)));
    match &v[1] {
        Statement::ByteString(s) => assert_eq!(s, b"spam"),
        _ => panic!("not a string"),
    }
    match &v[2] {
        Statement::List(l) => assert_eq!(l.len(), 2),
        _ => panic!("not a list"),
    }
    match &v[3] {
        Statement::Dictionary(d) => {
            assert_eq!(d.len(), 2);
            assert_eq!(d[0].0, b"a".to_vec());
        },
        _ => panic!("not a dictionary"),
    }
}

#[test]
fn bencoding_round_trip_canonical() {
    let src = b"d8:announce14:udp://x.org:804:infod6:lengthi20000e4:name3:abc12:piece lengthi16384eee".to_vec();
    let v = parse(&src).unwrap();
    assert_eq!(v.len(), 1);
    assert_eq!(marshal(&v[0]), src);
}

#[test]
fn bencoding_sorts_keys_and_keeps_last_duplicate() {
    let v = parse(&b"d1:bi2e1:ai1e1:bi3ee".to_vec()).unwrap();
    assert_eq!(marshal(&v[0]), b"d1:ai1e1:bi3ee".to_vec());
}

#[test]
fn bencoding_rejects_malformed() {
    assert_eq!(parse(&b"i12".to_vec()).unwrap_err().kind, ErrorKind::Format);
    assert!(parse(&b"l1:a".to_vec()).is_err());
    assert!(parse(&b"5:abc".to_vec()).is_err());
    assert!(parse(&b"di1e1:ae".to_vec()).is_err());
    assert!(parse(&b"x".to_vec()).is_err());
    assert!(parse(&b"i99999999999999999999e".to_vec()).is_err());
    assert!(parse(&b"ie".to_vec()).is_err());
}

#[test]
fn bencoding_integer_limits() {
    let v = parse(&b"i-9223372036854775808ei9223372036854775807e".to_vec()).unwrap();
    assert!(matches!(v[0], Statement::Integer(i64::MIN)));
    assert!(matches!(v[1], Statement::Integer(i64::MAX)));
    assert_eq!(marshal(&v[0]), b"i-9223372036854775808e".to_vec());
    assert!(parse(&b"i9223372036854775808e".to_vec()).is_err());
}

fn metainfo(info: &[u8]) -> Vec<u8> {
    let mut m = b"d8:announce20:udp://t.example:13374:info".to_vec();
    m.extend_from_slice(info);
    m.push(b'e');
    m
}

fn info_two_pieces() -> Vec<u8> {
    let mut info = b"d6:lengthi20000e4:name3:abc12:piece lengthi16384e6:pieces40:".to_vec();
    info.extend_from_slice(&[1u8; 20]);
    info.extend_from_slice(&[2u8; 20]);
    info.push(b'e');
    info
}

#[test]
fn torrent_parse_single_file() {
    let info = info_two_pieces();
    let t = Torrent::parse(metainfo(&info)).unwrap();
    assert_eq!(t.announce_urls, vec!["udp://t.example:1337".to_string()]);
    assert_eq!(t.piece_len, 16384);
    assert_eq!(t.total_size, 20000);
    assert_eq!(t.piece_hashes, vec![[1u8; 20], [2u8; 20]]);
    assert_eq!(t.info_hash, sha1(&info));
    assert_eq!(t.get_total_piece_count(), 2);
}

#[test]
fn info_hash_matches_reencoded_info() {
    let info = info_two_pieces();
    let v = parse(&info).unwrap();
    assert_eq!(sha1(&marshal(&v[0])), sha1(&info));
    let t = Torrent::parse(metainfo(&info)).unwrap();
    assert_eq!(t.info_hash, sha1(&marshal(&v[0])));
}

#[test]
fn torrent_parse_multi_file_and_announce_list() {
    let mut info = b"d5:filesld6:lengthi10eed6:lengthi6eee4:name1:x12:piece lengthi8e6:pieces40:".to_vec();
    info.extend_from_slice(&[5u8; 40]);
    info.push(b'e');
    let mut m = b"d13:announce-listll7:udp://a9:http://b1el7:udp://cee4:info".to_vec();
    m.extend_from_slice(&info);
    m.push(b'e');
    let t = Torrent::parse(m).unwrap();
    assert_eq!(t.total_size, 16);
    assert_eq!(t.announce_urls, vec!["udp://a".to_string(), "udp://c".to_string()]);
    assert_eq!(t.piece_hashes.len(), 2);
}

#[test]
fn torrent_parse_rejects_count_mismatch() {
    let mut info = b"d6:lengthi20000e4:name3:abc12:piece lengthi16384e6:pieces20:".to_vec();
    info.extend_from_slice(&[1u8; 20]);
    info.push(b'e');
    let e = Torrent::parse(metainfo(&info)).err().unwrap();
    assert_eq!(e.kind, ErrorKind::Format);
    assert!(Torrent::parse(b"le".to_vec()).is_err());
    assert!(Torrent::parse(b"".to_vec()).is_err());
    assert!(Torrent::parse(b"de".to_vec()).is_err());
    let mut odd = b"d6:lengthi1e12:piece lengthi1e6:pieces3:abce".to_vec();
    odd = metainfo(&odd);
    assert!(Torrent::parse(odd).is_err());
}

#[test]
fn torrent_new_checks_piece_count() {
    assert!(Torrent::new([0; 20], vec![], 16384, vec![[0; 20]], 16385).is_err());
    assert!(Torrent::new([0; 20], vec![], 0, vec![], 0).is_err());
    let t = Torrent::new([0; 20], vec![], 16384, vec![[0; 20], [0; 20]], 16385).unwrap();
    assert_eq!(t.get_total_piece_count(), 2);
}

#[test]
fn final_piece_length() {
    let t = Torrent::new([0; 20], vec![], 16384, vec![[0; 20], [0; 20]], 20000).unwrap();
    assert_eq!(t.get_piece_len(0), 16384);
    assert_eq!(t.get_piece_len(1), 3616);
    let even = Torrent::new([0; 20], vec![], 16384, vec![[0; 20], [0; 20]], 32768).unwrap();
    assert_eq!(even.get_piece_len(1), 16384);
    let three = Torrent::new([0; 20], vec![], 10, vec![[0; 20]; 3], 21).unwrap();
    assert_eq!(three.get_piece_len(2), 1);
    assert_eq!(three.get_piece_len(1), 10);
}

#[test]
fn info_hash_str_percent_encodes() {
    let mut h = [0u8; 20];
    h[0] = b'a';
    h[1] = b'Z';
    h[2] = b'9';
    h[3] = 0x2f;
    h[4] = 0xff;
    let t = Torrent::new(h, vec![], 1, vec![], 0).unwrap();
    let s = t.get_info_hash_str();
    assert!(s.starts_with("aZ9%2F%FF%00"));
    assert_eq!(s.len(), 3 + 2 * 3 + 15 * 3);
}

#[test]
fn file_len_of_entries() {
    let v = parse(&b"d6:lengthi12eed6:lengthi-1eei5e".to_vec()).unwrap();
    assert_eq!(get_file_len(&v[0]), Some(12));
    assert_eq!(get_file_len(&v[1]), None);
    assert_eq!(get_file_len(&v[2]), None);
}

#[test]
fn easy_err_is_format() {
    let e = easy_err("bad");
    assert_eq!(e.kind, ErrorKind::Format);
    assert_eq!(e.message, "bad");
}

#[test]
fn non_udp_announce_is_skipped() {
    let mut m = b"d8:announce20:http://t.example/ann4:info".to_vec();
    m.extend_from_slice(&info_two_pieces());
    m.push(b'e');
    let t = Torrent::parse(m).unwrap();
    assert!(t.announce_urls.is_empty());
}
