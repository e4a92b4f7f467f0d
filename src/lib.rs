//! A BitTorrent client core: the peer wire codec, bencoding, torrent
//! descriptors, the state of a peer session, the peer pool's scheduling
//! decisions and the UDP tracker exchange, each with its contract proved by
//! Verus. Sockets, threads and files are left to the caller.

pub mod bencoding;
pub mod digest;
pub mod endian;
pub mod peer;
pub mod peer_pool;
pub mod torrent;
pub mod udp;
pub mod util;
