//! The UDP tracker exchange: connect and announce packets, their replies,
//! and the retry schedule.

use vstd::prelude::*;

use crate::endian::{
    be16_value, be32_bytes, be32_value, be64_bytes, be64_value, push_u16, push_u32, push_u64,
    read_u16, read_u32, read_u64,
};
use crate::util::{error_of, Error, ErrorKind};
use vstd::arithmetic::power2::{lemma2_to64, lemma_pow2_strictly_increases, lemma_pow2_unfold, pow2};

verus! {

/// The magic number that opens a connect request.
pub const PROTOCOL_ID: u64 = 0x41727101980;

/// The port we announce.
pub const ANNOUNCE_PORT: u16 = 6881;

/// How many times an exchange with the tracker is tried.
pub const MAX_TRACKER_ATTEMPTS: u32 = 3;

/// The announce-reply action that carries an error message.
pub const ACTION_ERROR: u32 = 3;

/// What we tell the tracker of our transfer.
pub struct Tracker {
    pub connection_id: Option<u64>,
    pub downloaded: u64,
    pub left: u64,
    pub uploaded: u64,
}

/// A peer endpoint from an announce reply.
#[derive(Clone, Copy, Debug, PartialEq, Eq, Structural)]
pub struct PeerEndpoint {
    pub ip_address: u32,
    pub port: u16,
}

/// An announce reply.
#[derive(Debug)]
pub struct AnnounceResponse {
    pub interval: u32,
    pub leechers: u32,
    pub seeders: u32,
    pub peers: Vec<PeerEndpoint>,
}

/// The 16 bytes of a connect request: magic, action 0, transaction id.
pub open spec fn connect_packet(tx_id: u32) -> Seq<u8> {
    be64_bytes(PROTOCOL_ID) + be32_bytes(0) + be32_bytes(tx_id)
}

/// The 98 bytes of an announce request.
pub open spec fn announce_packet(
    connection_id: u64,
    tx_id: u32,
    info_hash: Seq<u8>,
    peer_id: Seq<u8>,
    downloaded: u64,
    left: u64,
    uploaded: u64,
    event: u32,
) -> Seq<u8> {
    be64_bytes(connection_id) + be32_bytes(1) + be32_bytes(tx_id) + info_hash + peer_id + be64_bytes(
        downloaded,
    ) + be64_bytes(left) + be64_bytes(uploaded) + be32_bytes(event) + be32_bytes(0) + be32_bytes(0)
        + be32_bytes(0xffff_ffff) + crate::endian::be16_bytes(ANNOUNCE_PORT)
}

/// The peers of an announce reply: 6-byte entries from byte 20, each an
/// address and a port; a trailing partial entry is ignored.
pub open spec fn reply_peers(buf: Seq<u8>) -> Seq<PeerEndpoint> {
    Seq::new(
        ((buf.len() - 20) / 6) as nat,
        |k: int|
            PeerEndpoint {
                ip_address: be32_value(buf, 20 + 6 * k),
                port: be16_value(buf, 24 + 6 * k),
            },
    )
}

impl Tracker {
    /// A tracker exchange not yet connected, with nothing transferred.
    pub fn new() -> (r: Tracker)
        ensures
            r.connection_id is None,
            r.downloaded == 0 && r.left == 0 && r.uploaded == 0,
    {
        Tracker { connection_id: None, downloaded: 0, left: 0, uploaded: 0 }
    }

    /// The connect request with transaction id `tx_id`.
    pub fn create_connect_packet(&self, tx_id: u32) -> (r: Vec<u8>)
        ensures
            r@ == connect_packet(tx_id),
    {
        let mut buf: Vec<u8> = Vec::new();
        push_u64(&mut buf, PROTOCOL_ID);
        push_u32(&mut buf, 0);
        push_u32(&mut buf, tx_id);
        assert(buf@ =~= connect_packet(tx_id));
        buf
    }

    /// Takes the reply to a connect request with transaction id `tx_id`:
    /// at least 16 bytes, action 0, our transaction id; records the
    /// connection id it carries.
    pub fn initiate(&mut self, reply: &[u8], tx_id: u32) -> (r: Result<u64, Error>)
        ensures
            r is Ok <==> reply@.len() >= 16 && be32_value(reply@, 0) == 0 && be32_value(reply@, 4)
                == tx_id,
            r matches Ok(c) ==> c == be64_value(reply@, 8) && final(self).connection_id == Some(c),
            r is Err ==> r->Err_0.kind == ErrorKind::Transport && final(self).connection_id
                == old(self).connection_id,
            final(self).downloaded == old(self).downloaded,
            final(self).left == old(self).left,
            final(self).uploaded == old(self).uploaded,
    {
        if reply.len() < 16 {
            return Err(error_of(ErrorKind::Transport, "connect reply too short"));
        }
        if read_u32(reply, 0) != 0 {
            return Err(error_of(ErrorKind::Transport, "connect reply has another action"));
        }
        if read_u32(reply, 4) != tx_id {
            return Err(error_of(ErrorKind::Transport, "got unexpected tx id"));
        }
        let c = read_u64(reply, 8);
        self.connection_id = Some(c);
        Ok(c)
    }

    /// The announce request with transaction id `tx_id`, for our info hash
    /// and peer id, reporting the transfer so far and `event`.
    pub fn create_announce_packet(
        &self,
        tx_id: u32,
        info_hash: &[u8; 20],
        peer_id: &[u8; 20],
        event: u32,
    ) -> (r: Vec<u8>)
        ensures
            r@ == announce_packet(
                match self.connection_id {
                    Some(c) => c,
                    None => 0,
                },
                tx_id,
                info_hash@,
                peer_id@,
                self.downloaded,
                self.left,
                self.uploaded,
                event,
            ),
            r@.len() == 98,
    {
        let conn = match self.connection_id {
            Some(c) => c,
            None => 0,
        };
        let mut buf: Vec<u8> = Vec::new();
        push_u64(&mut buf, conn);
        push_u32(&mut buf, 1);
        push_u32(&mut buf, tx_id);
        let ghost head = buf@;
        let mut k: usize = 0;
        while k < 20
            invariant
                k <= 20,
                buf@ == head + info_hash@.subrange(0, k as int),
            decreases 20 - k,
        {
            buf.push(info_hash[k]);
            k += 1;
            assert(buf@ =~= head + info_hash@.subrange(0, k as int));
        }
        assert(info_hash@.subrange(0, 20) =~= info_hash@);
        let ghost head2 = buf@;
        let mut k: usize = 0;
        while k < 20
            invariant
                k <= 20,
                buf@ == head2 + peer_id@.subrange(0, k as int),
            decreases 20 - k,
        {
            buf.push(peer_id[k]);
            k += 1;
            assert(buf@ =~= head2 + peer_id@.subrange(0, k as int));
        }
        assert(peer_id@.subrange(0, 20) =~= peer_id@);
        push_u64(&mut buf, self.downloaded);
        push_u64(&mut buf, self.left);
        push_u64(&mut buf, self.uploaded);
        push_u32(&mut buf, event);
        push_u32(&mut buf, 0);
        push_u32(&mut buf, 0);
        push_u32(&mut buf, 0xffff_ffff);
        push_u16(&mut buf, ANNOUNCE_PORT);
        assert(buf@ =~= announce_packet(
            conn,
            tx_id,
            info_hash@,
            peer_id@,
            self.downloaded,
            self.left,
            self.uploaded,
            event,
        ));
        buf
    }

    /// Reads the reply to an announce request with transaction id `tx_id`:
    /// at least 20 bytes, not an error (action 3; any other action is
    /// accepted), our transaction id; then the interval, leecher and seeder
    /// counts, and the peers.
    pub fn announce(&self, reply: &[u8], tx_id: u32) -> (r: Result<AnnounceResponse, Error>)
        ensures
            r is Ok <==> reply@.len() >= 20 && be32_value(reply@, 0) != ACTION_ERROR && be32_value(reply@, 4)
                == tx_id,
            r matches Ok(a) ==> a.interval == be32_value(reply@, 8) && a.leechers == be32_value(
                reply@,
                12,
            ) && a.seeders == be32_value(reply@, 16) && a.peers@ == reply_peers(reply@),
            r is Err ==> r->Err_0.kind == ErrorKind::Transport,
    {
        let n = reply.len();
        if n < 20 {
            return Err(error_of(ErrorKind::Transport, "announce reply too short"));
        }
        let action = read_u32(reply, 0);
        if action == ACTION_ERROR {
            return Err(error_of(ErrorKind::Transport, "tracker replied with an error"));
        }
        if read_u32(reply, 4) != tx_id {
            return Err(error_of(ErrorKind::Transport, "got unexpected tx id"));
        }
        let count = (n - 20) / 6;
        let mut peers: Vec<PeerEndpoint> = Vec::new();
        let mut k: usize = 0;
        while k < count
            invariant
                n == reply@.len(),
                n >= 20,
                count == (n - 20) / 6,
                k <= count,
                peers@ == reply_peers(reply@).subrange(0, k as int),
            decreases count - k,
        {
            let at = 20 + 6 * k;
            peers.push(
                PeerEndpoint { ip_address: read_u32(reply, at), port: read_u16(reply, at + 4) },
            );
            k += 1;
            assert(peers@ =~= reply_peers(reply@).subrange(0, k as int));
        }
        assert(reply_peers(reply@).subrange(0, count as int) =~= reply_peers(reply@));
        Ok(
            AnnounceResponse {
                interval: read_u32(reply, 8),
                leechers: read_u32(reply, 12),
                seeders: read_u32(reply, 16),
                peers,
            },
        )
    }
}

/// The wait before retrying after failed attempt `tries`: 15 seconds,
/// doubling each time.
pub fn backoff(tries: u32) -> (r: u64)
    requires
        15 * pow2(tries as nat) <= u64::MAX,
    ensures
        r == 15 * pow2(tries as nat),
{
    proof {
        lemma2_to64();
    }
    let mut r: u64 = 15;
    let mut i: u32 = 0;
    while i < tries
        invariant
            i <= tries,
            r == 15 * pow2(i as nat),
            15 * pow2(tries as nat) <= u64::MAX,
        decreases tries - i,
    {
        proof {
            lemma_pow2_unfold((i + 1) as nat);
            if i + 1 < tries {
                lemma_pow2_strictly_increases((i + 1) as nat, tries as nat);
            }
        }
        r = r * 2;
        i += 1;
    }
    r
}

/// What to do after an attempt at the tracker.
#[derive(Clone, Copy, Debug, PartialEq, Eq, Structural)]
pub enum RetryAction {
    /// The attempt succeeded.
    Finish,
    /// Wait this many seconds, then try again.
    WaitThenRetry(u64),
    /// Wait this many seconds, then give up.
    WaitThenGiveUp(u64),
}

/// The retry schedule after attempt `attempt` (from 0): done on success;
/// on failure a wait of `backoff(attempt)`, then another attempt while
/// fewer than three were made.
pub fn attempt_with_backoff(attempt: u32, ok: bool) -> (r: RetryAction)
    requires
        attempt < MAX_TRACKER_ATTEMPTS,
    ensures
        ok ==> r == RetryAction::Finish,
        !ok && attempt + 1 < MAX_TRACKER_ATTEMPTS ==> r == RetryAction::WaitThenRetry(
            (15 * pow2(attempt as nat)) as u64,
        ),
        !ok && attempt + 1 == MAX_TRACKER_ATTEMPTS ==> r == RetryAction::WaitThenGiveUp(
            (15 * pow2(attempt as nat)) as u64,
        ),
{
    if ok {
        return RetryAction::Finish;
    }
    proof {
        lemma2_to64();
    }
    let wait = backoff(attempt);
    if attempt + 1 < MAX_TRACKER_ATTEMPTS {
        RetryAction::WaitThenRetry(wait)
    } else {
        RetryAction::WaitThenGiveUp(wait)
    }
}

} // verus!
