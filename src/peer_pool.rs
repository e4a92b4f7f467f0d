//! The peer pool's decisions: connection intake, the message pump's
//! bookkeeping, choking, piece assignment, verification, upload planning
//! and keep-alive eviction. The caller runs the sockets, files and worker
//! threads, and hands results back.

use vstd::assert_by_contradiction;
use vstd::prelude::*;

use crate::digest::{sha1_digest, sha1_of};
use crate::endian::{be32_bytes, push_u32};
use crate::peer::{uploaded_within, MessageType, Peer};
use crate::torrent::{ceil_div, lemma_piece_within, Block, DownloadBlock, Torrent, DEFAULT_BLOCK_LENGTH};

verus! {

/// At most this many peers are connected or downloading at once.
pub const MAX_CONNECTIONS: usize = 64;

/// A peer that failed this many connection attempts is dropped.
pub const MAX_FAILED_CONNECTION_ATTEMPTS: u32 = 5;

/// A peer silent this long (milliseconds) is evicted.
pub const KEEP_ALIVE_MAX_DURATION: u64 = 120_000;

/// How often (milliseconds) choking is decided.
pub const DECIDE_CHOKE_INTERVAL: u64 = 10_000;

/// The window (milliseconds) of the upload rate, and the period of the
/// optimistic unchoke.
pub const CHOKE_RATE_INTERVAL: u64 = 30_000;

/// How many peers are unchoked for their upload rate.
pub const REGULAR_UNCHOKES: usize = 4;

/// A message the caller is to send to the peer at an endpoint; `piece_index`
/// is the payload of a Have and is otherwise unused.
#[derive(Clone, Copy, Debug, PartialEq, Eq, Structural)]
pub struct PeerMessage {
    pub ip_address: u32,
    pub port: u16,
    pub message_type: MessageType,
    pub piece_index: u32,
}

/// The message `t` for peer `p`.
pub open spec fn message_for(p: Peer, t: MessageType, piece: u32) -> PeerMessage {
    PeerMessage { ip_address: p.ip_address, port: p.port, message_type: t, piece_index: piece }
}

/// Whether a peer may stay in the backlog.
pub open spec fn may_retry(p: Peer) -> bool {
    p.failed_connection_attempts < MAX_FAILED_CONNECTION_ATTEMPTS
}

/// Whether a peer has spoken within the keep-alive window before `now`.
pub open spec fn is_alive(p: Peer, now: u64) -> bool {
    p.last_message_at is None || now - p.last_message_at->Some_0 < KEEP_ALIVE_MAX_DURATION
}

/// The peers of `s` that satisfy `f`, in order.
pub open spec fn keep_peers(s: Seq<Peer>, f: spec_fn(Peer) -> bool) -> Seq<Peer>
    decreases s.len(),
{
    if s.len() == 0 {
        seq![]
    } else if f(s.last()) {
        keep_peers(s.drop_last(), f).push(s.last())
    } else {
        keep_peers(s.drop_last(), f)
    }
}

/// The piece indices below `n` neither owned nor in progress, ascending.
pub open spec fn pieces_left_below(have: Seq<bool>, busy: Seq<bool>, n: int) -> Seq<u32>
    decreases n,
{
    if n <= 0 {
        seq![]
    } else if !have[n - 1] && !busy[n - 1] {
        pieces_left_below(have, busy, n - 1).push((n - 1) as u32)
    } else {
        pieces_left_below(have, busy, n - 1)
    }
}

/// The scheduler over all peers of one torrent.
pub struct PeerPool {
    pub torrent: Torrent,
    /// `have_pieces[i]`: piece `i` is verified and handed out for writing.
    pub have_pieces: Vec<bool>,
    /// `pieces_in_progress[i]`: piece `i` is assigned to a download worker.
    pub pieces_in_progress: Vec<bool>,
    pub download_file_name: String,
    pub active_peers: Vec<Peer>,
    /// The piece of each download worker that is out.
    pub downloading: Vec<u32>,
    /// Disconnected peers awaiting a retry.
    pub backlog_peers: Vec<Peer>,
    /// When choking was last decided (milliseconds).
    pub last_choke_update: u64,
    /// When the last optimistic unchoke was made (milliseconds).
    pub last_optimistic_unchoke: u64,
    /// The verified bytes of each owned piece, as handed out for writing.
    pub stored: Ghost<Map<int, Seq<u8>>>,
}

impl PeerPool {
    /// The pool's invariant.
    pub open spec fn wf(&self) -> bool {
        let n = self.torrent.piece_count() as int;
        let have = self.have_pieces@;
        let busy = self.pieces_in_progress@;
        &&& self.torrent.wf()
        &&& have.len() == n
        &&& busy.len() == n
        &&& forall|i: int| 0 <= i < n ==> !(#[trigger] have[i] && busy[i])
        &&& self.active_peers@.len() + self.downloading@.len() <= MAX_CONNECTIONS
        &&& forall|k: int|
            0 <= k < self.backlog_peers@.len() ==> may_retry(#[trigger] self.backlog_peers@[k])
        &&& self.downloading@.no_duplicates()
        &&& forall|k: int|
            0 <= k < self.downloading@.len() ==> #[trigger] self.downloading@[k] < n
                && busy[self.downloading@[k] as int]
        &&& forall|i: int| 0 <= i < n && #[trigger] busy[i] ==> self.downloading@.contains(i as u32)
        &&& forall|i: int|
            0 <= i < n && #[trigger] have[i] ==> {
                &&& self.stored@.contains_key(i)
                &&& sha1_of(self.stored@[i]) == self.torrent.piece_hashes@[i]@
                &&& self.stored@[i].len() == self.torrent.piece_len_of(i)
            }
    }

    /// The pieces neither owned nor in progress, ascending.
    pub open spec fn spec_pieces_left(&self) -> Seq<u32> {
        pieces_left_below(
            self.have_pieces@,
            self.pieces_in_progress@,
            self.torrent.piece_count() as int,
        )
    }

    /// A pool over `torrent` that writes to `download_file_name`, with no
    /// peers and no pieces, at time `now`.
    pub fn new(torrent: Torrent, download_file_name: String, now: u64) -> (r: PeerPool)
        requires
            torrent.wf(),
        ensures
            r.wf(),
            r.torrent == torrent,
            r.download_file_name == download_file_name,
            forall|i: int| 0 <= i < r.have_pieces@.len() ==> !r.have_pieces@[i],
            forall|i: int| 0 <= i < r.pieces_in_progress@.len() ==> !r.pieces_in_progress@[i],
            r.active_peers@.len() == 0,
            r.backlog_peers@.len() == 0,
            r.downloading@.len() == 0,
            r.last_choke_update == now,
            r.last_optimistic_unchoke == now,
    {
        let n = torrent.get_total_piece_count();
        let mut have: Vec<bool> = Vec::new();
        let mut busy: Vec<bool> = Vec::new();
        let mut i: u32 = 0;
        while i < n
            invariant
                i <= n,
                have@.len() == i,
                busy@.len() == i,
                forall|j: int| 0 <= j < i ==> !have@[j] && !busy@[j],
            decreases n - i,
        {
            have.push(false);
            busy.push(false);
            i += 1;
        }
        PeerPool {
            torrent,
            have_pieces: have,
            pieces_in_progress: busy,
            download_file_name,
            active_peers: Vec::new(),
            downloading: Vec::new(),
            backlog_peers: Vec::new(),
            last_choke_update: now,
            last_optimistic_unchoke: now,
            stored: Ghost(Map::empty()),
        }
    }

    /// Returns a peer to the backlog, unless it failed too many times, in
    /// which case it is dropped.
    fn demote(&mut self, peer: Peer)
        requires
            old(self).wf(),
        ensures
            final(self).wf(),
            final(self).backlog_peers@ == if may_retry(peer) {
                old(self).backlog_peers@.push(peer)
            } else {
                old(self).backlog_peers@
            },
            final(self).active_peers@ == old(self).active_peers@,
            final(self).downloading@ == old(self).downloading@,
            final(self).have_pieces@ == old(self).have_pieces@,
            final(self).pieces_in_progress@ == old(self).pieces_in_progress@,
            final(self).torrent == old(self).torrent,
            final(self).stored == old(self).stored,
            final(self).last_choke_update == old(self).last_choke_update,
            final(self).last_optimistic_unchoke == old(self).last_optimistic_unchoke,
    {
        if peer.failed_connection_attempts < MAX_FAILED_CONNECTION_ATTEMPTS {
            self.backlog_peers.push(peer);
        }
    }

    /// Takes back a peer from a connect and handshake attempt. On success
    /// it joins the active peers while there is room (its failure count
    /// reset), else it waits in the backlog; on failure its count goes up
    /// and it returns to the backlog, or is dropped at the fifth failure.
    pub fn finish_connect(&mut self, peer: Peer, ok: bool)
        requires
            old(self).wf(),
        ensures
            final(self).wf(),
            ({
                let room = old(self).active_peers@.len() + old(self).downloading@.len() < MAX_CONNECTIONS;
                let failed = if ok {
                    peer.failed_connection_attempts
                } else if peer.failed_connection_attempts == u32::MAX {
                    u32::MAX
                } else {
                    (peer.failed_connection_attempts + 1) as u32
                };
                let p = Peer { failed_connection_attempts: if ok && room { 0 } else { failed }, ..peer };
                &&& ok && room ==> final(self).active_peers@ == old(self).active_peers@.push(p)
                    && final(self).backlog_peers@ == old(self).backlog_peers@
                &&& !(ok && room) ==> final(self).active_peers@ == old(self).active_peers@
                    && final(self).backlog_peers@ == if may_retry(p) {
                        old(self).backlog_peers@.push(p)
                    } else {
                        old(self).backlog_peers@
                    }
            }),
            final(self).downloading@ == old(self).downloading@,
            final(self).have_pieces@ == old(self).have_pieces@,
            final(self).pieces_in_progress@ == old(self).pieces_in_progress@,
            final(self).torrent == old(self).torrent,
    {
        let mut peer = peer;
        let room = self.active_peers.len() + self.downloading.len() < MAX_CONNECTIONS;
        if ok && room {
            peer.failed_connection_attempts = 0;
            self.active_peers.push(peer);
        } else {
            if !ok && peer.failed_connection_attempts < u32::MAX {
                peer.failed_connection_attempts = peer.failed_connection_attempts + 1;
            }
            self.demote(peer);
        }
    }

    /// Takes back a peer from the message pump or an upload: it stays
    /// active when it did not fail and there is room, else it returns to
    /// the backlog (if it may still be retried).
    pub fn return_peer(&mut self, peer: Peer, ok: bool)
        requires
            old(self).wf(),
        ensures
            final(self).wf(),
            ({
                let room = old(self).active_peers@.len() + old(self).downloading@.len() < MAX_CONNECTIONS;
                &&& ok && room ==> final(self).active_peers@ == old(self).active_peers@.push(peer)
                    && final(self).backlog_peers@ == old(self).backlog_peers@
                &&& !(ok && room) ==> final(self).active_peers@ == old(self).active_peers@
                    && final(self).backlog_peers@ == if may_retry(peer) {
                        old(self).backlog_peers@.push(peer)
                    } else {
                        old(self).backlog_peers@
                    }
            }),
            final(self).downloading@ == old(self).downloading@,
            final(self).have_pieces@ == old(self).have_pieces@,
            final(self).pieces_in_progress@ == old(self).pieces_in_progress@,
            final(self).torrent == old(self).torrent,
    {
        if ok && self.active_peers.len() + self.downloading.len() < MAX_CONNECTIONS {
            self.active_peers.push(peer);
        } else {
            self.demote(peer);
        }
    }

    /// Hands all active peers to the caller, for the message pump; each
    /// comes back through `return_peer`.
    pub fn take_active_peers(&mut self) -> (r: Vec<Peer>)
        requires
            old(self).wf(),
        ensures
            final(self).wf(),
            r@ == old(self).active_peers@,
            final(self).active_peers@.len() == 0,
            final(self).backlog_peers@ == old(self).backlog_peers@,
            final(self).downloading@ == old(self).downloading@,
            final(self).have_pieces@ == old(self).have_pieces@,
            final(self).pieces_in_progress@ == old(self).pieces_in_progress@,
            final(self).torrent == old(self).torrent,
    {
        let mut r: Vec<Peer> = Vec::new();
        std::mem::swap(&mut r, &mut self.active_peers);
        r
    }

    /// While pieces are missing, hands out the first backlog peers for a
    /// new connect attempt, as many as there is room for among the
    /// connections; once none is missing, clears the backlog.
    pub fn attempt_backlog_connections(&mut self) -> (r: Vec<Peer>)
        requires
            old(self).wf(),
        ensures
            final(self).wf(),
            ({
                let room = MAX_CONNECTIONS - (old(self).active_peers@.len() + old(self).downloading@.len());
                let blen = old(self).backlog_peers@.len() as int;
                let k = if blen < room { blen } else { room };
                &&& old(self).spec_pieces_left().len() == 0 ==> r@.len() == 0
                    && final(self).backlog_peers@.len() == 0
                &&& old(self).spec_pieces_left().len() > 0 ==> r@ == old(self).backlog_peers@.subrange(0, k)
                    && final(self).backlog_peers@ == old(self).backlog_peers@.subrange(k, blen)
            }),
            final(self).active_peers@ == old(self).active_peers@,
            final(self).downloading@ == old(self).downloading@,
            final(self).have_pieces@ == old(self).have_pieces@,
            final(self).pieces_in_progress@ == old(self).pieces_in_progress@,
            final(self).torrent == old(self).torrent,
    {
        if self.count_pieces_left() == 0 {
            self.backlog_peers.clear();
            return Vec::new();
        }
        let room = MAX_CONNECTIONS - (self.active_peers.len() + self.downloading.len());
        let k = if self.backlog_peers.len() < room {
            self.backlog_peers.len()
        } else {
            room
        };
        let ghost start = self.backlog_peers@;
        let mut r: Vec<Peer> = Vec::new();
        let mut i: usize = 0;
        while i < k
            invariant
                old(self).wf(),
                k <= start.len(),
                i <= k,
                r@ == start.subrange(0, i as int),
                self.backlog_peers@ == start.subrange(i as int, start.len() as int),
                start == old(self).backlog_peers@,
                self.active_peers@ == old(self).active_peers@,
                self.downloading@ == old(self).downloading@,
                self.have_pieces@ == old(self).have_pieces@,
                self.pieces_in_progress@ == old(self).pieces_in_progress@,
                self.torrent == old(self).torrent,
                self.stored == old(self).stored,
            decreases k - i,
        {
            let p = self.backlog_peers.remove(0);
            r.push(p);
            i += 1;
            assert(r@ =~= start.subrange(0, i as int));
            assert(self.backlog_peers@ =~= start.subrange(i as int, start.len() as int));
        }
        r
    }

    /// Drops the active peers silent for the keep-alive window or longer
    /// at `now`, and gives them back so that their connections can be
    /// closed.
    pub fn check_keep_alive(&mut self, now: u64) -> (r: Vec<Peer>)
        requires
            old(self).wf(),
        ensures
            final(self).wf(),
            final(self).active_peers@ == keep_peers(old(self).active_peers@, |p: Peer| is_alive(p, now)),
            r@ == keep_peers(old(self).active_peers@, |p: Peer| !is_alive(p, now)),
            final(self).backlog_peers@ == old(self).backlog_peers@,
            final(self).downloading@ == old(self).downloading@,
            final(self).have_pieces@ == old(self).have_pieces@,
            final(self).pieces_in_progress@ == old(self).pieces_in_progress@,
            final(self).torrent == old(self).torrent,
    {
        let mut all: Vec<Peer> = Vec::new();
        std::mem::swap(&mut all, &mut self.active_peers);
        let ghost start = all@;
        let mut evicted: Vec<Peer> = Vec::new();
        let mut i: usize = 0;
        while all.len() > 0
            invariant
                old(self).wf(),
                start == old(self).active_peers@,
                i <= start.len(),
                all@ == start.subrange(i as int, start.len() as int),
                self.active_peers@ == keep_peers(start.subrange(0, i as int), |p: Peer| is_alive(p, now)),
                evicted@ == keep_peers(start.subrange(0, i as int), |p: Peer| !is_alive(p, now)),
                self.active_peers@.len() <= i,
                self.backlog_peers@ == old(self).backlog_peers@,
                self.downloading@ == old(self).downloading@,
                self.have_pieces@ == old(self).have_pieces@,
                self.pieces_in_progress@ == old(self).pieces_in_progress@,
                self.torrent == old(self).torrent,
                self.stored == old(self).stored,
            decreases all@.len(),
        {
            let p = all.remove(0);
            let ghost pre = start.subrange(0, i as int);
            let ghost post = start.subrange(0, i + 1);
            assert(post.drop_last() =~= pre);
            assert(post.last() == p);
            let alive = match p.last_message_at {
                None => true,
                Some(t) => now < t || now - t < KEEP_ALIVE_MAX_DURATION,
            };
            if alive {
                self.active_peers.push(p);
            } else {
                evicted.push(p);
            }
            i += 1;
            assert(all@ =~= start.subrange(i as int, start.len() as int));
        }
        assert(start.subrange(0, start.len() as int) =~= start);
        evicted
    }

    /// The number of pieces neither owned nor in progress.
    pub fn count_pieces_left(&self) -> (r: u32)
        requires
            self.wf(),
        ensures
            r == self.spec_pieces_left().len(),
    {
        let v = self.get_pieces_left();
        v.len() as u32
    }

    /// The pieces neither owned nor in progress, ascending.
    pub fn get_pieces_left(&self) -> (r: Vec<u32>)
        requires
            self.wf(),
        ensures
            r@ == self.spec_pieces_left(),
            r@.len() <= self.torrent.piece_count(),
    {
        let n = self.torrent.get_total_piece_count();
        let mut r: Vec<u32> = Vec::new();
        let mut i: u32 = 0;
        while i < n
            invariant
                self.wf(),
                n == self.torrent.piece_count(),
                i <= n,
                r@ == pieces_left_below(self.have_pieces@, self.pieces_in_progress@, i as int),
                r@.len() <= i,
            decreases n - i,
        {
            if !self.have_pieces[i as usize] && !self.pieces_in_progress[i as usize] {
                r.push(i);
            }
            i += 1;
        }
        r
    }

    /// Whether choking is due at `now`: the interval has passed since the
    /// last decision.
    pub fn choke_due(&self, now: u64) -> (r: bool)
        ensures
            r == (now >= self.last_choke_update && now - self.last_choke_update
                >= DECIDE_CHOKE_INTERVAL),
    {
        now >= self.last_choke_update && now - self.last_choke_update >= DECIDE_CHOKE_INTERVAL
    }

    /// Picks the peers to unchoke at `now`: the four interested peers with
    /// the highest upload rate over the last 30 seconds (ties to the earlier
    /// peer), and, when the optimistic period has passed, the newest
    /// interested peer that is choked and not among them.
    pub fn decide_unchoke(&mut self, now: u64) -> (r: (Vec<bool>, Option<usize>))
        requires
            old(self).wf(),
        ensures
            final(self).wf(),
            top_interested(
                rates_of(old(self).active_peers@, now),
                interests_of(old(self).active_peers@),
                r.0@,
            ),
            r.1 == if optimistic_due(old(self).last_optimistic_unchoke, now) {
                last_candidate(old(self).active_peers@, r.0@, old(self).active_peers@.len() as int)
            } else {
                None::<usize>
            },
            final(self).stored == old(self).stored,
            final(self).last_choke_update == now,
            final(self).last_optimistic_unchoke == if optimistic_due(
                old(self).last_optimistic_unchoke,
                now,
            ) {
                now
            } else {
                old(self).last_optimistic_unchoke
            },
            final(self).active_peers@ == old(self).active_peers@,
            final(self).backlog_peers@ == old(self).backlog_peers@,
            final(self).downloading@ == old(self).downloading@,
            final(self).have_pieces@ == old(self).have_pieces@,
            final(self).pieces_in_progress@ == old(self).pieces_in_progress@,
            final(self).torrent == old(self).torrent,
    {
        self.last_choke_update = now;
        let n = self.active_peers.len();
        let ghost peers = self.active_peers@;
        let mut rates: Vec<u64> = Vec::new();
        let mut interested: Vec<bool> = Vec::new();
        let mut i: usize = 0;
        while i < n
            invariant
                n == peers.len(),
                peers == self.active_peers@,
                i <= n,
                rates@.len() == i,
                interested@.len() == i,
                forall|j: int| 0 <= j < i ==> rates@[j] == rate_of(#[trigger] peers[j], now),
                forall|j: int| 0 <= j < i ==> interested@[j] == (#[trigger] peers[j]).peer_interested,
            decreases n - i,
        {
            rates.push(self.active_peers[i].calculate_upload_rate(now, CHOKE_RATE_INTERVAL));
            interested.push(self.active_peers[i].peer_interested);
            i += 1;
        }
        assert(rates@.map_values(|x: u64| x as nat) =~= rates_of(peers, now));
        assert(interested@ =~= interests_of(peers));
        let selected = select_top(&rates, &interested);
        let mut pick: Option<usize> = None;
        let due = now >= self.last_optimistic_unchoke && now - self.last_optimistic_unchoke
            >= CHOKE_RATE_INTERVAL;
        if due {
            self.last_optimistic_unchoke = now;
            let mut k: usize = 0;
            while k < n
                invariant
                    n == peers.len(),
                    peers == self.active_peers@,
                    selected@.len() == n,
                    k <= n,
                    pick == last_candidate(peers, selected@, k as int),
                decreases n - k,
            {
                if self.active_peers[k].peer_interested && self.active_peers[k].peer_choked
                    && !selected[k] {
                    pick = Some(k);
                }
                k += 1;
            }
        }
        (selected, pick)
    }

    /// Decides choking at `now` and applies it to the active peers: the
    /// chosen peers are unchoked, all others choked. Gives the Choke and
    /// Unchoke messages to send, one for each peer whose state flips.
    pub fn run_choke_algo(&mut self, now: u64) -> (r: Vec<PeerMessage>)
        requires
            old(self).wf(),
        ensures
            final(self).wf(),
            ({
                let old_peers = old(self).active_peers@;
                let unchoke = unchoke_flags(
                    select_regular(old_peers, now),
                    if optimistic_due(old(self).last_optimistic_unchoke, now) {
                        last_candidate(old_peers, select_regular(old_peers, now), old_peers.len() as int)
                    } else {
                        None::<usize>
                    },
                );
                &&& final(self).active_peers@.len() == old_peers.len()
                &&& forall|i: int|
                    0 <= i < old_peers.len() ==> #[trigger] final(self).active_peers@[i] == (Peer {
                        peer_choked: !unchoke[i],
                        ..old_peers[i]
                    })
                &&& r@ == choke_messages(old_peers, unchoke, old_peers.len() as int)
            }),
            final(self).backlog_peers@ == old(self).backlog_peers@,
            final(self).downloading@ == old(self).downloading@,
            final(self).have_pieces@ == old(self).have_pieces@,
            final(self).pieces_in_progress@ == old(self).pieces_in_progress@,
            final(self).torrent == old(self).torrent,
    {
        let ghost old_peers = self.active_peers@;
        let (regular, pick) = self.decide_unchoke(now);
        proof {
            lemma_top_unique(
                rates_of(old_peers, now),
                interests_of(old_peers),
                regular@,
                select_regular(old_peers, now),
            );
        }
        proof {
            lemma_last_candidate(old_peers, regular@, old_peers.len() as int);
        }
        let ghost unchoke = unchoke_flags(regular@, pick);
        let mut all: Vec<Peer> = Vec::new();
        std::mem::swap(&mut all, &mut self.active_peers);
        let mut out: Vec<PeerMessage> = Vec::new();
        let n = all.len();
        let mut i: usize = 0;
        while i < n
            invariant
                n == old_peers.len(),
                pick is Some ==> pick->Some_0 < n,
                regular@.len() == n,
                unchoke == unchoke_flags(regular@, pick),
                i <= n,
                all@ == old_peers.subrange(i as int, n as int),
                self.active_peers@.len() == i,
                forall|j: int|
                    0 <= j < i ==> #[trigger] self.active_peers@[j] == (Peer {
                        peer_choked: !unchoke[j],
                        ..old_peers[j]
                    }),
                out@ == choke_messages(old_peers, unchoke, i as int),
                self.backlog_peers@ == old(self).backlog_peers@,
                self.downloading@ == old(self).downloading@,
                self.have_pieces@ == old(self).have_pieces@,
                self.pieces_in_progress@ == old(self).pieces_in_progress@,
                self.torrent == old(self).torrent,
                self.stored == old(self).stored,
                old(self).wf(),
                old(self).backlog_peers@ == self.backlog_peers@,
            decreases n - i,
        {
            let mut p = all.remove(0);
            let open = regular[i] || match pick {
                Some(k) => k == i,
                None => false,
            };
            assert(open == unchoke[i as int]);
            let ip = p.ip_address;
            let port = p.port;
            match p.set_choked(!open) {
                Some(t) => {
                    out.push(PeerMessage { ip_address: ip, port, message_type: t, piece_index: 0 });
                },
                None => {},
            }
            self.active_peers.push(p);
            i += 1;
            assert(all@ =~= old_peers.subrange(i as int, n as int));
        }
        out
    }

    /// The first piece of `left` that `peer` owns and that is not yet in
    /// progress; with `check_busy` false, in progress or not.
    fn first_free(&self, peer: &Peer, left: &Vec<u32>, check_busy: bool, taken: Ghost<Seq<u32>>) -> (r: Option<u32>)
        requires
            self.pieces_in_progress@.len() == self.torrent.piece_count(),
            forall|j: int| 0 <= j < left@.len() ==> #[trigger] left@[j] < self.torrent.piece_count(),
            check_busy ==> forall|j: int|
                0 <= j < left@.len() ==> self.pieces_in_progress@[#[trigger] left@[j] as int]
                    == taken@.contains(left@[j]),
            !check_busy ==> taken@ == Seq::<u32>::empty(),
        ensures
            r == first_free_from(*peer, left@, taken@, 0),
    {
        let n = left.len();
        let mut j: usize = n;
        let mut r: Option<u32> = None;
        while j > 0
            invariant
                j <= n,
                n == left@.len(),
                r == first_free_from(*peer, left@, taken@, j as int),
                self.pieces_in_progress@.len() == self.torrent.piece_count(),
                forall|k: int| 0 <= k < left@.len() ==> #[trigger] left@[k] < self.torrent.piece_count(),
                check_busy ==> forall|k: int|
                    0 <= k < left@.len() ==> self.pieces_in_progress@[#[trigger] left@[k] as int]
                        == taken@.contains(left@[k]),
                !check_busy ==> taken@ == Seq::<u32>::empty(),
            decreases j,
        {
            j -= 1;
            let x = left[j];
            let busy = check_busy && self.pieces_in_progress[x as usize];
            if !busy && peer.has_piece(x) {
                r = Some(x);
            }
        }
        r
    }

    /// Assigns pieces to the active peers. Each peer's interest is set to
    /// whether it does not choke us and owns a piece that is neither owned
    /// nor in progress; each such peer, in order, takes the first such piece
    /// it owns that no earlier peer took, and leaves the active peers for a
    /// download worker. Gives the interest messages to send and the
    /// assignments; their pieces become in progress.
    pub fn plan_downloads(&mut self) -> (r: (Vec<PeerMessage>, Vec<Assignment>))
        requires
            old(self).wf(),
        ensures
            final(self).wf(),
            ({
                let peers = old(self).active_peers@;
                let left = old(self).spec_pieces_left();
                let (stay, go, pieces) = plan_upto(peers, left, peers.len() as int);
                &&& r.0@ == interest_messages(peers, left, peers.len() as int)
                &&& final(self).active_peers@ == stay
                &&& r.1@.len() == go.len()
                &&& forall|k: int|
                    0 <= k < go.len() ==> (#[trigger] r.1@[k]).peer == go[k] && r.1@[k].piece
                        == pieces[k] && r.1@[k].piece_len == old(self).torrent.piece_len_of(
                        pieces[k] as int,
                    )
                &&& forall|k: int| 0 <= k < go.len() ==> !(#[trigger] r.1@[k]).peer.am_choked
                &&& forall|k: int|
                    0 <= k < go.len() ==> (#[trigger] r.1@[k]).peer.peer_has@.contains(r.1@[k].piece)
                        && r.1@[k].piece < old(self).torrent.piece_count()
                        && !old(self).have_pieces@[r.1@[k].piece as int]
                        && !old(self).pieces_in_progress@[r.1@[k].piece as int]
                &&& final(self).downloading@ == old(self).downloading@ + pieces
                &&& forall|i: int|
                    0 <= i < old(self).pieces_in_progress@.len()
                        ==> #[trigger] final(self).pieces_in_progress@[i]
                        == (old(self).pieces_in_progress@[i] || pieces.contains(i as u32))
            }),
            final(self).backlog_peers@ == old(self).backlog_peers@,
            final(self).have_pieces@ == old(self).have_pieces@,
            final(self).torrent == old(self).torrent,
            final(self).stored == old(self).stored,
    {
        let left = self.get_pieces_left();
        let ghost count = self.torrent.piece_count() as int;
        proof {
            lemma_pieces_left(self.have_pieces@, self.pieces_in_progress@, count);
        }
        let ghost busy0 = self.pieces_in_progress@;
        let ghost dl0 = self.downloading@;
        let mut all: Vec<Peer> = Vec::new();
        std::mem::swap(&mut all, &mut self.active_peers);
        let ghost peers = all@;
        let n = all.len();
        let mut msgs: Vec<PeerMessage> = Vec::new();
        let mut out: Vec<Assignment> = Vec::new();
        let mut i: usize = 0;
        while i < n
            invariant
                old(self).wf(),
                n == peers.len(),
                peers == old(self).active_peers@,
                left@ == old(self).spec_pieces_left(),
                count == self.torrent.piece_count(),
                forall|x: u32| #[trigger]
                    left@.contains(x) <==> (x < count && !old(self).have_pieces@[x as int]
                        && !busy0[x as int]),
                busy0 == old(self).pieces_in_progress@,
                dl0 == old(self).downloading@,
                i <= n,
                all@ == peers.subrange(i as int, n as int),
                ({
                    let (stay, go, pieces) = plan_upto(peers, left@, i as int);
                    &&& self.active_peers@ == stay
                    &&& out@.len() == go.len()
                    &&& forall|k: int|
                        0 <= k < go.len() ==> (#[trigger] out@[k]).peer == go[k] && out@[k].piece
                            == pieces[k] && out@[k].piece_len == self.torrent.piece_len_of(
                            pieces[k] as int,
                        )
                    &&& self.downloading@ == dl0 + pieces
                    &&& self.pieces_in_progress@.len() == busy0.len()
                    &&& forall|j: int|
                        0 <= j < busy0.len() ==> #[trigger] self.pieces_in_progress@[j] == (busy0[j]
                            || pieces.contains(j as u32))
                }),
                msgs@ == interest_messages(peers, left@, i as int),
                self.backlog_peers@ == old(self).backlog_peers@,
                self.have_pieces@ == old(self).have_pieces@,
                self.torrent == old(self).torrent,
                self.stored == old(self).stored,
            decreases n - i,
        {
            let ghost (stay, go, pieces) = plan_upto(peers, left@, i as int);
            let mut p = all.remove(0);
            assert(p == peers[i as int]);
            proof {
                lemma_plan(peers, left@, i as int);
                assert forall|j: int| 0 <= j < left@.len() implies #[trigger] left@[j] < count by {
                    assert(left@.contains(left@[j]));
                }
                assert forall|j: int|
                    0 <= j < left@.len() implies self.pieces_in_progress@[#[trigger] left@[j] as int]
                        == pieces.contains(left@[j]) by {
                    assert(left@.contains(left@[j]));
                }
            }
            let u = !p.am_choked && self.first_free(&p, &left, false, Ghost(Seq::empty())).is_some();
            let pick = if u {
                self.first_free(&p, &left, true, Ghost(pieces))
            } else {
                None
            };
            let ip = p.ip_address;
            let port = p.port;
            match p.set_interested(u) {
                Some(t) => {
                    msgs.push(PeerMessage { ip_address: ip, port, message_type: t, piece_index: 0 });
                },
                None => {},
            }
            proof {
                lemma_first_free(peers[i as int], left@, pieces, 0);
                if !u {
                    assert(pick is None);
                }
            }
            match pick {
                Some(x) => {
                    let piece_len = self.torrent.get_piece_len(x);
                    self.pieces_in_progress[x as usize] = true;
                    self.downloading.push(x);
                    let ghost out_before = out@;
                    out.push(Assignment { peer: p, piece: x, piece_len });
                    proof {
                        let (stay2, go2, pieces2) = plan_upto(peers, left@, i + 1);
                        assert(pieces2 == pieces.push(x));
                        assert(go2 == go.push(Peer { am_interested: u, ..peers[i as int] }));
                        assert(stay2 == stay);
                        assert forall|k: int| 0 <= k < go2.len() implies (#[trigger] out@[k]).peer == go2[k]
                            && out@[k].piece == pieces2[k] && out@[k].piece_len
                            == self.torrent.piece_len_of(pieces2[k] as int) by {
                            if k < go.len() {
                                assert(out@[k] == out_before[k]);
                            }
                        }
                        assert(self.downloading@ =~= dl0 + pieces2);
                        assert forall|j: int| 0 <= j < busy0.len() implies #[trigger] self.pieces_in_progress@[j]
                            == (busy0[j] || pieces2.contains(j as u32)) by {
                            if j == x {
                                assert(pieces2[pieces.len() as int] == x);
                            } else {
                                if pieces2.contains(j as u32) {
                                    let k = choose|k: int| 0 <= k < pieces2.len() && pieces2[k] == j as u32;
                                    assert(k < pieces.len());
                                    assert(pieces.contains(j as u32));
                                }
                                if pieces.contains(j as u32) {
                                    let k = choose|k: int| 0 <= k < pieces.len() && pieces[k] == j as u32;
                                    assert(pieces2[k] == j as u32);
                                }
                            }
                        }
                    }
                },
                None => {
                    self.active_peers.push(p);
                    proof {
                        let (stay2, go2, pieces2) = plan_upto(peers, left@, i + 1);
                        assert(stay2 == stay.push(Peer { am_interested: u, ..peers[i as int] }));
                        assert(go2 == go);
                        assert(pieces2 == pieces);
                    }
                },
            }
            i += 1;
            assert(all@ =~= peers.subrange(i as int, n as int));
        }
        proof {
            lemma_plan(peers, left@, n as int);
            let (stay, go, pieces) = plan_upto(peers, left@, n as int);
            // every new piece was left, so neither owned nor in progress
            assert forall|k: int| 0 <= k < pieces.len() implies #[trigger] pieces[k] < count
                && !old(self).have_pieces@[pieces[k] as int] && !busy0[pieces[k] as int] by {
                assert(left@.contains(pieces[k]));
            }
            let dl = self.downloading@;
            assert forall|a: int, b: int| 0 <= a < dl.len() && 0 <= b < dl.len() && a != b implies dl[a] != dl[b] by {
                if a < dl0.len() && b >= dl0.len() {
                    assert(busy0[dl0[a] as int]);
                    assert(!busy0[pieces[b - dl0.len()] as int]);
                } else if a >= dl0.len() && b < dl0.len() {
                    assert(busy0[dl0[b] as int]);
                    assert(!busy0[pieces[a - dl0.len()] as int]);
                } else if a >= dl0.len() && b >= dl0.len() {
                    assert(pieces[a - dl0.len()] != pieces[b - dl0.len()]);
                }
            }
            assert forall|k: int| 0 <= k < dl.len() implies #[trigger] dl[k] < count
                && self.pieces_in_progress@[dl[k] as int] by {
                if k >= dl0.len() {
                    assert(dl[k] == pieces[k - dl0.len()]);
                    assert(pieces.contains(dl[k]));
                }
            }
            assert forall|j: int| 0 <= j < count && #[trigger] self.pieces_in_progress@[j] implies dl.contains(j as u32) by {
                if busy0[j] {
                    assert(dl0.contains(j as u32));
                    let k = choose|k: int| 0 <= k < dl0.len() && dl0[k] == j as u32;
                    assert(dl[k] == j as u32);
                } else {
                    assert(pieces.contains(j as u32));
                    let k = choose|k: int| 0 <= k < pieces.len() && pieces[k] == j as u32;
                    assert(dl[dl0.len() + k] == j as u32);
                }
            }
            assert forall|j: int| 0 <= j < count implies !(#[trigger] self.have_pieces@[j] && self.pieces_in_progress@[j]) by {
                if self.have_pieces@[j] && pieces.contains(j as u32) {
                    let k = choose|k: int| 0 <= k < pieces.len() && pieces[k] == j as u32;
                    assert(!old(self).have_pieces@[pieces[k] as int]);
                }
            }
            assert forall|k: int| 0 <= k < go.len() implies !(#[trigger] out@[k]).peer.am_choked by {
                assert(out@[k].peer == go[k]);
            }
            assert forall|k: int| 0 <= k < go.len() implies (#[trigger] out@[k]).peer.peer_has@.contains(out@[k].piece)
                && out@[k].piece < count && !old(self).have_pieces@[out@[k].piece as int]
                && !busy0[out@[k].piece as int] by {
                assert(out@[k].peer == go[k]);
                assert(out@[k].piece == pieces[k]);
                assert(left@.contains(pieces[k]));
            }
        }
        (msgs, out)
    }


    /// Gives back piece `self.downloading[idx]`: no longer in progress.
    fn release(&mut self, idx: usize)
        requires
            old(self).wf(),
            idx < old(self).downloading@.len(),
        ensures
            final(self).wf(),
            final(self).downloading@ == old(self).downloading@.remove(idx as int),
            final(self).pieces_in_progress@ == old(self).pieces_in_progress@.update(
                old(self).downloading@[idx as int] as int,
                false,
            ),
            final(self).active_peers@ == old(self).active_peers@,
            final(self).backlog_peers@ == old(self).backlog_peers@,
            final(self).have_pieces@ == old(self).have_pieces@,
            final(self).torrent == old(self).torrent,
            final(self).stored == old(self).stored,
    {
        let piece = self.downloading.remove(idx);
        self.pieces_in_progress[piece as usize] = false;
        proof {
            let d0 = old(self).downloading@;
            let d = self.downloading@;
            assert forall|k: int| 0 <= k < d.len() implies #[trigger] d[k] < self.torrent.piece_count()
                && self.pieces_in_progress@[d[k] as int] by {
                if k < idx {
                    assert(d[k] == d0[k]);
                    assert(d0[k] != d0[idx as int]);
                } else {
                    assert(d[k] == d0[k + 1]);
                    assert(d0[k + 1] != d0[idx as int]);
                }
            }
            assert forall|j: int|
                0 <= j < self.torrent.piece_count() && #[trigger] self.pieces_in_progress@[j] implies d.contains(j as u32) by {
                assert(d0.contains(j as u32));
                let k = choose|k: int| 0 <= k < d0.len() && d0[k] == j as u32;
                if k < idx {
                    assert(d[k] == j as u32);
                } else {
                    assert(k != idx);
                    assert(d[k - 1] == j as u32);
                }
            }
        }
    }

    /// Where piece `piece` is among the workers' pieces.
    fn find_download(&self, piece: u32) -> (r: Option<usize>)
        ensures
            r matches Some(k) ==> k < self.downloading@.len() && self.downloading@[k as int] == piece,
            r is None ==> !self.downloading@.contains(piece),
    {
        let mut k: usize = 0;
        while k < self.downloading.len()
            invariant
                k <= self.downloading@.len(),
                forall|j: int| 0 <= j < k ==> self.downloading@[j] != piece,
            decreases self.downloading@.len() - k,
        {
            if self.downloading[k] == piece {
                return Some(k);
            }
            k += 1;
        }
        None
    }

    /// Takes back a download worker of piece `piece`, with the bytes it
    /// assembled (`None` when it failed), and checks them against the
    /// piece's hash. See `complete_piece` for what follows.
    pub fn finish_download(&mut self, piece: u32, data: Option<Vec<u8>>, peer: Peer) -> (r: PieceOutcome)
        requires
            old(self).wf(),
        ensures
            final(self).wf(),
            ({
                let found = old(self).downloading@.contains(piece);
                let good = data matches Some(d) && d@.len() == old(self).torrent.piece_len_of(
                    piece as int,
                ) && sha1_of(d@) == old(self).torrent.piece_hashes@[piece as int]@;
                &&& r is Verified <==> found && good
                &&& r is Corrupt <==> found && data is Some && !good
                &&& r is Failed <==> !found || data is None
                &&& found ==> !final(self).pieces_in_progress@[piece as int]
            }),
            r matches PieceOutcome::Verified { piece: p, offset, data: d } ==> p == piece
                && offset == piece * old(self).torrent.piece_len && d@ == data->Some_0@
                && final(self).have_pieces@ == old(self).have_pieces@.update(piece as int, true)
                && final(self).active_peers@ == old(self).active_peers@.push(peer)
                && final(self).backlog_peers@ == old(self).backlog_peers@,
            !(r is Verified) ==> final(self).have_pieces@ == old(self).have_pieces@
                && final(self).active_peers@ == old(self).active_peers@
                && final(self).backlog_peers@ == if may_retry(peer) {
                    old(self).backlog_peers@.push(peer)
                } else {
                    old(self).backlog_peers@
                },
            final(self).torrent == old(self).torrent,
    {
        match data {
            None => {
                match self.find_download(piece) {
                    Some(k) => {
                        self.release(k);
                        proof {
                            assert(old(self).downloading@[k as int] == piece);
                        }
                    },
                    None => {},
                }
                self.demote(peer);
                PieceOutcome::Failed
            },
            Some(d) => {
                let digest = sha1_digest(d.as_slice());
                self.complete_piece(piece, d, digest, peer)
            },
        }
    }

    /// Takes back a download worker of piece `piece` whose bytes have the
    /// SHA-1 digest `digest`. The piece is no longer in progress. When the
    /// bytes have the piece's length and its hash, the piece is owned, the
    /// peer is active again, and the bytes are handed out to be written at
    /// the piece's offset; otherwise they are discarded (`Corrupt`) and the
    /// peer returns to the backlog. A piece that no worker holds gives
    /// `Failed`, and the peer returns to the backlog.
    pub fn complete_piece(&mut self, piece: u32, data: Vec<u8>, digest: [u8; 20], peer: Peer) -> (r: PieceOutcome)
        requires
            old(self).wf(),
            digest@ == sha1_of(data@),
        ensures
            final(self).wf(),
            ({
                let found = old(self).downloading@.contains(piece);
                let good = data@.len() == old(self).torrent.piece_len_of(piece as int)
                    && digest@ == old(self).torrent.piece_hashes@[piece as int]@;
                &&& r is Verified <==> found && good
                &&& r is Corrupt <==> found && !good
                &&& r is Failed <==> !found
                &&& found ==> !final(self).pieces_in_progress@[piece as int]
            }),
            r matches PieceOutcome::Verified { piece: p, offset, data: d } ==> p == piece
                && offset == piece * old(self).torrent.piece_len && d@ == data@
                && final(self).have_pieces@ == old(self).have_pieces@.update(piece as int, true)
                && final(self).active_peers@ == old(self).active_peers@.push(peer)
                && final(self).backlog_peers@ == old(self).backlog_peers@,
            !(r is Verified) ==> final(self).have_pieces@ == old(self).have_pieces@
                && final(self).active_peers@ == old(self).active_peers@
                && final(self).backlog_peers@ == if may_retry(peer) {
                    old(self).backlog_peers@.push(peer)
                } else {
                    old(self).backlog_peers@
                },
            final(self).torrent == old(self).torrent,
    {
        let k = match self.find_download(piece) {
            Some(k) => k,
            None => {
                self.demote(peer);
                return PieceOutcome::Failed;
            },
        };
        self.release(k);
        let expected = self.torrent.get_piece_len(piece);
        let hash = &self.torrent.piece_hashes[piece as usize];
        let mut good = data.len() == expected as usize;
        let mut j: usize = 0;
        while j < 20
            invariant
                j <= 20,
                good == (data@.len() == expected && forall|q: int| 0 <= q < j ==> digest@[q] == hash@[q]),
            decreases 20 - j,
        {
            if digest[j] != hash[j] {
                good = false;
            }
            j += 1;
        }
        proof {
            if data@.len() == expected && digest@ != hash@ {
                assert(!(digest@ =~= hash@));
            }
            if good {
                assert(digest@ =~= hash@);
            }
        }
        if !good {
            self.demote(peer);
            return PieceOutcome::Corrupt;
        }
        self.have_pieces[piece as usize] = true;
        proof {
            self.stored@ = self.stored@.insert(piece as int, data@);
        }
        self.active_peers.push(peer);
        proof {
            lemma_piece_within(&self.torrent, piece as int);
        }
        let offset: u64 = piece as u64 * self.torrent.piece_len as u64;
        PieceOutcome::Verified { piece, offset, data }
    }

    /// A Have of `piece` for every active peer, in order.
    pub fn broadcast_have(&self, piece: u32) -> (r: Vec<PeerMessage>)
        ensures
            r@.len() == self.active_peers@.len(),
            forall|k: int|
                0 <= k < r@.len() ==> #[trigger] r@[k] == message_for(
                    self.active_peers@[k],
                    MessageType::Have,
                    piece,
                ),
    {
        let mut r: Vec<PeerMessage> = Vec::new();
        let mut k: usize = 0;
        while k < self.active_peers.len()
            invariant
                k <= self.active_peers@.len(),
                r@.len() == k,
                forall|j: int|
                    0 <= j < k ==> #[trigger] r@[j] == message_for(
                        self.active_peers@[j],
                        MessageType::Have,
                        piece,
                    ),
            decreases self.active_peers@.len() - k,
        {
            let p = &self.active_peers[k];
            r.push(
                PeerMessage {
                    ip_address: p.ip_address,
                    port: p.port,
                    message_type: MessageType::Have,
                    piece_index: piece,
                },
            );
            k += 1;
        }
        r
    }

    /// Whether piece `i` is owned.
    pub fn has_piece(&self, i: u32) -> (r: bool)
        requires
            self.wf(),
        ensures
            r == (i < self.torrent.piece_count() && self.have_pieces@[i as int]),
    {
        i < self.torrent.get_total_piece_count() && self.have_pieces[i as usize]
    }

    /// Hands the caller the active peers to upload to: we do not choke
    /// them, they are interested, and they requested a block of a piece we
    /// own.
    /// Each comes back through `return_peer`.
    pub fn take_uploaders(&mut self) -> (r: Vec<Peer>)
        requires
            old(self).wf(),
        ensures
            final(self).wf(),
            r@ == keep_peers(
                old(self).active_peers@,
                |p: Peer| wants_upload(old(self).torrent, old(self).have_pieces@, p),
            ),
            final(self).active_peers@ == keep_peers(
                old(self).active_peers@,
                |p: Peer| !wants_upload(old(self).torrent, old(self).have_pieces@, p),
            ),
            final(self).backlog_peers@ == old(self).backlog_peers@,
            final(self).downloading@ == old(self).downloading@,
            final(self).have_pieces@ == old(self).have_pieces@,
            final(self).pieces_in_progress@ == old(self).pieces_in_progress@,
            final(self).torrent == old(self).torrent,
    {
        let mut all: Vec<Peer> = Vec::new();
        std::mem::swap(&mut all, &mut self.active_peers);
        let ghost start = all@;
        let ghost want = |p: Peer| wants_upload(old(self).torrent, old(self).have_pieces@, p);
        let ghost stay = |p: Peer| !wants_upload(old(self).torrent, old(self).have_pieces@, p);
        let mut out: Vec<Peer> = Vec::new();
        let mut i: usize = 0;
        while all.len() > 0
            invariant
                old(self).wf(),
                start == old(self).active_peers@,
                i <= start.len(),
                all@ == start.subrange(i as int, start.len() as int),
                self.active_peers@ == keep_peers(start.subrange(0, i as int), stay),
                out@ == keep_peers(start.subrange(0, i as int), want),
                self.active_peers@.len() <= i,
                want == (|p: Peer| wants_upload(old(self).torrent, old(self).have_pieces@, p)),
                stay == (|p: Peer| !wants_upload(old(self).torrent, old(self).have_pieces@, p)),
                self.backlog_peers@ == old(self).backlog_peers@,
                self.downloading@ == old(self).downloading@,
                self.have_pieces@ == old(self).have_pieces@,
                self.pieces_in_progress@ == old(self).pieces_in_progress@,
                self.torrent == old(self).torrent,
                self.stored == old(self).stored,
            decreases all@.len(),
        {
            let p = all.remove(0);
            let ghost pre = start.subrange(0, i as int);
            let ghost post = start.subrange(0, i + 1);
            assert(post.drop_last() =~= pre);
            assert(post.last() == p);
            let mut any = false;
            let mut k: usize = 0;
            while k < p.request_queue.len()
                invariant
                    self.wf(),
                    k <= p.request_queue@.len(),
                    any == exists|j: int| 0 <= j < k && owns_request(self.torrent, self.have_pieces@, #[trigger] p.request_queue@[j]),
                decreases p.request_queue@.len() - k,
            {
                if self.has_piece(p.request_queue[k].piece_index) {
                    any = true;
                }
                k += 1;
            }
            if !p.peer_choked && p.peer_interested && any {
                out.push(p);
            } else {
                self.active_peers.push(p);
            }
            i += 1;
            assert(all@ =~= start.subrange(i as int, start.len() as int));
        }
        assert(start.subrange(0, start.len() as int) =~= start);
        out
    }

    /// The reads that serve a peer's queued requests: every queued request,
    /// in queue order, becomes a read of its length at the piece's offset
    /// plus its byte offset in the file. The queue is then empty.
    pub fn serve_requests(&self, peer: &mut Peer) -> (r: Vec<UploadRead>)
        ensures
            r@.len() == old(peer).request_queue@.len(),
            forall|k: int|
                0 <= k < r@.len() ==> #[trigger] r@[k] == (UploadRead {
                    block: old(peer).request_queue@[k],
                    file_offset: read_offset(self.torrent, old(peer).request_queue@[k]),
                }),
            final(peer).request_queue@.len() == 0,
            final(peer).data_movements@ == old(peer).data_movements@,
            final(peer).peer_choked == old(peer).peer_choked,
            final(peer).am_choked == old(peer).am_choked,
            final(peer).ip_address == old(peer).ip_address,
            final(peer).port == old(peer).port,
    {
        let mut queue: Vec<Block> = Vec::new();
        std::mem::swap(&mut queue, &mut peer.request_queue);
        let ghost q = queue@;
        let mut reads: Vec<UploadRead> = Vec::new();
        let mut i: usize = 0;
        while i < queue.len()
            invariant
                q == queue@,
                i <= q.len(),
                reads@.len() == i,
                forall|k: int|
                    0 <= k < i ==> #[trigger] reads@[k] == (UploadRead {
                        block: q[k],
                        file_offset: read_offset(self.torrent, q[k]),
                    }),
            decreases q.len() - i,
        {
            let b = queue[i];
            proof {
                lemma_read_offset_fits(self.torrent.piece_len, b);
            }
            let file_offset: u64 = b.piece_index as u64 * self.torrent.piece_len as u64
                + b.byte_offset as u64;
            reads.push(UploadRead { block: b, file_offset });
            i += 1;
        }
        reads
    }

}

/// Each peer's upload rate at `now`, over the rate window, capped at
/// `u64::MAX`.
pub open spec fn rate_of(p: Peer, now: u64) -> nat {
    let s = uploaded_within(p.data_movements@, now - CHOKE_RATE_INTERVAL, now as int);
    if s > u64::MAX {
        u64::MAX as nat
    } else {
        s
    }
}

pub open spec fn rates_of(peers: Seq<Peer>, now: u64) -> Seq<nat> {
    Seq::new(peers.len(), |i: int| rate_of(peers[i], now))
}

pub open spec fn interests_of(peers: Seq<Peer>) -> Seq<bool> {
    Seq::new(peers.len(), |i: int| peers[i].peer_interested)
}

/// Peer `j` ranks above peer `i`: a higher rate, or the same rate and an
/// earlier place.
pub open spec fn outranks(rates: Seq<nat>, j: int, i: int) -> bool {
    rates[j] > rates[i] || (rates[j] == rates[i] && j < i)
}

/// How many entries of `s` are true.
pub open spec fn count_true(s: Seq<bool>) -> nat
    decreases s.len(),
{
    if s.len() == 0 {
        0
    } else {
        count_true(s.drop_last()) + if s.last() {
            1nat
        } else {
            0nat
        }
    }
}

pub open spec fn min_nat(a: nat, b: nat) -> nat {
    if a < b {
        a
    } else {
        b
    }
}

/// `sel` marks the top interested peers: only interested ones, each
/// ranking above every interested peer left out, as many as four or as
/// many as are interested.
pub open spec fn top_interested(rates: Seq<nat>, interested: Seq<bool>, sel: Seq<bool>) -> bool {
    &&& sel.len() == interested.len()
    &&& rates.len() == interested.len()
    &&& forall|i: int| 0 <= i < sel.len() && #[trigger] sel[i] ==> interested[i]
    &&& forall|i: int, j: int|
        0 <= i < sel.len() && 0 <= j < sel.len() && #[trigger] sel[i] && interested[j] && !(
        #[trigger] sel[j]) ==> outranks(rates, i, j)
    &&& count_true(sel) == min_nat(REGULAR_UNCHOKES as nat, count_true(interested))
}

/// The top interested peers, as the one selection that meets
/// `top_interested`.
pub open spec fn select_regular(peers: Seq<Peer>, now: u64) -> Seq<bool> {
    choose|sel: Seq<bool>| top_interested(rates_of(peers, now), interests_of(peers), sel)
}

/// Whether the optimistic unchoke is due at `now`.
pub open spec fn optimistic_due(last: u64, now: u64) -> bool {
    now >= last && now - last >= CHOKE_RATE_INTERVAL
}

/// The newest peer below `n` that is interested, choked by us, and not
/// selected.
pub open spec fn last_candidate(peers: Seq<Peer>, sel: Seq<bool>, n: int) -> Option<usize>
    decreases n,
{
    if n <= 0 {
        None
    } else if peers[n - 1].peer_interested && peers[n - 1].peer_choked && !sel[n - 1] {
        Some((n - 1) as usize)
    } else {
        last_candidate(peers, sel, n - 1)
    }
}

proof fn lemma_last_candidate(peers: Seq<Peer>, sel: Seq<bool>, n: int)
    requires
        n <= peers.len(),
        n <= sel.len(),
        n <= usize::MAX,
    ensures
        last_candidate(peers, sel, n) matches Some(k) ==> 0 <= k < n && peers[k as int].peer_interested
            && peers[k as int].peer_choked && !sel[k as int],
    decreases n,
{
    if n > 0 {
        lemma_last_candidate(peers, sel, n - 1);
    }
}

/// The regular selection plus the optimistic pick.
pub open spec fn unchoke_flags(regular: Seq<bool>, pick: Option<usize>) -> Seq<bool> {
    match pick {
        Some(k) => regular.update(k as int, true),
        None => regular,
    }
}

/// The Choke and Unchoke messages for the first `n` peers, for those whose
/// state flips.
pub open spec fn choke_messages(peers: Seq<Peer>, unchoke: Seq<bool>, n: int) -> Seq<PeerMessage>
    decreases n,
{
    if n <= 0 {
        seq![]
    } else {
        let p = peers[n - 1];
        let rest = choke_messages(peers, unchoke, n - 1);
        if p.peer_choked == !unchoke[n - 1] {
            rest
        } else if unchoke[n - 1] {
            rest.push(message_for(p, MessageType::Unchoke, 0))
        } else {
            rest.push(message_for(p, MessageType::Choke, 0))
        }
    }
}

proof fn lemma_count_update(s: Seq<bool>, i: int)
    requires
        0 <= i < s.len(),
        !s[i],
    ensures
        count_true(s.update(i, true)) == count_true(s) + 1,
    decreases s.len(),
{
    let t = s.update(i, true);
    if i == s.len() - 1 {
        assert(t.drop_last() =~= s.drop_last());
    } else {
        lemma_count_update(s.drop_last(), i);
        assert(t.drop_last() =~= s.drop_last().update(i, true));
    }
}

proof fn lemma_count_subset(a: Seq<bool>, b: Seq<bool>)
    requires
        a.len() == b.len(),
        forall|i: int| 0 <= i < a.len() && #[trigger] a[i] ==> b[i],
    ensures
        count_true(a) <= count_true(b),
        (exists|i: int| 0 <= i < a.len() && !a[i] && b[i]) ==> count_true(a) < count_true(b),
    decreases a.len(),
{
    if a.len() > 0 {
        lemma_count_subset(a.drop_last(), b.drop_last());
        if exists|i: int| 0 <= i < a.len() && !a[i] && b[i] {
            let i = choose|i: int| 0 <= i < a.len() && !a[i] && b[i];
            if i < a.len() - 1 {
                assert(!a.drop_last()[i] && b.drop_last()[i]);
            }
        }
    }
}

/// Two selections that both meet `top_interested` are the same.
proof fn lemma_top_unique(rates: Seq<nat>, interested: Seq<bool>, a: Seq<bool>, b: Seq<bool>)
    requires
        top_interested(rates, interested, a),
        b == choose|sel: Seq<bool>| top_interested(rates, interested, sel),
    ensures
        top_interested(rates, interested, b),
        a == b,
{
    assert(top_interested(rates, interested, b));
    assert_by_contradiction!(a =~= b, {
        let k = choose|k: int| 0 <= k < a.len() && a[k] != b[k];
        if a[k] && !b[k] {
            // every selected peer of b ranks above k, and k ranks above every
            // interested peer that a leaves out: so b's peers are all in a.
            assert forall|i: int| 0 <= i < b.len() && #[trigger] b[i] implies a[i] by {
                if !a[i] {
                    assert(outranks(rates, i, k));
                    assert(outranks(rates, k, i));
                }
            }
            lemma_count_subset(b, a);
        } else {
            assert forall|i: int| 0 <= i < a.len() && #[trigger] a[i] implies b[i] by {
                if !b[i] {
                    assert(outranks(rates, i, k));
                    assert(outranks(rates, k, i));
                }
            }
            lemma_count_subset(a, b);
        }
    });
}

/// The top interested peers by rate, at most four.
fn select_top(rates: &Vec<u64>, interested: &Vec<bool>) -> (r: Vec<bool>)
    requires
        rates@.len() == interested@.len(),
    ensures
        top_interested(rates@.map_values(|x: u64| x as nat), interested@, r@),
{
    let ghost rs = rates@.map_values(|x: u64| x as nat);
    let n = rates.len();
    let mut sel: Vec<bool> = Vec::new();
    let mut i: usize = 0;
    while i < n
        invariant
            i <= n,
            sel@.len() == i,
            forall|j: int| 0 <= j < i ==> !sel@[j],
        decreases n - i,
    {
        sel.push(false);
        i += 1;
    }
    proof {
        assert(count_true(sel@) == 0) by {
            lemma_count_subset(sel@, Seq::new(n as nat, |j: int| false));
            lemma_count_zero(n as nat);
        }
    }
    let mut round: usize = 0;
    while round < REGULAR_UNCHOKES
        invariant
            n == rates@.len(),
            n == interested@.len(),
            rs == rates@.map_values(|x: u64| x as nat),
            sel@.len() == n,
            round <= REGULAR_UNCHOKES,
            forall|i: int| 0 <= i < n && #[trigger] sel@[i] ==> interested@[i],
            forall|i: int, j: int|
                0 <= i < n && 0 <= j < n && #[trigger] sel@[i] && interested@[j] && !(
                #[trigger] sel@[j]) ==> outranks(rs, i, j),
            count_true(sel@) == min_nat(round as nat, count_true(interested@)),
        decreases REGULAR_UNCHOKES - round,
    {
        let mut best: Option<usize> = None;
        let mut k: usize = 0;
        while k < n
            invariant
                n == rates@.len(),
                n == interested@.len(),
                rs == rates@.map_values(|x: u64| x as nat),
                sel@.len() == n,
                k <= n,
                match best {
                    Some(b) => b < k && interested@[b as int] && !sel@[b as int] && forall|j: int|
                        0 <= j < k && j != b && interested@[j] && !sel@[j] ==> outranks(
                            rs,
                            b as int,
                            j,
                        ),
                    None => forall|j: int| 0 <= j < k ==> !(interested@[j] && !sel@[j]),
                },
            decreases n - k,
        {
            if interested[k] && !sel[k] {
                match best {
                    None => {
                        best = Some(k);
                    },
                    Some(b) => {
                        if rates[k] > rates[b] {
                            best = Some(k);
                        }
                    },
                }
            }
            k += 1;
        }
        match best {
            Some(b) => {
                proof {
                    lemma_count_subset(sel@, interested@);
                    lemma_count_update(sel@, b as int);
                }
                sel[b] = true;
            },
            None => {
                assert(sel@ =~= interested@);
            },
        }
        round += 1;
    }
    sel
}

proof fn lemma_count_zero(n: nat)
    ensures
        count_true(Seq::new(n, |j: int| false)) == 0,
    decreases n,
{
    if n > 0 {
        lemma_count_zero((n - 1) as nat);
        assert(Seq::new(n, |j: int| false).drop_last() =~= Seq::new((n - 1) as nat, |j: int| false));
    }
}

/// With no interested peer nothing is unchoked; with four or more, exactly
/// four are unchoked for their rate, and the optimistic pick adds at most
/// one.
pub proof fn lemma_unchoke_counts(
    rates: Seq<nat>,
    interested: Seq<bool>,
    regular: Seq<bool>,
    pick: Option<usize>,
)
    requires
        top_interested(rates, interested, regular),
        pick is Some ==> pick->Some_0 < regular.len() && interested[pick->Some_0 as int]
            && !regular[pick->Some_0 as int],
    ensures
        count_true(interested) == 0 ==> forall|i: int|
            0 <= i < regular.len() ==> !#[trigger] unchoke_flags(regular, pick)[i],
        count_true(interested) >= REGULAR_UNCHOKES ==> count_true(regular) == REGULAR_UNCHOKES,
        count_true(unchoke_flags(regular, pick)) <= count_true(regular) + 1,
{
    if count_true(interested) == 0 {
        assert forall|i: int| 0 <= i < regular.len() implies !#[trigger] unchoke_flags(
            regular,
            pick,
        )[i] by {
            if interested[i] {
                let f = Seq::new(interested.len(), |j: int| j == i);
                lemma_count_subset(f, interested);
                lemma_count_update(Seq::new(interested.len(), |j: int| false), i);
                lemma_count_zero(interested.len());
                assert(Seq::new(interested.len(), |j: int| false).update(i, true) =~= f);
            }
        }
    }
    if let Some(k) = pick {
        lemma_count_update(regular, k as int);
    }
}

/// A piece handed to a download worker, with the peer that will serve it.
pub struct Assignment {
    pub peer: Peer,
    pub piece: u32,
    pub piece_len: u32,
}

/// Whether piece `x` may go to peer `p`: the peer owns it and it was not
/// handed out yet this round.
pub open spec fn free_for(p: Peer, taken: Seq<u32>, x: u32) -> bool {
    !taken.contains(x) && p.peer_has@.contains(x)
}

/// The first piece of `left` from position `i` that may go to `p`.
pub open spec fn first_free_from(p: Peer, left: Seq<u32>, taken: Seq<u32>, i: int) -> Option<u32>
    decreases left.len() - i,
{
    if i < 0 || i >= left.len() {
        None
    } else if free_for(p, taken, left[i]) {
        Some(left[i])
    } else {
        first_free_from(p, left, taken, i + 1)
    }
}

/// Whether a peer is worth downloading from: it does not choke us and owns
/// a piece we still need.
pub open spec fn useful(p: Peer, left: Seq<u32>) -> bool {
    !p.am_choked && first_free_from(p, left, seq![], 0) is Some
}

/// Piece assignment over the first `n` active peers, with `left` the pieces
/// that were neither owned nor in progress: each peer's interest is set to
/// whether it is useful; a useful peer takes the first piece of `left` that
/// it owns and that no earlier peer took. Gives the peers that stay active,
/// the peers that go to download workers, and their pieces.
pub open spec fn plan_upto(peers: Seq<Peer>, left: Seq<u32>, n: int) -> (Seq<Peer>, Seq<Peer>, Seq<u32>)
    decreases n,
{
    if n <= 0 {
        (seq![], seq![], seq![])
    } else {
        let (stay, go, pieces) = plan_upto(peers, left, n - 1);
        let p = peers[n - 1];
        let u = useful(p, left);
        let p2 = Peer { am_interested: u, ..p };
        if u && first_free_from(p, left, pieces, 0) is Some {
            (stay, go.push(p2), pieces.push(first_free_from(p, left, pieces, 0)->Some_0))
        } else {
            (stay.push(p2), go, pieces)
        }
    }
}

/// The Interested and NotInterested messages of piece assignment over the
/// first `n` peers, for those whose interest flips.
pub open spec fn interest_messages(peers: Seq<Peer>, left: Seq<u32>, n: int) -> Seq<PeerMessage>
    decreases n,
{
    if n <= 0 {
        seq![]
    } else {
        let p = peers[n - 1];
        let rest = interest_messages(peers, left, n - 1);
        let u = useful(p, left);
        if p.am_interested == u {
            rest
        } else if u {
            rest.push(message_for(p, MessageType::Interested, 0))
        } else {
            rest.push(message_for(p, MessageType::NotInterested, 0))
        }
    }
}

proof fn lemma_first_free(p: Peer, left: Seq<u32>, taken: Seq<u32>, i: int)
    requires
        0 <= i,
    ensures
        first_free_from(p, left, taken, i) matches Some(x) ==> free_for(p, taken, x) && exists|j: int|
            i <= j < left.len() && left[j] == x,
    decreases left.len() - i,
{
    if i < left.len() {
        lemma_first_free(p, left, taken, i + 1);
        if first_free_from(p, left, taken, i) is Some && !free_for(p, taken, left[i]) {
            let x = first_free_from(p, left, taken, i)->Some_0;
            let j = choose|j: int| i + 1 <= j < left.len() && left[j] == x;
            assert(i <= j < left.len() && left[j] == x);
        }
    }
}

proof fn lemma_first_free_none(p: Peer, left: Seq<u32>, i: int)
    requires
        0 <= i,
        first_free_from(p, left, seq![], i) is None,
    ensures
        forall|taken: Seq<u32>| #[trigger] first_free_from(p, left, taken, i) is None,
    decreases left.len() - i,
{
    if i < left.len() {
        lemma_first_free_none(p, left, i + 1);
        assert forall|taken: Seq<u32>| #[trigger] first_free_from(p, left, taken, i) is None by {
            assert(!seq![].contains(left[i]));
            assert(first_free_from(p, left, taken, i + 1) is None);
        }
    }
}

/// What piece assignment over the first `n` peers keeps: every peer lands
/// in one list, every worker's peer does not choke us and owns its piece,
/// and the pieces are distinct pieces of `left`.
proof fn lemma_plan(peers: Seq<Peer>, left: Seq<u32>, n: int)
    requires
        0 <= n <= peers.len(),
    ensures
        ({
            let (stay, go, pieces) = plan_upto(peers, left, n);
            &&& stay.len() + go.len() == n
            &&& go.len() == pieces.len()
            &&& pieces.no_duplicates()
            &&& forall|k: int| 0 <= k < go.len() ==> !(#[trigger] go[k]).am_choked
            &&& forall|k: int| 0 <= k < go.len() ==> (#[trigger] go[k]).peer_has@.contains(pieces[k])
            &&& forall|k: int| 0 <= k < pieces.len() ==> left.contains(#[trigger] pieces[k])
        }),
    decreases n,
{
    if n > 0 {
        lemma_plan(peers, left, n - 1);
        let (stay, go, pieces) = plan_upto(peers, left, n - 1);
        lemma_first_free(peers[n - 1], left, pieces, 0);
        let (stay2, go2, pieces2) = plan_upto(peers, left, n);
        if go2.len() > go.len() {
            let x = first_free_from(peers[n - 1], left, pieces, 0)->Some_0;
            assert(pieces2 == pieces.push(x));
            assert forall|a: int, b: int|
                0 <= a < pieces2.len() && 0 <= b < pieces2.len() && a != b implies pieces2[a]
                != pieces2[b] by {
                if a == pieces.len() {
                    assert(!pieces.contains(x));
                    assert(pieces[b] == pieces2[b]);
                } else if b == pieces.len() {
                    assert(!pieces.contains(x));
                    assert(pieces[a] == pieces2[a]);
                }
            }
            assert forall|k: int| 0 <= k < pieces2.len() implies left.contains(#[trigger] pieces2[k]) by {
                if k == pieces.len() {
                    let j = choose|j: int| 0 <= j < left.len() && left[j] == x;
                    assert(left[j] == x);
                } else {
                    assert(pieces2[k] == pieces[k]);
                }
            }
            assert forall|k: int| 0 <= k < go2.len() implies (#[trigger] go2[k]).peer_has@.contains(pieces2[k]) by {
                if k < go.len() {
                    assert(go2[k] == go[k]);
                    assert(pieces2[k] == pieces[k]);
                }
            }
            assert forall|k: int| 0 <= k < go2.len() implies !(#[trigger] go2[k]).am_choked by {
                if k < go.len() {
                    assert(go2[k] == go[k]);
                }
            }
        }
    }
}

/// A piece is among the pieces left exactly when it is within the piece
/// count and neither owned nor in progress.
proof fn lemma_pieces_left(have: Seq<bool>, busy: Seq<bool>, n: int)
    requires
        0 <= n <= have.len(),
        n <= busy.len(),
        n <= u32::MAX + 1,
    ensures
        forall|x: u32| #[trigger]
            pieces_left_below(have, busy, n).contains(x) <==> (x < n && !have[x as int]
                && !busy[x as int]),
    decreases n,
{
    if n > 0 {
        lemma_pieces_left(have, busy, n - 1);
        let prev = pieces_left_below(have, busy, n - 1);
        let cur = pieces_left_below(have, busy, n);
        let last = (n - 1) as u32;
        if !have[n - 1] && !busy[n - 1] {
            assert(cur == prev.push(last));
            assert forall|x: u32| #[trigger]
                cur.contains(x) <==> (x < n && !have[x as int] && !busy[x as int]) by {
                if x == last {
                    assert(cur[prev.len() as int] == x);
                } else {
                    if cur.contains(x) {
                        let j = choose|j: int| 0 <= j < cur.len() && cur[j] == x;
                        assert(j != prev.len());
                        assert(prev[j] == x);
                        assert(prev.contains(x));
                    }
                    if x < n && !have[x as int] && !busy[x as int] {
                        assert(prev.contains(x));
                        let j = choose|j: int| 0 <= j < prev.len() && prev[j] == x;
                        assert(cur[j] == x);
                    }
                }
            }
        } else {
            assert(cur == prev);
            assert forall|x: u32| #[trigger]
                cur.contains(x) <==> (x < n && !have[x as int] && !busy[x as int]) by {
                if x == last {
                    assert(!prev.contains(x));
                }
            }
        }
    }
}

/// What became of a finished download.
pub enum PieceOutcome {
    /// The bytes match: write `data` at `offset` of the output file.
    Verified { piece: u32, offset: u64, data: Vec<u8> },
    /// The bytes do not match the piece's hash, and were discarded.
    Corrupt,
    /// The worker failed, or held no piece in progress.
    Failed,
}

/// A read of `block.requested_length` bytes at `file_offset`, to answer
/// the request `block`.
#[derive(Clone, Copy, Debug, PartialEq, Eq, Structural)]
pub struct UploadRead {
    pub block: Block,
    pub file_offset: u64,
}

/// Whether request `b` asks for a piece we own.
pub open spec fn owns_request(t: Torrent, have: Seq<bool>, b: Block) -> bool {
    b.piece_index < t.piece_count() && have[b.piece_index as int]
}

/// Whether a peer is to be uploaded to: unchoked, interested, and with a
/// request for a piece we own.
pub open spec fn wants_upload(t: Torrent, have: Seq<bool>, p: Peer) -> bool {
    &&& !p.peer_choked
    &&& p.peer_interested
    &&& exists|j: int|
        0 <= j < p.request_queue@.len() && owns_request(t, have, #[trigger] p.request_queue@[j])
}

/// Where in the file request `b` is read: the piece's offset plus the byte
/// offset.
pub open spec fn read_offset(t: Torrent, b: Block) -> u64 {
    (b.piece_index * t.piece_len + b.byte_offset) as u64
}

proof fn lemma_read_offset_fits(pl: u32, b: Block)
    ensures
        b.piece_index * pl + b.byte_offset <= u64::MAX,
{
    assert(b.piece_index * pl <= 0xffff_ffff * 0xffff_ffff) by (nonlinear_arith)
        requires
            b.piece_index <= 0xffff_ffff,
            pl <= 0xffff_ffff,
    ;
}

/// The `k`-th block request of a piece of `len` bytes: 16 KiB blocks, the
/// last one holding the remainder.
pub open spec fn request_block(piece: u32, len: u32, k: int) -> Block {
    let start = k * DEFAULT_BLOCK_LENGTH;
    Block {
        piece_index: piece,
        byte_offset: start as u32,
        requested_length: if len - start < DEFAULT_BLOCK_LENGTH {
            (len - start) as u32
        } else {
            DEFAULT_BLOCK_LENGTH
        },
    }
}

/// The block requests that cover a piece of `len` bytes, in order.
pub open spec fn piece_requests(piece: u32, len: u32) -> Seq<Block> {
    Seq::new(
        ceil_div(len as nat, DEFAULT_BLOCK_LENGTH as nat),
        |k: int| request_block(piece, len, k),
    )
}

/// Whether a received block answers request `b`: same piece, same offset,
/// and as many bytes as requested.
pub open spec fn block_matches(b: Block, d: DownloadBlock) -> bool {
    d.piece_index == b.piece_index && d.byte_offset == b.byte_offset && d.data@.len()
        == b.requested_length
}

/// The first received block from position `i` that answers `b`.
pub open spec fn first_match_from(blocks: Seq<DownloadBlock>, b: Block, i: int) -> Option<int>
    decreases blocks.len() - i,
{
    if i < 0 || i >= blocks.len() {
        None
    } else if block_matches(b, blocks[i]) {
        Some(i)
    } else {
        first_match_from(blocks, b, i + 1)
    }
}

/// The piece's bytes: the data answering each request, in request order;
/// `None` while a request is unanswered.
pub open spec fn assembled(blocks: Seq<DownloadBlock>, reqs: Seq<Block>) -> Option<Seq<u8>>
    decreases reqs.len(),
{
    if reqs.len() == 0 {
        Some(seq![])
    } else {
        match assembled(blocks, reqs.drop_last()) {
            None => None,
            Some(d) => match first_match_from(blocks, reqs.last(), 0) {
                None => None,
                Some(j) => Some(d + blocks[j].data@),
            },
        }
    }
}

proof fn lemma_ceil_blocks(len: nat, k: nat)
    requires
        k * DEFAULT_BLOCK_LENGTH >= len,
        k == 0 || (k - 1) * DEFAULT_BLOCK_LENGTH < len,
    ensures
        k == ceil_div(len, DEFAULT_BLOCK_LENGTH as nat),
{
    let b = DEFAULT_BLOCK_LENGTH as nat;
    let q = len / b;
    let r = len % b;
    assert(len == q * b + r);
}

proof fn lemma_first_match(blocks: Seq<DownloadBlock>, b: Block, i: int)
    requires
        0 <= i,
    ensures
        first_match_from(blocks, b, i) matches Some(j) ==> i <= j < blocks.len() && block_matches(b, blocks[j]),
    decreases blocks.len() - i,
{
    if i < blocks.len() {
        lemma_first_match(blocks, b, i + 1);
    }
}

/// The requests that cover a piece of `piece_len` bytes: blocks of 16 KiB
/// from offset 0, the last one holding the remainder.
pub fn download_requests(piece: u32, piece_len: u32) -> (r: Vec<Block>)
    ensures
        r@ == piece_requests(piece, piece_len),
{
    let mut r: Vec<Block> = Vec::new();
    let mut start: u64 = 0;
    let mut k: u64 = 0;
    while start < piece_len as u64
        invariant
            start == k * DEFAULT_BLOCK_LENGTH,
            k == 0 || (k - 1) * DEFAULT_BLOCK_LENGTH < piece_len,
            r@ == Seq::new(k as nat, |j: int| request_block(piece, piece_len, j)),
            start <= piece_len as u64 + DEFAULT_BLOCK_LENGTH,
        decreases piece_len as u64 + DEFAULT_BLOCK_LENGTH - start,
    {
        let rest = piece_len as u64 - start;
        let block_len: u32 = if rest < DEFAULT_BLOCK_LENGTH as u64 {
            rest as u32
        } else {
            DEFAULT_BLOCK_LENGTH
        };
        r.push(Block::new(piece, start as u32, block_len));
        start = start + DEFAULT_BLOCK_LENGTH as u64;
        k = k + 1;
        assert(r@ =~= Seq::new(k as nat, |j: int| request_block(piece, piece_len, j)));
    }
    proof {
        lemma_ceil_blocks(piece_len as nat, k as nat);
    }
    r
}

/// A Piece payload: the piece index, the byte offset, then the bytes.
pub fn piece_payload(piece_index: u32, byte_offset: u32, data: &Vec<u8>) -> (r: Vec<u8>)
    ensures
        r@ == be32_bytes(piece_index) + be32_bytes(byte_offset) + data@,
{
    let mut r: Vec<u8> = Vec::new();
    push_u32(&mut r, piece_index);
    push_u32(&mut r, byte_offset);
    let ghost head = r@;
    let mut k: usize = 0;
    while k < data.len()
        invariant
            k <= data@.len(),
            head == be32_bytes(piece_index) + be32_bytes(byte_offset),
            r@ == head + data@.subrange(0, k as int),
        decreases data@.len() - k,
    {
        r.push(data[k]);
        k += 1;
        assert(r@ =~= head + data@.subrange(0, k as int));
    }
    assert(data@.subrange(0, data@.len() as int) =~= data@);
    r
}

/// One piece download by a worker: the requests it sends and their
/// assembly from the blocks the peer returns.
pub struct PieceDownload {
    pub piece: u32,
    pub piece_len: u32,
    pub requests: Vec<Block>,
}

impl PieceDownload {
    /// Starts the download of `piece` from `peer`, unless the peer chokes
    /// us: no request goes to a peer that chokes us.
    pub fn start(peer: &Peer, piece: u32, piece_len: u32) -> (r: Option<PieceDownload>)
        ensures
            r is Some <==> !peer.am_choked,
            r matches Some(d) ==> d.piece == piece && d.piece_len == piece_len && d.requests@
                == piece_requests(piece, piece_len),
    {
        if peer.am_choked {
            return None;
        }
        Some(PieceDownload { piece, piece_len, requests: download_requests(piece, piece_len) })
    }

    /// The piece's bytes, once every request has an answer among the
    /// peer's received blocks: the answers' data in request order.
    pub fn assemble(&self, peer: &Peer) -> (r: Option<Vec<u8>>)
        ensures
            r is Some <==> assembled(peer.downloaded_blocks@, self.requests@) is Some,
            r matches Some(d) ==> d@ == assembled(peer.downloaded_blocks@, self.requests@)->Some_0,
    {
        let ghost blocks = peer.downloaded_blocks@;
        let mut data: Vec<u8> = Vec::new();
        let mut k: usize = 0;
        while k < self.requests.len()
            invariant
                blocks == peer.downloaded_blocks@,
                k <= self.requests@.len(),
                assembled(blocks, self.requests@.subrange(0, k as int)) == Some(data@),
            decreases self.requests@.len() - k,
        {
            let b = self.requests[k];
            let ghost pre = self.requests@.subrange(0, k as int);
            let ghost post = self.requests@.subrange(0, k + 1);
            assert(post.drop_last() =~= pre);
            assert(post.last() == b);
            let mut j: usize = 0;
            let mut found: Option<usize> = None;
            while j < peer.downloaded_blocks.len()
                invariant
                    blocks == peer.downloaded_blocks@,
                    j <= blocks.len(),
                    found is None ==> first_match_from(blocks, b, 0) == first_match_from(blocks, b, j as int),
                    found matches Some(m) ==> first_match_from(blocks, b, 0) == Some(m as int),
                decreases blocks.len() - j,
            {
                let d = &peer.downloaded_blocks[j];
                if found.is_none() && d.piece_index == b.piece_index && d.byte_offset == b.byte_offset
                    && d.data.len() == b.requested_length as usize {
                    found = Some(j);
                }
                j += 1;
            }
            match found {
                None => {
                    assert(first_match_from(blocks, b, 0) is None);
                    assert(assembled(blocks, post) is None);
                    assert(self.requests@.subrange(0, self.requests@.len() as int) =~= self.requests@);
                    proof {
                        lemma_assembled_none_prefix(blocks, self.requests@, k + 1);
                    }
                    return None;
                },
                Some(m) => {
                    proof {
                        lemma_first_match(blocks, b, 0);
                    }
                    let d = &peer.downloaded_blocks[m];
                    let ghost before = data@;
                    let mut q: usize = 0;
                    while q < d.data.len()
                        invariant
                            q <= d.data@.len(),
                            data@ == before + d.data@.subrange(0, q as int),
                        decreases d.data@.len() - q,
                    {
                        data.push(d.data[q]);
                        q += 1;
                        assert(data@ =~= before + d.data@.subrange(0, q as int));
                    }
                    assert(d.data@.subrange(0, d.data@.len() as int) =~= d.data@);
                },
            }
            k += 1;
        }
        assert(self.requests@.subrange(0, self.requests@.len() as int) =~= self.requests@);
        Some(data)
    }
}

proof fn lemma_assembled_none_prefix(blocks: Seq<DownloadBlock>, reqs: Seq<Block>, k: int)
    requires
        0 <= k <= reqs.len(),
        assembled(blocks, reqs.subrange(0, k)) is None,
    ensures
        assembled(blocks, reqs) is None,
    decreases reqs.len() - k,
{
    if k < reqs.len() {
        let post = reqs.subrange(0, k + 1);
        assert(post.drop_last() =~= reqs.subrange(0, k));
        lemma_assembled_none_prefix(blocks, reqs, k + 1);
    } else {
        assert(reqs.subrange(0, k) =~= reqs);
    }
}

/// A Piece payload built for request `b` with `b.requested_length` bytes
/// reads back as a block that answers `b`: same piece, same offset, the
/// requested length.
pub proof fn lemma_piece_answers_request(b: Block, data: Seq<u8>)
    requires
        data.len() == b.requested_length,
    ensures
        ({
            let payload = be32_bytes(b.piece_index) + be32_bytes(b.byte_offset) + data;
            &&& crate::endian::be32_value(payload, 0) == b.piece_index
            &&& crate::endian::be32_value(payload, 4) == b.byte_offset
            &&& payload.subrange(8, payload.len() as int) == data
            &&& payload.subrange(8, payload.len() as int).len() == b.requested_length
        }),
{
    let payload = be32_bytes(b.piece_index) + be32_bytes(b.byte_offset) + data;
    assert(payload.subrange(0, 4) =~= be32_bytes(b.piece_index));
    assert(payload.subrange(4, 8) =~= be32_bytes(b.byte_offset));
    crate::endian::lemma_be32_round_trip(b.piece_index, payload, 0);
    crate::endian::lemma_be32_round_trip(b.byte_offset, payload, 4);
    assert(payload.subrange(8, payload.len() as int) =~= data);
}

/// What holds of the pool throughout a run: no piece is both owned and in
/// progress; active peers and download workers together stay within the
/// connection limit; no peer in the backlog has failed five connection
/// attempts; and each owned piece's bytes, as handed out for writing at the
/// piece's offset, have the piece's length and hash to the piece's hash.
pub proof fn lemma_pool_invariants(pool: &PeerPool)
    requires
        pool.wf(),
    ensures
        forall|i: int|
            0 <= i < pool.torrent.piece_count() ==> !(#[trigger] pool.have_pieces@[i]
                && pool.pieces_in_progress@[i]),
        pool.active_peers@.len() + pool.downloading@.len() <= MAX_CONNECTIONS,
        forall|k: int|
            0 <= k < pool.backlog_peers@.len()
                ==> (#[trigger] pool.backlog_peers@[k]).failed_connection_attempts
                < MAX_FAILED_CONNECTION_ATTEMPTS,
        forall|i: int|
            0 <= i < pool.torrent.piece_count() && #[trigger] pool.have_pieces@[i] ==> sha1_of(
                pool.stored@[i],
            ) == pool.torrent.piece_hashes@[i]@ && pool.stored@[i].len()
                == pool.torrent.piece_len_of(i),
{
}

/// A peer silent for the whole keep-alive window, or longer, is evicted by
/// the next keep-alive check.
pub proof fn lemma_silent_peer_evicted(p: Peer, now: u64)
    requires
        p.last_message_at matches Some(t) && now >= t && now - t >= KEEP_ALIVE_MAX_DURATION,
    ensures
        !is_alive(p, now),
{
}

/// The block requests of a piece tile it: they start at offset 0, each
/// starts where the one before ends, none is empty, and the last ends at the
/// piece's length.
pub proof fn lemma_requests_cover(piece: u32, len: u32)
    ensures
        ({
            let r = piece_requests(piece, len);
            &&& len > 0 ==> r.len() > 0 && r[0].byte_offset == 0
            &&& forall|k: int| 0 <= k < r.len() ==> (#[trigger] r[k]).piece_index == piece
                && r[k].requested_length > 0
            &&& forall|k: int|
                0 <= k < r.len() - 1 ==> #[trigger] r[k].byte_offset + r[k].requested_length
                    == r[k + 1].byte_offset
            &&& r.len() > 0 ==> r.last().byte_offset + r.last().requested_length == len
        }),
{
    let n = ceil_div(len as nat, DEFAULT_BLOCK_LENGTH as nat);
    let b = DEFAULT_BLOCK_LENGTH as int;
    let q = len as int / b;
    let m = len as int % b;
    assert(len as int == q * b + m);
    let r = piece_requests(piece, len);
    assert forall|k: int| 0 <= k < r.len() implies (#[trigger] r[k]).piece_index == piece
        && r[k].requested_length > 0 && (k < r.len() - 1 ==> r[k].requested_length == b) by {
        assert(k * b < len);
    }
    assert forall|k: int| 0 <= k < r.len() - 1 implies #[trigger] r[k].byte_offset
        + r[k].requested_length == r[k + 1].byte_offset by {
        assert((k + 1) * b < len);
        assert(k * b + b == (k + 1) * b);
    }
    if r.len() > 0 {
        let k = r.len() - 1;
        assert(r.last() == request_block(piece, len, k));
        assert(len - k * b <= b);
    }
}

/// A piece assembles only when every request has an answer among the
/// received blocks: same piece, same offset, the requested length.
pub proof fn lemma_assembled_answers(blocks: Seq<DownloadBlock>, reqs: Seq<Block>)
    requires
        assembled(blocks, reqs) is Some,
    ensures
        forall|k: int|
            0 <= k < reqs.len() ==> exists|j: int|
                0 <= j < blocks.len() && block_matches(#[trigger] reqs[k], blocks[j]),
        assembled(blocks, reqs)->Some_0.len() == requested_total(reqs),
    decreases reqs.len(),
{
    if reqs.len() > 0 {
        lemma_assembled_answers(blocks, reqs.drop_last());
        lemma_first_match(blocks, reqs.last(), 0);
        assert forall|k: int| 0 <= k < reqs.len() implies exists|j: int|
            0 <= j < blocks.len() && block_matches(#[trigger] reqs[k], blocks[j]) by {
            if k < reqs.len() - 1 {
                assert(reqs.drop_last()[k] == reqs[k]);
            } else {
                let j = first_match_from(blocks, reqs.last(), 0)->Some_0;
                assert(block_matches(reqs[k], blocks[j]));
            }
        }
    }
}

/// The bytes that the requests of `reqs` ask for, in all.
pub open spec fn requested_total(reqs: Seq<Block>) -> nat
    decreases reqs.len(),
{
    if reqs.len() == 0 {
        0
    } else {
        requested_total(reqs.drop_last()) + reqs.last().requested_length as nat
    }
}

proof fn lemma_requested_prefix(piece: u32, len: u32, k: int)
    requires
        0 <= k <= piece_requests(piece, len).len(),
    ensures
        requested_total(piece_requests(piece, len).subrange(0, k)) == if k * DEFAULT_BLOCK_LENGTH
            <= len {
            k * DEFAULT_BLOCK_LENGTH
        } else {
            len as int
        },
    decreases k,
{
    let r = piece_requests(piece, len);
    let b = DEFAULT_BLOCK_LENGTH as int;
    let q = len as int / b;
    assert(len as int == q * b + len as int % b);
    if k > 0 {
        lemma_requested_prefix(piece, len, k - 1);
        assert(r.subrange(0, k).drop_last() =~= r.subrange(0, k - 1));
        assert(r.subrange(0, k).last() == request_block(piece, len, k - 1));
        assert((k - 1) * b < len);
    } else {
        assert(r.subrange(0, 0) =~= Seq::<Block>::empty());
    }
}

/// A piece assembled from the answers to its requests has exactly the
/// piece's length.
pub proof fn lemma_assembled_length(blocks: Seq<DownloadBlock>, piece: u32, len: u32)
    requires
        assembled(blocks, piece_requests(piece, len)) is Some,
    ensures
        assembled(blocks, piece_requests(piece, len))->Some_0.len() == len,
{
    let r = piece_requests(piece, len);
    lemma_assembled_answers(blocks, r);
    lemma_requested_prefix(piece, len, r.len() as int);
    assert(r.subrange(0, r.len() as int) =~= r);
    let b = DEFAULT_BLOCK_LENGTH as int;
    let q = len as int / b;
    assert(len as int == q * b + len as int % b);
}

} // verus!
