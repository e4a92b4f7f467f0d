//! The peer wire protocol: message frames, the handshake, bitfields, and
//! the state of one peer session.

use vstd::prelude::*;

use std::collections::HashSet;

use vstd::utf8::{
    decode_utf8, encode_utf8, encode_utf8_decode_utf8, encode_utf8_valid_utf8, is_ascii_chars,
    is_ascii_chars_encode_utf8, valid_utf8,
};

use crate::bencoding::{nat_digits, push_digits};
use crate::endian::{be32_bytes, be32_value, lemma_be32_round_trip, push_u32, read_u32};
use crate::torrent::string_from_utf8;
use crate::torrent::{Block, DownloadBlock};
use crate::util::{easy_err, error_of, Error, ErrorKind};

verus! {

/// The kinds of message after the handshake; `KeepAlive` is the empty frame.
#[derive(Clone, Copy, Debug, PartialEq, Eq, Structural)]
pub enum MessageType {
    KeepAlive,
    Choke,
    Unchoke,
    Interested,
    NotInterested,
    Have,
    Bitfield,
    Request,
    Piece,
    Cancel,
    Port,
}

/// The message kind that a wire id stands for.
pub open spec fn message_type_of(u: u8) -> Option<MessageType> {
    if u == 0 {
        Some(MessageType::Choke)
    } else if u == 1 {
        Some(MessageType::Unchoke)
    } else if u == 2 {
        Some(MessageType::Interested)
    } else if u == 3 {
        Some(MessageType::NotInterested)
    } else if u == 4 {
        Some(MessageType::Have)
    } else if u == 5 {
        Some(MessageType::Bitfield)
    } else if u == 6 {
        Some(MessageType::Request)
    } else if u == 7 {
        Some(MessageType::Piece)
    } else if u == 8 {
        Some(MessageType::Cancel)
    } else if u == 9 {
        Some(MessageType::Port)
    } else {
        None
    }
}

/// The wire id of a message kind; the keep-alive has none.
pub open spec fn message_id(t: MessageType) -> u8 {
    match t {
        MessageType::KeepAlive => 0,
        MessageType::Choke => 0,
        MessageType::Unchoke => 1,
        MessageType::Interested => 2,
        MessageType::NotInterested => 3,
        MessageType::Have => 4,
        MessageType::Bitfield => 5,
        MessageType::Request => 6,
        MessageType::Piece => 7,
        MessageType::Cancel => 8,
        MessageType::Port => 9,
    }
}

/// Whether a message kind carries a payload on the wire.
pub open spec fn has_payload(t: MessageType) -> bool {
    match t {
        MessageType::Have | MessageType::Bitfield | MessageType::Request | MessageType::Piece
        | MessageType::Cancel | MessageType::Port => true,
        _ => false,
    }
}

impl MessageType {
    /// The message kind of wire id `u`, for ids 0 to 9.
    pub fn from_u8(u: u8) -> (r: Option<MessageType>)
        ensures
            r == message_type_of(u),
    {
        match u {
            0 => Some(MessageType::Choke),
            1 => Some(MessageType::Unchoke),
            2 => Some(MessageType::Interested),
            3 => Some(MessageType::NotInterested),
            4 => Some(MessageType::Have),
            5 => Some(MessageType::Bitfield),
            6 => Some(MessageType::Request),
            7 => Some(MessageType::Piece),
            8 => Some(MessageType::Cancel),
            9 => Some(MessageType::Port),
            _ => None,
        }
    }

    /// The wire id of this kind.
    pub fn id(&self) -> (r: u8)
        ensures
            r == message_id(*self),
            *self != MessageType::KeepAlive ==> message_type_of(r) == Some(*self),
    {
        match self {
            MessageType::KeepAlive => 0,
            MessageType::Choke => 0,
            MessageType::Unchoke => 1,
            MessageType::Interested => 2,
            MessageType::NotInterested => 3,
            MessageType::Have => 4,
            MessageType::Bitfield => 5,
            MessageType::Request => 6,
            MessageType::Piece => 7,
            MessageType::Cancel => 8,
            MessageType::Port => 9,
        }
    }
}

/// A typed message and its payload.
#[derive(Debug)]
pub struct Message {
    pub message_type: MessageType,
    pub payload: Vec<u8>,
}

/// The frame of a message: a four-byte length, then the id and payload.
/// Kinds without payload are framed without one.
pub open spec fn frame_of(t: MessageType, payload: Seq<u8>) -> Seq<u8> {
    if t == MessageType::KeepAlive {
        be32_bytes(0)
    } else if !has_payload(t) {
        be32_bytes(1) + seq![message_id(t)]
    } else {
        be32_bytes((1 + payload.len()) as u32) + seq![message_id(t)] + payload
    }
}

/// The message that a frame body (what follows the length) holds.
pub open spec fn body_message(body: Seq<u8>) -> Option<(MessageType, Seq<u8>)> {
    if body.len() == 0 {
        Some((MessageType::KeepAlive, seq![]))
    } else {
        match message_type_of(body[0]) {
            Some(t) => Some((t, body.drop_first())),
            None => None,
        }
    }
}

/// The message that a whole frame holds, where its length prefix matches.
pub open spec fn frame_message(frame: Seq<u8>) -> Option<(MessageType, Seq<u8>)> {
    if frame.len() < 4 || frame.len() != 4 + be32_value(frame, 0) {
        None
    } else {
        body_message(frame.subrange(4, frame.len() as int))
    }
}

/// A message that its frame carries whole: a kind without payload has an
/// empty one, and the frame length fits in 32 bits.
pub open spec fn frameable(t: MessageType, payload: Seq<u8>) -> bool {
    &&& !has_payload(t) ==> payload.len() == 0
    &&& 1 + payload.len() <= u32::MAX
}

/// A frame of `len`, the optional id and the optional payload.
pub fn create_peer_message(len: u32, id: Option<u8>, payload: Option<&Vec<u8>>) -> (r: Vec<u8>)
    ensures
        r@ == be32_bytes(len) + match id {
            Some(i) => seq![i],
            None => seq![],
        } + match payload {
            Some(p) => p@,
            None => seq![],
        },
{
    let mut buf: Vec<u8> = Vec::new();
    push_u32(&mut buf, len);
    if let Some(i) = id {
        buf.push(i);
    }
    if let Some(p) = payload {
        let mut k: usize = 0;
        let ghost before = buf@;
        while k < p.len()
            invariant
                k <= p@.len(),
                buf@ == before + p@.subrange(0, k as int),
            decreases p@.len() - k,
        {
            buf.push(p[k]);
            k += 1;
            assert(buf@ =~= before + p@.subrange(0, k as int));
        }
        assert(p@.subrange(0, p@.len() as int) =~= p@);
    }
    assert(buf@ =~= be32_bytes(len) + match id {
        Some(i) => seq![i],
        None => seq![],
    } + match payload {
        Some(p) => p@,
        None => seq![],
    });
    buf
}

/// The frame of a message, ready to be written to the peer.
pub fn encode_message(msg: &Message) -> (r: Vec<u8>)
    requires
        1 + msg.payload@.len() <= u32::MAX,
    ensures
        r@ == frame_of(msg.message_type, msg.payload@),
{
    let t = msg.message_type;
    match t {
        MessageType::KeepAlive => {
            let r = create_peer_message(0, None, None);
            assert(r@ =~= frame_of(t, msg.payload@));
            r
        },
        MessageType::Choke | MessageType::Unchoke | MessageType::Interested
        | MessageType::NotInterested => {
            let r = create_peer_message(1, Some(t.id()), None);
            assert(r@ =~= frame_of(t, msg.payload@));
            r
        },
        _ => {
            let len = 1 + msg.payload.len() as u32;
            let r = create_peer_message(len, Some(t.id()), Some(&msg.payload));
            r
        },
    }
}

/// The length that a frame's four-byte prefix announces.
pub fn frame_length(header: &[u8]) -> (r: u32)
    requires
        header@.len() >= 4,
    ensures
        r == be32_value(header@, 0),
{
    read_u32(header, 0)
}

/// The message in a frame body: empty for a keep-alive, else an id and
/// its payload. Unknown ids are refused.
pub fn decode_message_body(body: &[u8]) -> (r: Result<Message, Error>)
    ensures
        r is Ok <==> body_message(body@) is Some,
        r is Ok ==> (r->Ok_0.message_type, r->Ok_0.payload@) == body_message(body@)->Some_0,
        r is Err ==> r->Err_0.kind == ErrorKind::Format,
{
    if body.len() == 0 {
        return Ok(Message { message_type: MessageType::KeepAlive, payload: Vec::new() });
    }
    match MessageType::from_u8(body[0]) {
        None => Err(easy_err("unknown message type")),
        Some(t) => {
            let mut payload: Vec<u8> = Vec::new();
            let mut k: usize = 1;
            while k < body.len()
                invariant
                    1 <= k <= body@.len(),
                    payload@ == body@.subrange(1, k as int),
                decreases body@.len() - k,
            {
                payload.push(body[k]);
                k += 1;
                assert(payload@ =~= body@.subrange(1, k as int));
            }
            assert(payload@ =~= body@.drop_first());
            Ok(Message { message_type: t, payload })
        },
    }
}

/// The message in a whole frame, length prefix included. A prefix that
/// does not match the frame's length is refused, as are unknown ids.
pub fn decode_message(frame: &[u8]) -> (r: Result<Message, Error>)
    ensures
        r is Ok <==> frame_message(frame@) is Some,
        r is Ok ==> (r->Ok_0.message_type, r->Ok_0.payload@) == frame_message(frame@)->Some_0,
        r is Err ==> r->Err_0.kind == ErrorKind::Format,
{
    if frame.len() < 4 {
        return Err(easy_err("frame too short"));
    }
    let n = frame_length(frame);
    if frame.len() - 4 != n as usize {
        return Err(easy_err("frame length does not match its prefix"));
    }
    let mut body: Vec<u8> = Vec::new();
    let mut k: usize = 4;
    while k < frame.len()
        invariant
            4 <= k <= frame@.len(),
            body@ == frame@.subrange(4, k as int),
        decreases frame@.len() - k,
    {
        body.push(frame[k]);
        k += 1;
        assert(body@ =~= frame@.subrange(4, k as int));
    }
    decode_message_body(body.as_slice())
}

/// Decoding the frame of a message gives the message back, for every kind.
pub proof fn lemma_message_round_trip(t: MessageType, payload: Seq<u8>)
    requires
        frameable(t, payload),
    ensures
        frame_message(frame_of(t, payload)) == Some((t, payload)),
{
    let f = frame_of(t, payload);
    if t == MessageType::KeepAlive {
        assert(f.subrange(0, 4) =~= be32_bytes(0));
        lemma_be32_round_trip(0, f, 0);
        assert(f.subrange(4, f.len() as int) =~= seq![]);
    } else if !has_payload(t) {
        assert(f.subrange(0, 4) =~= be32_bytes(1));
        lemma_be32_round_trip(1, f, 0);
        let body = f.subrange(4, f.len() as int);
        assert(body =~= seq![message_id(t)]);
        assert(body.drop_first() =~= payload);
    } else {
        let n = (1 + payload.len()) as u32;
        assert(f.subrange(0, 4) =~= be32_bytes(n));
        lemma_be32_round_trip(n, f, 0);
        let body = f.subrange(4, f.len() as int);
        assert(body =~= seq![message_id(t)] + payload);
        assert(body.drop_first() =~= payload);
    }
}

/// Whether bit `i` of a bitfield is set: bit 0 is the most significant bit
/// of byte 0.
pub open spec fn bit_set(bitfield: Seq<u8>, i: int) -> bool {
    (bitfield[i / 8] >> ((7 - i % 8) as u8)) & 1u8 == 1u8
}

/// The indices below `n` whose bit is set, in ascending order.
pub open spec fn set_bits_below(bitfield: Seq<u8>, n: int) -> Seq<usize>
    decreases n,
{
    if n <= 0 {
        seq![]
    } else if bit_set(bitfield, n - 1) {
        set_bits_below(bitfield, n - 1).push((n - 1) as usize)
    } else {
        set_bits_below(bitfield, n - 1)
    }
}

/// The piece indices that a bitfield marks, in ascending order.
pub open spec fn set_bits(bitfield: Seq<u8>) -> Seq<usize> {
    set_bits_below(bitfield, 8 * bitfield.len() as int)
}

proof fn lemma_set_bits_below_members(bitfield: Seq<u8>, n: int)
    requires
        0 <= n <= 8 * bitfield.len(),
        n <= usize::MAX,
    ensures
        forall|x: usize|
            #[trigger] set_bits_below(bitfield, n).contains(x) <==> (x < n && bit_set(
                bitfield,
                x as int,
            )),
    decreases n,
{
    if n > 0 {
        lemma_set_bits_below_members(bitfield, n - 1);
        let prev = set_bits_below(bitfield, n - 1);
        let cur = set_bits_below(bitfield, n);
        let last = (n - 1) as usize;
        assert(last == n - 1);
        if bit_set(bitfield, n - 1) {
            assert(cur == prev.push(last));
            assert forall|x: usize| #[trigger]
                cur.contains(x) <==> (x < n && bit_set(bitfield, x as int)) by {
                if x == last {
                    assert(cur[prev.len() as int] == x);
                } else {
                    if cur.contains(x) {
                        let j = choose|j: int| 0 <= j < cur.len() && cur[j] == x;
                        assert(j != prev.len());
                        assert(prev[j] == x);
                        assert(prev.contains(x));
                    }
                    if x < n && bit_set(bitfield, x as int) {
                        assert(prev.contains(x));
                        let j = choose|j: int| 0 <= j < prev.len() && prev[j] == x;
                        assert(cur[j] == x);
                    }
                }
            }
        } else {
            assert(cur == prev);
            assert forall|x: usize| #[trigger]
                cur.contains(x) <==> (x < n && bit_set(bitfield, x as int)) by {
                if x == last {
                    assert(!prev.contains(x));
                }
            }
        }
    }
}

/// A piece index is among the set bits exactly when it lies within the
/// bitfield and its bit is set.
pub proof fn lemma_set_bits_members(bitfield: Seq<u8>)
    requires
        8 * bitfield.len() <= usize::MAX,
    ensures
        forall|x: usize|
            set_bits(bitfield).contains(x) <==> (x < 8 * bitfield.len() && bit_set(
                bitfield,
                x as int,
            )),
{
    lemma_set_bits_below_members(bitfield, 8 * bitfield.len() as int);
}

/// A byte of all ones at index `k` marks the eight pieces `8k` to `8k + 7`,
/// and the top bit of byte 0 marks piece 0.
pub proof fn lemma_bitfield_full_byte(bitfield: Seq<u8>, k: int)
    requires
        0 <= k < bitfield.len(),
        bitfield[k] == 0xffu8,
    ensures
        forall|j: int| 0 <= j < 8 ==> #[trigger] bit_set(bitfield, 8 * k + j),
        bitfield[0] >= 0x80u8 ==> bit_set(bitfield, 0),
{
    assert forall|j: int| 0 <= j < 8 implies #[trigger] bit_set(bitfield, 8 * k + j) by {
        assert((8 * k + j) / 8 == k);
        assert((8 * k + j) % 8 == j);
        let s = (7 - j) as u8;
        assert(s < 8);
        assert((0xffu8 >> s) & 1u8 == 1u8) by (bit_vector)
            requires
                s < 8,
        ;
    }
    let b = bitfield[0];
    assert(b >= 0x80u8 ==> (b >> 7u8) & 1u8 == 1u8) by (bit_vector);
}

/// The indices of the set bits of a bitfield, in ascending order; bit 0
/// is the most significant bit of byte 0.
pub fn parse_bitfield(bitfield: &Vec<u8>) -> (r: Vec<usize>)
    requires
        8 * bitfield@.len() <= usize::MAX,
    ensures
        r@ == set_bits(bitfield@),
{
    let mut pieces: Vec<usize> = Vec::new();
    let n: usize = 8 * bitfield.len();
    let mut i: usize = 0;
    while i < n
        invariant
            n == 8 * bitfield@.len(),
            i <= n,
            pieces@ == set_bits_below(bitfield@, i as int),
        decreases n - i,
    {
        let byte = bitfield[i / 8];
        let shift: u8 = (7 - i % 8) as u8;
        if (byte >> shift) & 1 == 1 {
            pieces.push(i);
        }
        i += 1;
    }
    pieces
}

/// The protocol name that opens a handshake.
pub open spec fn protocol_name() -> Seq<u8> {
    seq![
        0x42u8, 0x69, 0x74, 0x54, 0x6f, 0x72, 0x72, 0x65, 0x6e, 0x74, 0x20, 0x70, 0x72, 0x6f, 0x74,
        0x6f, 0x63, 0x6f, 0x6c,
    ]
}

/// "BitTorrent protocol" in bytes.
fn protocol_bytes() -> (r: [u8; 19])
    ensures
        r@ == protocol_name(),
{
    let r: [u8; 19] = [
        0x42u8, 0x69, 0x74, 0x54, 0x6f, 0x72, 0x72, 0x65, 0x6e, 0x74, 0x20, 0x70, 0x72, 0x6f, 0x74,
        0x6f, 0x63, 0x6f, 0x6c,
    ];
    assert(r@ =~= protocol_name());
    r
}

/// The 68 bytes of a handshake: 19, the protocol name, eight zero bytes,
/// the info hash and the peer id.
pub open spec fn handshake_bytes(info_hash: Seq<u8>, peer_id: Seq<u8>) -> Seq<u8> {
    seq![19u8] + protocol_name() + Seq::new(8, |_i: int| 0u8) + info_hash + peer_id
}

/// Whether `buf` is a well-formed handshake.
pub open spec fn handshake_ok(buf: Seq<u8>) -> bool {
    buf.len() == 68 && buf[0] == 19 && buf.subrange(1, 20) == protocol_name()
}

/// The opening message of a session.
pub struct HandshakePacket {
    prot: [u8; 19],
    info_hash: [u8; 20],
    peer_id: [u8; 20],
}

/// The 20 bytes of `buf` from `at`.
pub(crate) fn take20(buf: &[u8], at: usize) -> (r: [u8; 20])
    requires
        at + 20 <= buf@.len(),
    ensures
        r@ == buf@.subrange(at as int, at + 20),
{
    let _len = buf.len();
    let mut r = [0u8; 20];
    let mut k: usize = 0;
    while k < 20
        invariant
            at + 20 <= buf@.len(),
            _len == buf@.len(),
            k <= 20,
            forall|j: int| 0 <= j < k ==> r@[j] == buf@[at + j],
        decreases 20 - k,
    {
        r[k] = buf[at + k];
        k += 1;
    }
    assert(r@ =~= buf@.subrange(at as int, at + 20));
    r
}

impl HandshakePacket {
    pub closed spec fn spec_info_hash(&self) -> Seq<u8> {
        self.info_hash@
    }

    pub closed spec fn spec_peer_id(&self) -> Seq<u8> {
        self.peer_id@
    }

    /// Our handshake for a torrent, with our peer id.
    pub fn new(info_hash: [u8; 20], peer_id: [u8; 20]) -> (r: HandshakePacket)
        ensures
            r.spec_info_hash() == info_hash@,
            r.spec_peer_id() == peer_id@,
    {
        HandshakePacket { prot: protocol_bytes(), info_hash, peer_id }
    }

    /// The remote peer's id.
    pub fn peer_id(&self) -> (r: [u8; 20])
        ensures
            r@ == self.spec_peer_id(),
    {
        self.peer_id
    }

    /// The info hash the handshake names.
    pub fn info_hash(&self) -> (r: [u8; 20])
        ensures
            r@ == self.spec_info_hash(),
    {
        self.info_hash
    }

    /// The 68 bytes on the wire.
    pub fn build(&self) -> (r: Vec<u8>)
        ensures
            r@ == handshake_bytes(self.spec_info_hash(), self.spec_peer_id()),
    {
        let mut buf: Vec<u8> = Vec::new();
        buf.push(19);
        let prot = protocol_bytes();
        let mut k: usize = 0;
        while k < 19
            invariant
                k <= 19,
                prot@ == protocol_name(),
                buf@ == seq![19u8] + prot@.subrange(0, k as int),
            decreases 19 - k,
        {
            buf.push(prot[k]);
            k += 1;
            assert(buf@ =~= seq![19u8] + prot@.subrange(0, k as int));
        }
        let mut k: usize = 0;
        while k < 8
            invariant
                k <= 8,
                buf@ == seq![19u8] + protocol_name() + Seq::new(k as nat, |_i: int| 0u8),
            decreases 8 - k,
        {
            buf.push(0);
            k += 1;
            assert(buf@ =~= seq![19u8] + protocol_name() + Seq::new(k as nat, |_i: int| 0u8));
        }
        let ghost head = buf@;
        let mut k: usize = 0;
        while k < 20
            invariant
                k <= 20,
                buf@ == head + self.info_hash@.subrange(0, k as int),
            decreases 20 - k,
        {
            buf.push(self.info_hash[k]);
            k += 1;
            assert(buf@ =~= head + self.info_hash@.subrange(0, k as int));
        }
        let ghost head2 = buf@;
        let mut k: usize = 0;
        while k < 20
            invariant
                k <= 20,
                buf@ == head2 + self.peer_id@.subrange(0, k as int),
            decreases 20 - k,
        {
            buf.push(self.peer_id[k]);
            k += 1;
            assert(buf@ =~= head2 + self.peer_id@.subrange(0, k as int));
        }
        assert(self.info_hash@.subrange(0, 20) =~= self.info_hash@);
        assert(self.peer_id@.subrange(0, 20) =~= self.peer_id@);
        buf
    }

    /// Reads a handshake: 68 bytes, opening with 19 and the protocol name.
    pub fn parse(buf: &[u8]) -> (r: Option<HandshakePacket>)
        ensures
            r is Some <==> handshake_ok(buf@),
            r is Some ==> r->Some_0.spec_info_hash() == buf@.subrange(28, 48)
                && r->Some_0.spec_peer_id() == buf@.subrange(48, 68),
    {
        if buf.len() != 68 || buf[0] != 19 {
            return None;
        }
        let prot = protocol_bytes();
        let mut k: usize = 0;
        while k < 19
            invariant
                buf@.len() == 68,
                prot@ == protocol_name(),
                k <= 19,
                forall|j: int| 0 <= j < k ==> buf@[1 + j] == prot@[j],
            decreases 19 - k,
        {
            if buf[1 + k] != prot[k] {
                assert(buf@.subrange(1, 20)[k as int] != protocol_name()[k as int]);
                return None;
            }
            k += 1;
        }
        assert(buf@.subrange(1, 20) =~= protocol_name());
        Some(HandshakePacket { prot, info_hash: take20(buf, 28), peer_id: take20(buf, 48) })
    }
}

/// A handshake built for a torrent reads back with the same info hash and
/// peer id.
pub proof fn lemma_handshake_round_trip(info_hash: Seq<u8>, peer_id: Seq<u8>)
    requires
        info_hash.len() == 20,
        peer_id.len() == 20,
    ensures
        handshake_ok(handshake_bytes(info_hash, peer_id)),
        handshake_bytes(info_hash, peer_id).subrange(28, 48) == info_hash,
        handshake_bytes(info_hash, peer_id).subrange(48, 68) == peer_id,
{
    let b = handshake_bytes(info_hash, peer_id);
    assert(b.subrange(1, 20) =~= protocol_name());
    assert(b.subrange(28, 48) =~= info_hash);
    assert(b.subrange(48, 68) =~= peer_id);
}

/// Which way data moved between us and a peer.
#[derive(Clone, Copy, Debug, PartialEq, Eq, Structural)]
pub enum DataDirection {
    UploadedToPeer,
    DownloadedFromPeer,
}

/// One logged transfer: its size, direction and time (in milliseconds).
#[derive(Clone, Copy, Debug, PartialEq, Eq, Structural)]
pub struct DataMovement {
    pub data_len: usize,
    pub direction: DataDirection,
    pub when: u64,
}

/// The bytes uploaded to the peer at times within `[lo, hi]`, over the
/// log `moves`.
pub open spec fn uploaded_within(moves: Seq<DataMovement>, lo: int, hi: int) -> nat
    decreases moves.len(),
{
    if moves.len() == 0 {
        0
    } else {
        let m = moves.last();
        uploaded_within(moves.drop_last(), lo, hi) + if m.direction == DataDirection::UploadedToPeer
            && lo <= m.when <= hi {
            m.data_len as nat
        } else {
            0
        }
    }
}

/// The entries of the log `moves` made at time `lo` or later, in order.
pub open spec fn moves_since(moves: Seq<DataMovement>, lo: int) -> Seq<DataMovement>
    decreases moves.len(),
{
    if moves.len() == 0 {
        seq![]
    } else if moves.last().when >= lo {
        moves_since(moves.drop_last(), lo).push(moves.last())
    } else {
        moves_since(moves.drop_last(), lo)
    }
}

/// The received blocks of `blocks` that belong to another piece than
/// `piece`, in order.
pub open spec fn blocks_except(blocks: Seq<DownloadBlock>, piece: u32) -> Seq<DownloadBlock>
    decreases blocks.len(),
{
    if blocks.len() == 0 {
        seq![]
    } else if blocks.last().piece_index != piece {
        blocks_except(blocks.drop_last(), piece).push(blocks.last())
    } else {
        blocks_except(blocks.drop_last(), piece)
    }
}

/// The piece indices in 32 bits that a bitfield marks.
pub open spec fn bitfield_pieces(bitfield: Seq<u8>) -> Set<u32> {
    Set::new(|x: u32| x < 8 * bitfield.len() && bit_set(bitfield, x as int))
}

/// The block that a Request or Cancel payload names.
pub open spec fn block_of(payload: Seq<u8>) -> Block {
    Block {
        piece_index: be32_value(payload, 0),
        byte_offset: be32_value(payload, 4),
        requested_length: be32_value(payload, 8),
    }
}

/// `s` without its first occurrence of `b`, if any.
pub open spec fn remove_first(s: Seq<Block>, b: Block) -> Seq<Block>
    decreases s.len(),
{
    if s.len() == 0 {
        s
    } else if s[0] == b {
        s.drop_first()
    } else {
        seq![s[0]] + remove_first(s.drop_first(), b)
    }
}

/// Whether a message's payload has the shape its kind asks for.
pub open spec fn payload_fits(t: MessageType, payload: Seq<u8>) -> bool {
    match t {
        MessageType::Have => payload.len() == 4,
        MessageType::Request | MessageType::Cancel => payload.len() >= 12,
        MessageType::Piece => payload.len() >= 9,
        _ => true,
    }
}

/// The state of one peer session; the connection itself is held by the
/// caller.
pub struct Peer {
    pub ip_address: u32,
    pub port: u16,
    /// The peer chokes us: we may not request.
    pub am_choked: bool,
    /// We told the peer that we want its pieces.
    pub am_interested: bool,
    /// We choke the peer: we do not serve its requests.
    pub peer_choked: bool,
    /// The peer wants our pieces.
    pub peer_interested: bool,
    pub peer_id: Option<[u8; 20]>,
    /// The pieces the peer claims to own.
    pub peer_has: HashSet<u32>,
    /// Requests the peer sent us, not yet served.
    pub request_queue: Vec<Block>,
    /// Blocks received, awaiting assembly.
    pub downloaded_blocks: Vec<DownloadBlock>,
    /// The transfer log, for rate accounting.
    pub data_movements: Vec<DataMovement>,
    /// When the peer last sent a message, in milliseconds.
    pub last_message_at: Option<u64>,
    pub failed_connection_attempts: u32,
}

impl Peer {
    /// A fresh session: both sides choked, neither interested.
    pub fn new(ip_address: u32, port: u16) -> (r: Peer)
        ensures
            r.ip_address == ip_address,
            r.port == port,
            r.am_choked && r.peer_choked,
            !r.am_interested && !r.peer_interested,
            r.peer_id is None,
            r.peer_has@ == Set::<u32>::empty(),
            r.request_queue@ == Seq::<Block>::empty(),
            r.downloaded_blocks@.len() == 0,
            r.data_movements@ == Seq::<DataMovement>::empty(),
            r.last_message_at is None,
            r.failed_connection_attempts == 0,
    {
        Peer {
            ip_address,
            port,
            am_choked: true,
            am_interested: false,
            peer_choked: true,
            peer_interested: false,
            peer_id: None,
            peer_has: HashSet::new(),
            request_queue: Vec::new(),
            downloaded_blocks: Vec::new(),
            data_movements: Vec::new(),
            last_message_at: None,
            failed_connection_attempts: 0,
        }
    }

    /// Whether the peer claims piece `piece_idx`.
    pub fn has_piece(&self, piece_idx: u32) -> (r: bool)
        ensures
            r == self.peer_has@.contains(piece_idx),
    {
        broadcast use vstd::std_specs::hash::group_hash_axioms;

        self.peer_has.contains(&piece_idx)
    }

    /// Adds to the pieces the peer owns each piece whose bit is set.
    pub fn use_bitfield(&mut self, bitfield: &Vec<u8>)
        ensures
            final(self).peer_has@ == old(self).peer_has@.union(bitfield_pieces(bitfield@)),
            final(self).ip_address == old(self).ip_address,
            final(self).port == old(self).port,
            final(self).am_choked == old(self).am_choked,
            final(self).am_interested == old(self).am_interested,
            final(self).peer_choked == old(self).peer_choked,
            final(self).peer_interested == old(self).peer_interested,
            final(self).peer_id == old(self).peer_id,
            final(self).request_queue@ == old(self).request_queue@,
            final(self).downloaded_blocks@ == old(self).downloaded_blocks@,
            final(self).data_movements@ == old(self).data_movements@,
            final(self).last_message_at == old(self).last_message_at,
            final(self).failed_connection_attempts == old(self).failed_connection_attempts,
    {
        broadcast use vstd::std_specs::hash::group_hash_axioms;

        let ghost start = self.peer_has@;
        let n = bitfield.len();
        let mut i: usize = 0;
        while i < n && i < 0x2000_0000
            invariant
                n == bitfield@.len(),
                i <= n,
                i <= 0x2000_0000,
                self.peer_has@ == start.union(
                    Set::new(|x: u32| x < 8 * i && bit_set(bitfield@, x as int)),
                ),
                self.ip_address == old(self).ip_address,
                self.port == old(self).port,
                self.am_choked == old(self).am_choked,
                self.am_interested == old(self).am_interested,
                self.peer_choked == old(self).peer_choked,
                self.peer_interested == old(self).peer_interested,
                self.peer_id == old(self).peer_id,
                self.request_queue@ == old(self).request_queue@,
                self.downloaded_blocks@ == old(self).downloaded_blocks@,
                self.data_movements@ == old(self).data_movements@,
                self.last_message_at == old(self).last_message_at,
                self.failed_connection_attempts == old(self).failed_connection_attempts,
            decreases n - i,
        {
            let byte = bitfield[i];
            let mut j: u8 = 0;
            while j < 8
                invariant
                    n == bitfield@.len(),
                    i < n,
                    i < 0x2000_0000,
                    byte == bitfield@[i as int],
                    j <= 8,
                    self.peer_has@ == start.union(
                        Set::new(|x: u32| x < 8 * i + j && bit_set(bitfield@, x as int)),
                    ),
                    self.ip_address == old(self).ip_address,
                    self.port == old(self).port,
                    self.am_choked == old(self).am_choked,
                    self.am_interested == old(self).am_interested,
                    self.peer_choked == old(self).peer_choked,
                    self.peer_interested == old(self).peer_interested,
                    self.peer_id == old(self).peer_id,
                    self.request_queue@ == old(self).request_queue@,
                    self.downloaded_blocks@ == old(self).downloaded_blocks@,
                    self.data_movements@ == old(self).data_movements@,
                    self.last_message_at == old(self).last_message_at,
                    self.failed_connection_attempts == old(self).failed_connection_attempts,
                decreases 8 - j,
            {
                let idx: u32 = (8 * i + j as usize) as u32;
                let set = (byte >> (7 - j)) & 1 == 1;
                proof {
                    assert(idx as int / 8 == i);
                    assert(idx as int % 8 == j);
                    assert(set == bit_set(bitfield@, idx as int));
                }
                if set {
                    self.peer_has.insert(idx);
                }
                j += 1;
                assert(self.peer_has@ =~= start.union(
                    Set::new(|x: u32| x < 8 * i + j && bit_set(bitfield@, x as int)),
                ));
            }
            i += 1;
        }
        assert forall|x: u32|
            (x < 8 * i && bit_set(bitfield@, x as int)) == #[trigger] bitfield_pieces(
                bitfield@,
            ).contains(x) by {
            assert(x < 0x1_0000_0000);
        }
        assert(self.peer_has@ =~= start.union(bitfield_pieces(bitfield@)));
    }

    /// Records our interest; gives the message to send when it changes.
    pub fn set_interested(&mut self, interested: bool) -> (r: Option<MessageType>)
        ensures
            *final(self) == (Peer { am_interested: interested, ..*old(self) }),
            r == if old(self).am_interested == interested {
                None
            } else if interested {
                Some(MessageType::Interested)
            } else {
                Some(MessageType::NotInterested)
            },
    {
        let r = if self.am_interested == interested {
            None
        } else if interested {
            Some(MessageType::Interested)
        } else {
            Some(MessageType::NotInterested)
        };
        self.am_interested = interested;
        r
    }

    /// Records whether we choke the peer; gives the message to send when it
    /// changes.
    pub fn set_choked(&mut self, choked: bool) -> (r: Option<MessageType>)
        ensures
            *final(self) == (Peer { peer_choked: choked, ..*old(self) }),
            r == if old(self).peer_choked == choked {
                None
            } else if choked {
                Some(MessageType::Choke)
            } else {
                Some(MessageType::Unchoke)
            },
    {
        let r = if self.peer_choked == choked {
            None
        } else if choked {
            Some(MessageType::Choke)
        } else {
            Some(MessageType::Unchoke)
        };
        self.peer_choked = choked;
        r
    }

    /// Whether the peer lets us request: it does not choke us.
    pub fn can_download(&self) -> (r: bool)
        ensures
            r == !self.am_choked,
    {
        !self.am_choked
    }

    /// The bytes uploaded to the peer within the last `window`
    /// milliseconds before `now`, `now` included; saturates at `u64::MAX`.
    pub fn calculate_upload_rate(&self, now: u64, window: u64) -> (r: u64)
        ensures
            r == if uploaded_within(self.data_movements@, now - window, now as int) > u64::MAX {
                u64::MAX as nat
            } else {
                uploaded_within(self.data_movements@, now - window, now as int)
            },
    {
        let lo: u64 = if now >= window {
            now - window
        } else {
            0
        };
        let ghost glo: int = now - window;
        let mut total: u64 = 0;
        let mut i: usize = 0;
        while i < self.data_movements.len()
            invariant
                i <= self.data_movements@.len(),
                lo >= glo,
                lo == 0 || lo == glo,
                total == if uploaded_within(self.data_movements@.subrange(0, i as int), glo, now as int)
                    > u64::MAX {
                    u64::MAX as nat
                } else {
                    uploaded_within(self.data_movements@.subrange(0, i as int), glo, now as int)
                },
            decreases self.data_movements@.len() - i,
        {
            let m = self.data_movements[i];
            let ghost prefix = self.data_movements@.subrange(0, i as int);
            let ghost next = self.data_movements@.subrange(0, i + 1);
            assert(next.drop_last() =~= prefix);
            assert(next.last() == m);
            if m.direction == DataDirection::UploadedToPeer && lo <= m.when && m.when <= now {
                let add = m.data_len as u64;
                if total > u64::MAX - add {
                    total = u64::MAX;
                } else {
                    total = total + add;
                }
            }
            i += 1;
        }
        assert(self.data_movements@.subrange(0, self.data_movements@.len() as int)
            =~= self.data_movements@);
        total
    }

    /// Records that the session opened at `now` (milliseconds): silence is
    /// counted from the handshake until the peer's first message.
    pub fn mark_connected(&mut self, now: u64)
        ensures
            *final(self) == (Peer { last_message_at: Some(now), ..*old(self) }),
    {
        self.last_message_at = Some(now);
    }

    /// Drops the received blocks of piece `piece`, once it is assembled.
    pub fn discard_blocks_of(&mut self, piece: u32)
        ensures
            final(self).downloaded_blocks@ == blocks_except(old(self).downloaded_blocks@, piece),
            final(self).am_choked == old(self).am_choked,
            final(self).am_interested == old(self).am_interested,
            final(self).peer_choked == old(self).peer_choked,
            final(self).peer_interested == old(self).peer_interested,
            final(self).peer_has@ == old(self).peer_has@,
            final(self).ip_address == old(self).ip_address,
            final(self).port == old(self).port,
            final(self).peer_id == old(self).peer_id,
            final(self).request_queue@ == old(self).request_queue@,
            final(self).data_movements@ == old(self).data_movements@,
            final(self).last_message_at == old(self).last_message_at,
            final(self).failed_connection_attempts == old(self).failed_connection_attempts,
    {
        let mut all: Vec<DownloadBlock> = Vec::new();
        std::mem::swap(&mut all, &mut self.downloaded_blocks);
        let ghost start = all@;
        let n = all.len();
        let mut i: usize = 0;
        while all.len() > 0
            invariant
                n == start.len(),
                start == old(self).downloaded_blocks@,
                i <= start.len(),
                all@ == start.subrange(i as int, start.len() as int),
                self.downloaded_blocks@ == blocks_except(start.subrange(0, i as int), piece),
                self.am_choked == old(self).am_choked,
                self.am_interested == old(self).am_interested,
                self.peer_choked == old(self).peer_choked,
                self.peer_interested == old(self).peer_interested,
                self.peer_has@ == old(self).peer_has@,
                self.ip_address == old(self).ip_address,
                self.port == old(self).port,
                self.peer_id == old(self).peer_id,
                self.request_queue@ == old(self).request_queue@,
                self.data_movements@ == old(self).data_movements@,
                self.last_message_at == old(self).last_message_at,
                self.failed_connection_attempts == old(self).failed_connection_attempts,
            decreases all@.len(),
        {
            let b = all.remove(0);
            let ghost post = start.subrange(0, i + 1);
            assert(post.drop_last() =~= start.subrange(0, i as int));
            assert(post.last() == b);
            if b.piece_index != piece {
                self.downloaded_blocks.push(b);
            }
            i += 1;
            assert(all@ =~= start.subrange(i as int, start.len() as int));
        }
        assert(start.subrange(0, start.len() as int) =~= start);
    }

    /// Forgets the transfers logged more than `keep` milliseconds before
    /// `now`.
    pub fn prune_movements(&mut self, now: u64, keep: u64)
        ensures
            final(self).data_movements@ == moves_since(old(self).data_movements@, now - keep),
            final(self).am_choked == old(self).am_choked,
            final(self).am_interested == old(self).am_interested,
            final(self).peer_choked == old(self).peer_choked,
            final(self).peer_interested == old(self).peer_interested,
            final(self).peer_has@ == old(self).peer_has@,
            final(self).ip_address == old(self).ip_address,
            final(self).port == old(self).port,
            final(self).peer_id == old(self).peer_id,
            final(self).request_queue@ == old(self).request_queue@,
            final(self).downloaded_blocks@ == old(self).downloaded_blocks@,
            final(self).last_message_at == old(self).last_message_at,
            final(self).failed_connection_attempts == old(self).failed_connection_attempts,
    {
        let ghost lo: int = now - keep;
        let mut all: Vec<DataMovement> = Vec::new();
        std::mem::swap(&mut all, &mut self.data_movements);
        let ghost start = all@;
        let mut i: usize = 0;
        while i < all.len()
            invariant
                start == all@,
                start == old(self).data_movements@,
                lo == now - keep,
                i <= start.len(),
                self.data_movements@ == moves_since(start.subrange(0, i as int), lo),
                self.am_choked == old(self).am_choked,
                self.am_interested == old(self).am_interested,
                self.peer_choked == old(self).peer_choked,
                self.peer_interested == old(self).peer_interested,
                self.peer_has@ == old(self).peer_has@,
                self.ip_address == old(self).ip_address,
                self.port == old(self).port,
                self.peer_id == old(self).peer_id,
                self.request_queue@ == old(self).request_queue@,
                self.downloaded_blocks@ == old(self).downloaded_blocks@,
                self.last_message_at == old(self).last_message_at,
                self.failed_connection_attempts == old(self).failed_connection_attempts,
            decreases start.len() - i,
        {
            let m = all[i];
            let ghost post = start.subrange(0, i + 1);
            assert(post.drop_last() =~= start.subrange(0, i as int));
            assert(post.last() == m);
            if now < keep || m.when >= now - keep {
                self.data_movements.push(m);
            }
            i += 1;
        }
        assert(start.subrange(0, start.len() as int) =~= start);
    }

    /// Logs an upload of `len` bytes at `now`.
    pub fn record_upload(&mut self, len: usize, now: u64)
        ensures
            final(self).data_movements@ == old(self).data_movements@.push(
                DataMovement { data_len: len, direction: DataDirection::UploadedToPeer, when: now },
            ),
            final(self).am_choked == old(self).am_choked,
            final(self).am_interested == old(self).am_interested,
            final(self).peer_choked == old(self).peer_choked,
            final(self).peer_interested == old(self).peer_interested,
            final(self).peer_has@ == old(self).peer_has@,
            final(self).ip_address == old(self).ip_address,
            final(self).port == old(self).port,
            final(self).peer_id == old(self).peer_id,
            final(self).request_queue@ == old(self).request_queue@,
            final(self).last_message_at == old(self).last_message_at,
            final(self).failed_connection_attempts == old(self).failed_connection_attempts,
    {
        self.data_movements.push(
            DataMovement { data_len: len, direction: DataDirection::UploadedToPeer, when: now },
        );
    }

    /// Applies one received message at time `now` (milliseconds): choke
    /// and interest flags, owned pieces, the request queue, received blocks
    /// and the transfer log. A payload of the wrong shape is refused and
    /// changes nothing.
    pub fn handle_message(&mut self, msg: Message, now: u64) -> (r: Result<(), Error>)
        ensures
            ({
                let t = msg.message_type;
                let p = msg.payload@;
                let o = *old(self);
                let f = *final(self);
                &&& r is Ok <==> payload_fits(t, p)
                &&& r is Err ==> r->Err_0.kind == ErrorKind::Format
                &&& f.last_message_at == if r is Ok {
                    Some(now)
                } else {
                    o.last_message_at
                }
                &&& f.am_choked == if r is Ok && t == MessageType::Choke {
                    true
                } else if r is Ok && t == MessageType::Unchoke {
                    false
                } else {
                    o.am_choked
                }
                &&& f.peer_interested == if r is Ok && t == MessageType::Interested {
                    true
                } else if r is Ok && t == MessageType::NotInterested {
                    false
                } else {
                    o.peer_interested
                }
                &&& f.peer_has@ == if r is Ok && t == MessageType::Have {
                    o.peer_has@.insert(be32_value(p, 0))
                } else if r is Ok && t == MessageType::Bitfield {
                    o.peer_has@.union(bitfield_pieces(p))
                } else {
                    o.peer_has@
                }
                &&& f.request_queue@ == if r is Ok && t == MessageType::Request {
                    o.request_queue@.push(block_of(p))
                } else if r is Ok && t == MessageType::Cancel {
                    remove_first(o.request_queue@, block_of(p))
                } else {
                    o.request_queue@
                }
                &&& if r is Ok && t == MessageType::Piece {
                    &&& f.downloaded_blocks@.len() == o.downloaded_blocks@.len() + 1
                    &&& f.downloaded_blocks@.drop_last() == o.downloaded_blocks@
                    &&& f.downloaded_blocks@.last().piece_index == be32_value(p, 0)
                    &&& f.downloaded_blocks@.last().byte_offset == be32_value(p, 4)
                    &&& f.downloaded_blocks@.last().data@ == p.subrange(8, p.len() as int)
                    &&& f.data_movements@ == o.data_movements@.push(
                        DataMovement {
                            data_len: (p.len() - 8) as usize,
                            direction: DataDirection::DownloadedFromPeer,
                            when: now,
                        },
                    )
                } else {
                    &&& f.downloaded_blocks@ == o.downloaded_blocks@
                    &&& f.data_movements@ == o.data_movements@
                }
                &&& f.am_interested == o.am_interested
                &&& f.peer_choked == o.peer_choked
                &&& f.ip_address == o.ip_address
                &&& f.port == o.port
                &&& f.peer_id == o.peer_id
                &&& f.failed_connection_attempts == o.failed_connection_attempts
            }),
    {
        broadcast use vstd::std_specs::hash::group_hash_axioms;

        let payload = msg.payload;
        match msg.message_type {
            MessageType::KeepAlive => {},
            MessageType::Choke => {
                self.am_choked = true;
            },
            MessageType::Unchoke => {
                self.am_choked = false;
            },
            MessageType::Interested => {
                self.peer_interested = true;
            },
            MessageType::NotInterested => {
                self.peer_interested = false;
            },
            MessageType::Have => {
                if payload.len() != 4 {
                    return Err(easy_err("have payload is not four bytes"));
                }
                let have_idx = read_u32(payload.as_slice(), 0);
                self.peer_has.insert(have_idx);
            },
            MessageType::Bitfield => {
                self.use_bitfield(&payload);
            },
            MessageType::Request => {
                let b = Block::parse(&payload)?;
                self.request_queue.push(b);
            },
            MessageType::Piece => {
                let db = DownloadBlock::parse(&payload)?;
                self.data_movements.push(
                    DataMovement {
                        data_len: db.data.len(),
                        direction: DataDirection::DownloadedFromPeer,
                        when: now,
                    },
                );
                self.downloaded_blocks.push(db);
            },
            MessageType::Cancel => {
                let b = Block::parse(&payload)?;
                self.cancel_request(b);
            },
            MessageType::Port => {},
        }
        self.last_message_at = Some(now);
        Ok(())
    }

    /// Drops the first queued request equal to `b`, if there is one.
    fn cancel_request(&mut self, b: Block)
        ensures
            final(self).request_queue@ == remove_first(old(self).request_queue@, b),
            final(self).am_choked == old(self).am_choked,
            final(self).am_interested == old(self).am_interested,
            final(self).peer_choked == old(self).peer_choked,
            final(self).peer_interested == old(self).peer_interested,
            final(self).peer_has@ == old(self).peer_has@,
            final(self).ip_address == old(self).ip_address,
            final(self).port == old(self).port,
            final(self).peer_id == old(self).peer_id,
            final(self).downloaded_blocks@ == old(self).downloaded_blocks@,
            final(self).data_movements@ == old(self).data_movements@,
            final(self).last_message_at == old(self).last_message_at,
            final(self).failed_connection_attempts == old(self).failed_connection_attempts,
    {
        let ghost q = self.request_queue@;
        let mut i: usize = 0;
        while i < self.request_queue.len()
            invariant
                *self == *old(self),
                self.request_queue@ == q,
                i <= q.len(),
                forall|j: int| 0 <= j < i ==> q[j] != b,
            decreases q.len() - i,
        {
            if self.request_queue[i] == b {
                proof {
                    lemma_remove_first_at(q, b, i as int);
                }
                self.request_queue.remove(i);
                assert(self.request_queue@ =~= q.subrange(0, i as int) + q.subrange(i + 1, q.len() as int));
                return;
            }
            i += 1;
        }
        proof {
            lemma_remove_first_absent(q, b);
        }
    }

    /// Checks the handshake a peer sent back and records its peer id. A
    /// malformed handshake, or one for another torrent, is refused.
    pub fn complete_handshake(&mut self, reply: &[u8], info_hash: &[u8; 20]) -> (r: Result<(), Error>)
        ensures
            r is Ok <==> handshake_ok(reply@) && reply@.subrange(28, 48) == info_hash@,
            r is Ok ==> final(self).peer_id is Some && final(self).peer_id->Some_0@ == reply@.subrange(48, 68),
            r is Err ==> r->Err_0.kind == ErrorKind::Handshake && final(self).peer_id == old(self).peer_id,
            final(self).am_choked == old(self).am_choked,
            final(self).am_interested == old(self).am_interested,
            final(self).peer_choked == old(self).peer_choked,
            final(self).peer_interested == old(self).peer_interested,
            final(self).peer_has@ == old(self).peer_has@,
            final(self).ip_address == old(self).ip_address,
            final(self).port == old(self).port,
            final(self).request_queue@ == old(self).request_queue@,
            final(self).data_movements@ == old(self).data_movements@,
            final(self).last_message_at == old(self).last_message_at,
            final(self).failed_connection_attempts == old(self).failed_connection_attempts,
    {
        match HandshakePacket::parse(reply) {
            None => Err(error_of(ErrorKind::Handshake, "malformed handshake")),
            Some(p) => {
                let theirs = p.info_hash();
                let mut k: usize = 0;
                while k < 20
                    invariant
                        k <= 20,
                        theirs@ == reply@.subrange(28, 48),
                        forall|j: int| 0 <= j < k ==> theirs@[j] == info_hash@[j],
                    decreases 20 - k,
                {
                    if theirs[k] != info_hash[k] {
                        return Err(error_of(ErrorKind::Handshake, "info hash mismatch"));
                    }
                    k += 1;
                }
                assert(theirs@ =~= info_hash@);
                self.peer_id = Some(p.peer_id());
                Ok(())
            },
        }
    }
}

proof fn lemma_remove_first_at(q: Seq<Block>, b: Block, i: int)
    requires
        0 <= i < q.len(),
        q[i] == b,
        forall|j: int| 0 <= j < i ==> q[j] != b,
    ensures
        remove_first(q, b) == q.subrange(0, i) + q.subrange(i + 1, q.len() as int),
    decreases i,
{
    if i == 0 {
        assert(q.drop_first() =~= q.subrange(1, q.len() as int));
        assert(q.subrange(0, 0) + q.subrange(1, q.len() as int) =~= q.subrange(1, q.len() as int));
    } else {
        let t = q.drop_first();
        lemma_remove_first_at(t, b, i - 1);
        assert(seq![q[0]] + (t.subrange(0, i - 1) + t.subrange(i, t.len() as int)) =~= q.subrange(0, i)
            + q.subrange(i + 1, q.len() as int));
    }
}

proof fn lemma_remove_first_absent(q: Seq<Block>, b: Block)
    requires
        forall|j: int| 0 <= j < q.len() ==> q[j] != b,
    ensures
        remove_first(q, b) == q,
    decreases q.len(),
{
    if q.len() > 0 {
        lemma_remove_first_absent(q.drop_first(), b);
        assert(seq![q[0]] + q.drop_first() =~= q);
    }
}

/// An IPv4 address in dotted decimal, as ASCII bytes.
pub open spec fn ip_bytes(ip: u32) -> Seq<u8> {
    nat_digits((ip / 0x100_0000) as nat) + seq![46u8] + nat_digits((ip / 0x1_0000 % 0x100) as nat)
        + seq![46u8] + nat_digits((ip / 0x100 % 0x100) as nat) + seq![46u8] + nat_digits(
        (ip % 0x100) as nat,
    )
}

/// ASCII bytes read as characters.
pub open spec fn ascii_text(b: Seq<u8>) -> Seq<char> {
    b.map_values(|x: u8| x as char)
}

proof fn lemma_nat_digits_ascii(n: nat)
    ensures
        forall|i: int| 0 <= i < nat_digits(n).len() ==> 48 <= #[trigger] nat_digits(n)[i] <= 57,
    decreases n,
{
    if n >= 10 {
        lemma_nat_digits_ascii(n / 10);
        let prev = nat_digits(n / 10);
        let d = (48 + n % 10) as u8;
        assert(nat_digits(n) == prev.push(d));
        assert forall|i: int| 0 <= i < nat_digits(n).len() implies 48 <= #[trigger] nat_digits(n)[i] <= 57 by {
            if i < prev.len() {
                assert(nat_digits(n)[i] == prev[i]);
            }
        }
    } else {
        assert(nat_digits(n) == seq![(48 + n) as u8]);
    }
}

/// ASCII bytes are valid UTF-8 and decode to the same characters.
proof fn lemma_ascii_utf8(b: Seq<u8>)
    requires
        forall|i: int| 0 <= i < b.len() ==> #[trigger] b[i] < 128,
    ensures
        valid_utf8(b),
        decode_utf8(b) == ascii_text(b),
{
    let c = ascii_text(b);
    assert(is_ascii_chars(c));
    is_ascii_chars_encode_utf8(c);
    assert(encode_utf8(c) =~= b);
    encode_utf8_valid_utf8(c);
    encode_utf8_decode_utf8(c);
}

/// An IPv4 address in dotted decimal.
pub fn ip_to_str(ip: u32) -> (r: String)
    ensures
        r@ == ascii_text(ip_bytes(ip)),
{
    let mut b: Vec<u8> = Vec::new();
    push_digits(&mut b, (ip / 0x100_0000) as u64);
    b.push(46);
    push_digits(&mut b, (ip / 0x1_0000 % 0x100) as u64);
    b.push(46);
    push_digits(&mut b, (ip / 0x100 % 0x100) as u64);
    b.push(46);
    push_digits(&mut b, (ip % 0x100) as u64);
    proof {
        assert(b@ =~= ip_bytes(ip));
        lemma_nat_digits_ascii((ip / 0x100_0000) as nat);
        lemma_nat_digits_ascii((ip / 0x1_0000 % 0x100) as nat);
        lemma_nat_digits_ascii((ip / 0x100 % 0x100) as nat);
        lemma_nat_digits_ascii((ip % 0x100) as nat);
        assert forall|i: int| 0 <= i < b@.len() implies #[trigger] b@[i] < 128 by {
            let l1 = nat_digits((ip / 0x100_0000) as nat).len();
            let l2 = nat_digits((ip / 0x1_0000 % 0x100) as nat).len();
            let l3 = nat_digits((ip / 0x100 % 0x100) as nat).len();
            if i < l1 {
                assert(b@[i] == nat_digits((ip / 0x100_0000) as nat)[i]);
            } else if i == l1 {
            } else if i < l1 + 1 + l2 {
                assert(b@[i] == nat_digits((ip / 0x1_0000 % 0x100) as nat)[i - l1 - 1]);
            } else if i == l1 + 1 + l2 {
            } else if i < l1 + 2 + l2 + l3 {
                assert(b@[i] == nat_digits((ip / 0x100 % 0x100) as nat)[i - l1 - l2 - 2]);
            } else if i == l1 + 2 + l2 + l3 {
            } else {
                assert(b@[i] == nat_digits((ip % 0x100) as nat)[i - l1 - l2 - l3 - 3]);
            }
        }
        lemma_ascii_utf8(b@);
    }
    match string_from_utf8(b) {
        Some(s) => s,
        None => String::new(),
    }
}

/// The client tag that opens our peer id: "dips-001-".
pub open spec fn client_tag() -> Seq<u8> {
    seq![100u8, 105, 112, 115, 45, 48, 48, 49, 45]
}

/// The eleven digits of a peer id made at time `nanos`: digit `k` is
/// `nanos / 4^k` modulo 10.
pub open spec fn id_digits(nanos: u128, k: nat) -> Seq<u8>
    decreases k,
{
    if k == 0 {
        seq![]
    } else {
        seq![(48 + nanos % 10) as u8] + id_digits(nanos / 4, (k - 1) as nat)
    }
}

/// Our 20-byte peer id for a process started at `nanos` (nanoseconds since
/// the epoch): the client tag, then eleven decimal digits taken from
/// `nanos`.
pub fn create_peer_id(nanos: u128) -> (r: [u8; 20])
    ensures
        r@ == client_tag() + id_digits(nanos, 11),
{
    let mut r: [u8; 20] = [100, 105, 112, 115, 45, 48, 48, 49, 45, 0, 0, 0, 0, 0, 0, 0, 0, 0, 0, 0];
    let ghost start = nanos;
    let mut n = nanos;
    let mut k: usize = 9;
    while k < 20
        invariant
            9 <= k <= 20,
            r@.subrange(0, 9) == client_tag(),
            r@.subrange(9, k as int) + id_digits(n, (20 - k) as nat) == id_digits(start, 11),
        decreases 20 - k,
    {
        let ghost before = r@;
        r[k] = (n % 10) as u8 + 48;
        proof {
            assert(r@.subrange(0, 9) =~= before.subrange(0, 9));
            assert(r@.subrange(9, k + 1) =~= before.subrange(9, k as int) + seq![(48 + n % 10) as u8]);
        }
        n = n / 4;
        k += 1;
    }
    proof {
        assert(r@.subrange(0, 9) =~= seq![100u8, 105, 112, 115, 45, 48, 48, 49, 45]) by {
        }
        assert(r@ =~= r@.subrange(0, 9) + r@.subrange(9, 20));
    }
    r
}

} // verus!
