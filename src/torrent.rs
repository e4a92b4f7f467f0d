//! The torrent descriptor and the block records exchanged with peers.

use vstd::prelude::*;

use vstd::utf8::{decode_utf8, valid_utf8};

use crate::bencoding::{
    canonical, canonical_entries, dict_get, dict_view, encode, lemma_dict_get_canonical,
    lemma_dict_view_index, lemma_parse_all_canonical, lemma_parse_encoded, parse_value, list_view, lookup, marshal, parse,
    parse_all, stmt_view, Bencode, Statement,
};
use crate::peer::take20;
use crate::digest::{percent_encode_all, percent_encoded, sha1_digest, sha1_of};
use crate::endian::{be32_bytes, be32_value, push_u32, read_u32};
use crate::util::{easy_err, Error, ErrorKind};

verus! {

/// The length of a requested block, but for the last block of a piece.
pub const DEFAULT_BLOCK_LENGTH: u32 = 16384;

/// The number of pieces of `total` bytes cut in pieces of `piece_len` bytes:
/// the quotient rounded up.
pub open spec fn ceil_div(total: nat, piece_len: nat) -> nat
    recommends
        piece_len > 0,
{
    if total % piece_len == 0 {
        total / piece_len
    } else {
        total / piece_len + 1
    }
}

/// An immutable torrent descriptor.
pub struct Torrent {
    /// SHA-1 of the canonical bencoded info dictionary.
    pub info_hash: [u8; 20],
    pub announce_urls: Vec<String>,
    pub piece_len: u32,
    pub piece_hashes: Vec<[u8; 20]>,
    pub total_size: u64,
}

/// A request for `requested_length` bytes at `byte_offset` of a piece.
#[derive(Clone, Copy, Debug, PartialEq, Eq, Hash, Structural)]
pub struct Block {
    pub piece_index: u32,
    pub byte_offset: u32,
    pub requested_length: u32,
}

/// Bytes of a piece as they arrived in a Piece message.
#[derive(Debug)]
pub struct DownloadBlock {
    pub piece_index: u32,
    pub byte_offset: u32,
    pub data: Vec<u8>,
}

/// The twelve bytes of a block on the wire: index, offset, length.
pub open spec fn block_bytes(b: Block) -> Seq<u8> {
    be32_bytes(b.piece_index) + be32_bytes(b.byte_offset) + be32_bytes(b.requested_length)
}

impl Block {
    pub fn new(piece_index: u32, byte_offset: u32, requested_length: u32) -> (r: Block)
        ensures
            r == (Block { piece_index, byte_offset, requested_length }),
    {
        Block { piece_index, byte_offset, requested_length }
    }

    /// Reads a block from the first twelve bytes of a Request or Cancel
    /// payload.
    pub fn parse(payload: &Vec<u8>) -> (r: Result<Block, Error>)
        ensures
            payload@.len() < 12 <==> r is Err,
            r is Err ==> r->Err_0.kind == ErrorKind::Format,
            r is Ok ==> r->Ok_0 == (Block {
                piece_index: be32_value(payload@, 0),
                byte_offset: be32_value(payload@, 4),
                requested_length: be32_value(payload@, 8),
            }),
    {
        if payload.len() < 12 {
            return Err(easy_err("payload too short to be block"));
        }
        let s = payload.as_slice();
        Ok(Block {
            piece_index: read_u32(s, 0),
            byte_offset: read_u32(s, 4),
            requested_length: read_u32(s, 8),
        })
    }

    /// The block on the wire, as a Request or Cancel payload.
    pub fn to_bytes(&self) -> (r: [u8; 12])
        ensures
            r@ == block_bytes(*self),
    {
        let mut v: Vec<u8> = Vec::new();
        push_u32(&mut v, self.piece_index);
        push_u32(&mut v, self.byte_offset);
        push_u32(&mut v, self.requested_length);
        let mut b = [0u8; 12];
        let mut k: usize = 0;
        while k < 12
            invariant
                k <= 12,
                v@ == block_bytes(*self),
                forall|j: int| 0 <= j < k ==> b@[j] == v@[j],
            decreases 12 - k,
        {
            b[k] = v[k];
            k += 1;
        }
        assert(b@ =~= block_bytes(*self));
        b
    }
}

impl DownloadBlock {
    /// Reads a Piece payload: index, offset, then the block's bytes.
    pub fn parse(payload: &Vec<u8>) -> (r: Result<DownloadBlock, Error>)
        ensures
            payload@.len() < 9 <==> r is Err,
            r is Err ==> r->Err_0.kind == ErrorKind::Format,
            r is Ok ==> r->Ok_0.piece_index == be32_value(payload@, 0) && r->Ok_0.byte_offset
                == be32_value(payload@, 4) && r->Ok_0.data@ == payload@.subrange(
                8,
                payload@.len() as int,
            ),
    {
        if payload.len() < 9 {
            return Err(easy_err("payload too short to be download block"));
        }
        let s = payload.as_slice();
        let mut data: Vec<u8> = Vec::new();
        let mut i: usize = 8;
        while i < payload.len()
            invariant
                8 <= i <= payload@.len(),
                data@ == payload@.subrange(8, i as int),
            decreases payload@.len() - i,
        {
            data.push(payload[i]);
            i += 1;
            assert(data@ =~= payload@.subrange(8, i as int));
        }
        Ok(DownloadBlock { piece_index: read_u32(s, 0), byte_offset: read_u32(s, 4), data })
    }
}

impl Torrent {
    /// The descriptor's invariant: positive piece length, one hash for
    /// each piece, and a piece count that fits in 32 bits.
    pub open spec fn wf(&self) -> bool {
        &&& self.piece_len > 0
        &&& self.piece_hashes@.len() == ceil_div(self.total_size as nat, self.piece_len as nat)
        &&& self.piece_hashes@.len() <= u32::MAX
    }

    /// The number of pieces.
    pub open spec fn piece_count(&self) -> nat {
        ceil_div(self.total_size as nat, self.piece_len as nat)
    }

    /// The length of piece `i`: the piece length, but for the last piece,
    /// which holds what is left of the total size.
    pub open spec fn piece_len_of(&self, i: int) -> int {
        if i == self.piece_count() - 1 {
            self.total_size - (self.piece_count() - 1) * self.piece_len
        } else {
            self.piece_len as int
        }
    }

    /// The byte offset of piece `i` in the content.
    pub open spec fn piece_offset(&self, i: int) -> int {
        i * self.piece_len
    }

    /// A descriptor from its parts, refused where the number of hashes is
    /// not the number of pieces.
    pub fn new(
        info_hash: [u8; 20],
        announce_urls: Vec<String>,
        piece_len: u32,
        piece_hashes: Vec<[u8; 20]>,
        total_size: u64,
    ) -> (r: Result<Torrent, Error>)
        ensures
            r is Ok <==> piece_len > 0 && piece_hashes@.len() == ceil_div(
                total_size as nat,
                piece_len as nat,
            ) && piece_hashes@.len() <= u32::MAX,
            r is Ok ==> r->Ok_0.wf() && r->Ok_0.info_hash == info_hash && r->Ok_0.announce_urls@
                == announce_urls@ && r->Ok_0.piece_len == piece_len && r->Ok_0.piece_hashes@
                == piece_hashes@ && r->Ok_0.total_size == total_size,
            r is Err ==> r->Err_0.kind == ErrorKind::Format,
    {
        if piece_len == 0 {
            return Err(easy_err("piece length is zero"));
        }
        let count = count_pieces(total_size, piece_len);
        if count != piece_hashes.len() as u64 {
            return Err(easy_err("total piece count is not equal to piece hashes length"));
        }
        if piece_hashes.len() > u32::MAX as usize {
            return Err(easy_err("too many pieces"));
        }
        Ok(Torrent { info_hash, announce_urls, piece_len, piece_hashes, total_size })
    }

    /// The number of pieces: the total size divided by the piece length,
    /// rounded up.
    pub fn get_total_piece_count(&self) -> (r: u32)
        requires
            self.wf(),
        ensures
            r == self.piece_count(),
            r == self.piece_hashes@.len(),
    {
        let n = count_pieces(self.total_size, self.piece_len);
        n as u32
    }

    /// The length of piece `piece`: the piece length, except for the last
    /// piece, which is the remainder of the total size.
    pub fn get_piece_len(&self, piece: u32) -> (r: u32)
        requires
            self.wf(),
            piece < self.piece_count(),
        ensures
            r == self.piece_len_of(piece as int),
            0 < r <= self.piece_len,
    {
        let count = self.get_total_piece_count();
        proof {
            lemma_last_piece_bounds(self.total_size as nat, self.piece_len as nat);
        }
        if piece == count - 1 {
            let before: u64 = (count - 1) as u64 * self.piece_len as u64;
            (self.total_size - before) as u32
        } else {
            self.piece_len
        }
    }

    /// The info hash percent-encoded: letters and digits kept, every other
    /// byte written `%XX`.
    pub fn get_info_hash_str(&self) -> (r: String)
        ensures
            r@ == percent_encoded(self.info_hash@),
    {
        percent_encode_all(self.info_hash.as_slice())
    }
}

/// The number of pieces of `total` bytes in pieces of `piece_len` bytes.
fn count_pieces(total: u64, piece_len: u32) -> (r: u64)
    requires
        piece_len > 0,
    ensures
        r == ceil_div(total as nat, piece_len as nat),
{
    let q = total / piece_len as u64;
    proof {
        lemma_quotient_small(total as nat, piece_len as nat);
    }
    if total % piece_len as u64 == 0 {
        q
    } else {
        q + 1
    }
}

proof fn lemma_quotient_small(total: nat, piece_len: nat)
    requires
        piece_len > 0,
        total <= u64::MAX,
    ensures
        total / piece_len < u64::MAX || piece_len == 1,
        piece_len == 1 ==> total % piece_len == 0,
{
    if piece_len > 1 {
        assert(total / piece_len <= total / 2) by (nonlinear_arith)
            requires
                piece_len >= 2,
        ;
    }
}

/// Over a positive piece count, the last piece holds between one byte and a
/// whole piece length.
pub proof fn lemma_last_piece_bounds(total: nat, piece_len: nat)
    requires
        piece_len > 0,
        ceil_div(total, piece_len) > 0,
    ensures
        ({
            let n = ceil_div(total, piece_len);
            0 < total - (n - 1) * piece_len <= piece_len
        }),
{
    let q = total / piece_len;
    let r = total % piece_len;
    assert(total == piece_len * q + r) by (nonlinear_arith)
        requires
            piece_len > 0,
            q == total / piece_len,
            r == total % piece_len,
    ;
    let n = ceil_div(total, piece_len);
    if r == 0 {
        assert(n == q);
        assert(total - (q - 1) * piece_len == piece_len) by (nonlinear_arith)
            requires
                total == piece_len * q + r,
                r == 0,
        ;
    } else {
        assert(n == q + 1);
        assert(total - q * piece_len == r) by (nonlinear_arith)
            requires
                total == piece_len * q + r,
        ;
        assert(r < piece_len);
    }
}

/// The last piece's length: what is left after the full pieces when the
/// piece length does not divide the total size, and a whole piece length
/// when it does.
pub proof fn lemma_final_piece_len(t: &Torrent)
    requires
        t.wf(),
        t.piece_count() > 0,
    ensures
        t.total_size as int % t.piece_len as int != 0 ==> t.piece_len_of(t.piece_count() - 1)
            == t.total_size - (t.piece_count() - 1) * t.piece_len,
        t.total_size as int % t.piece_len as int == 0 ==> t.piece_len_of(t.piece_count() - 1)
            == t.piece_len,
{
    let total = t.total_size as nat;
    let pl = t.piece_len as nat;
    let q = total / pl;
    assert(total == pl * q + total % pl) by (nonlinear_arith)
        requires
            pl > 0,
            q == total / pl,
    ;
    if total % pl == 0 {
        assert((q - 1) * pl == q * pl - pl) by (nonlinear_arith);
        assert(q * pl == pl * q) by (nonlinear_arith);
    }
}

/// Every piece lies within the content: its offset plus its length is at
/// most the total size.
pub proof fn lemma_piece_within(t: &Torrent, i: int)
    requires
        t.wf(),
        0 <= i < t.piece_count(),
    ensures
        0 < t.piece_len_of(i),
        t.piece_offset(i) + t.piece_len_of(i) <= t.total_size,
{
    lemma_last_piece_bounds(t.total_size as nat, t.piece_len as nat);
    let n = t.piece_count() as int;
    let pl = t.piece_len as int;
    if i < n - 1 {
        assert((i + 1) * pl <= (n - 1) * pl) by (nonlinear_arith)
            requires
                i + 1 <= n - 1,
                pl > 0,
        ;
        assert(i * pl + pl == (i + 1) * pl) by (nonlinear_arith);
    }
}

// ---------------------------------------------------------------------
// The metainfo file

pub open spec fn key_announce() -> Seq<u8> {
    seq![97u8, 110, 110, 111, 117, 110, 99, 101]
}

pub open spec fn key_announce_list() -> Seq<u8> {
    key_announce() + seq![45u8, 108, 105, 115, 116]
}

pub open spec fn key_info() -> Seq<u8> {
    seq![105u8, 110, 102, 111]
}

pub open spec fn key_length() -> Seq<u8> {
    seq![108u8, 101, 110, 103, 116, 104]
}

pub open spec fn key_files() -> Seq<u8> {
    seq![102u8, 105, 108, 101, 115]
}

pub open spec fn key_piece_length() -> Seq<u8> {
    seq![112u8, 105, 101, 99, 101, 32] + key_length()
}

pub open spec fn key_pieces() -> Seq<u8> {
    seq![112u8, 105, 101, 99, 101, 115]
}

/// Whether a URL is a UDP tracker's: it starts with `udp://`.
pub open spec fn is_udp_url(u: Seq<u8>) -> bool {
    u.len() >= 6 && u.subrange(0, 6) == seq![117u8, 100, 112, 58, 47, 47]
}

/// Whether a URL starts with `udp://`.
fn is_udp(u: &Vec<u8>) -> (r: bool)
    ensures
        r == is_udp_url(u@),
{
    if u.len() < 6 {
        return false;
    }
    let r = u[0] == 117 && u[1] == 100 && u[2] == 112 && u[3] == 58 && u[4] == 47 && u[5] == 47;
    proof {
        if r {
            assert(u@.subrange(0, 6) =~= seq![117u8, 100, 112, 58, 47, 47]);
        } else if u@.subrange(0, 6) == seq![117u8, 100, 112, 58, 47, 47] {
            assert(u@.subrange(0, 6)[0] == u@[0]);
            assert(u@.subrange(0, 6)[1] == u@[1]);
            assert(u@.subrange(0, 6)[2] == u@[2]);
            assert(u@.subrange(0, 6)[3] == u@[3]);
            assert(u@.subrange(0, 6)[4] == u@[4]);
            assert(u@.subrange(0, 6)[5] == u@[5]);
        }
    }
    r
}

/// The UDP tracker URLs (those starting with `udp://`) of a list whose
/// every item is a byte string; other URLs are skipped.
pub open spec fn bytes_list(items: Seq<Bencode>) -> Option<Seq<Seq<u8>>>
    decreases items.len(),
{
    if items.len() == 0 {
        Some(seq![])
    } else {
        match (bytes_list(items.drop_last()), items.last()) {
            (Some(prev), Bencode::Bytes(b)) => Some(
                if is_udp_url(b) {
                    prev.push(b)
                } else {
                    prev
                },
            ),
            _ => None,
        }
    }
}

/// The UDP URLs of an announce list: a list of lists of byte strings,
/// flattened in order.
pub open spec fn url_list(lists: Seq<Bencode>) -> Option<Seq<Seq<u8>>>
    decreases lists.len(),
{
    if lists.len() == 0 {
        Some(seq![])
    } else {
        match (url_list(lists.drop_last()), lists.last()) {
            (Some(prev), Bencode::List(inner)) => match bytes_list(inner) {
                Some(b) => Some(prev + b),
                None => None,
            },
            _ => None,
        }
    }
}

/// The UDP tracker URLs of a metainfo dictionary: those of the announce list
/// when there is one, else the single announce URL if it is a UDP one.
pub open spec fn announce_of(meta: Seq<(Seq<u8>, Bencode)>) -> Option<Seq<Seq<u8>>> {
    match dict_get(meta, key_announce_list()) {
        Some(Bencode::List(lists)) => url_list(lists),
        Some(_) => None,
        None => match dict_get(meta, key_announce()) {
            Some(Bencode::Bytes(u)) => Some(
                if is_udp_url(u) {
                    seq![u]
                } else {
                    seq![]
                },
            ),
            _ => None,
        },
    }
}

/// The length of a file entry: a dictionary with a non-negative integer
/// `length`.
pub open spec fn file_len_of(v: Bencode) -> Option<nat> {
    match v {
        Bencode::Dict(d) => match dict_get(d, key_length()) {
            Some(Bencode::Int(n)) => if n >= 0 {
                Some(n as nat)
            } else {
                None
            },
            _ => None,
        },
        _ => None,
    }
}

/// The sum of the lengths of the file entries that have one.
pub open spec fn files_total(files: Seq<Bencode>) -> nat
    decreases files.len(),
{
    if files.len() == 0 {
        0
    } else {
        files_total(files.drop_last()) + match file_len_of(files.last()) {
            Some(n) => n,
            None => 0,
        }
    }
}

/// The content length of an info dictionary: its `length` (single file),
/// else the sum over its `files`.
pub open spec fn total_of(info: Seq<(Seq<u8>, Bencode)>) -> Option<nat> {
    match dict_get(info, key_length()) {
        Some(Bencode::Int(n)) if n >= 0 => Some(n as nat),
        _ => match dict_get(info, key_files()) {
            Some(Bencode::List(fs)) => Some(files_total(fs)),
            _ => None,
        },
    }
}

/// The parts of a torrent descriptor that a metainfo file gives.
pub struct MetainfoModel {
    pub info: Bencode,
    pub urls: Seq<Seq<u8>>,
    pub piece_len: nat,
    pub pieces: Seq<u8>,
    pub total: nat,
}

/// What a metainfo file holds: a first value that is a non-empty
/// dictionary, with announce URLs and an info dictionary that has a
/// positive 32-bit piece length, concatenated 20-byte piece hashes, and a
/// content length.
pub open spec fn metainfo_of(buf: Seq<u8>) -> Option<MetainfoModel> {
    match parse_all(buf, 0, seq![]) {
        Some(vs) => if vs.len() == 0 {
            None
        } else {
            match vs[0] {
                Bencode::Dict(meta) => if meta.len() == 0 {
                    None
                } else {
                    match (announce_of(meta), dict_get(meta, key_info())) {
                        (Some(urls), Some(Bencode::Dict(info))) => match (
                            dict_get(info, key_piece_length()),
                            dict_get(info, key_pieces()),
                            total_of(info),
                        ) {
                            (Some(Bencode::Int(pl)), Some(Bencode::Bytes(pieces)), Some(total)) => if 0
                                < pl <= u32::MAX && pieces.len() % 20 == 0 {
                                Some(
                                    MetainfoModel {
                                        info: Bencode::Dict(info),
                                        urls,
                                        piece_len: pl as nat,
                                        pieces,
                                        total,
                                    },
                                )
                            } else {
                                None
                            },
                            _ => None,
                        },
                        _ => None,
                    }
                },
                _ => None,
            }
        },
        None => None,
    }
}

/// Whether a metainfo model makes a descriptor: the total fits in 64 bits,
/// the URLs are UTF-8, and there is one hash per piece.
pub open spec fn metainfo_ok(m: MetainfoModel) -> bool {
    &&& m.total <= u64::MAX
    &&& forall|i: int| 0 <= i < m.urls.len() ==> valid_utf8(#[trigger] m.urls[i])
    &&& m.pieces.len() / 20 == ceil_div(m.total, m.piece_len)
    &&& m.pieces.len() / 20 <= u32::MAX
}

/// Relies on String::from_utf8: `Ok` exactly for valid UTF-8, holding the
/// decoded characters.
#[verifier::external_body]
pub(crate) fn string_from_utf8(b: Vec<u8>) -> (r: Option<String>)
    ensures
        r is Some <==> valid_utf8(b@),
        r matches Some(s) ==> s@ == decode_utf8(b@),
{
    String::from_utf8(b).ok()
}

/// The bytes of a key, as an owned vector.
fn key_bytes(k: &[u8]) -> (r: Vec<u8>)
    ensures
        r@ == k@,
{
    let mut r: Vec<u8> = Vec::new();
    let mut i: usize = 0;
    while i < k.len()
        invariant
            i <= k@.len(),
            r@ == k@.subrange(0, i as int),
        decreases k@.len() - i,
    {
        r.push(k[i]);
        i += 1;
        assert(r@ =~= k@.subrange(0, i as int));
    }
    assert(r@ =~= k@);
    r
}

/// The length a file entry gives: a dictionary with a non-negative integer
/// `length`.
pub fn get_file_len(d: &Statement) -> (r: Option<u64>)
    ensures
        r matches Some(n) ==> file_len_of(stmt_view(*d)) == Some(n as nat),
        r is None ==> file_len_of(stmt_view(*d)) is None,
{
    let key: [u8; 6] = [108, 101, 110, 103, 116, 104];
    assert(key@ =~= key_length());
    match d {
        Statement::Dictionary(dict) => match lookup(dict, key.as_slice()) {
            Some(Statement::Integer(n)) => if *n >= 0 {
                Some(*n as u64)
            } else {
                None
            },
            _ => None,
        },
        _ => None,
    }
}

/// The announce URLs of a metainfo dictionary, as bytes.
fn announce_bytes_of(meta: &Vec<(Vec<u8>, Statement)>) -> (r: Result<Vec<Vec<u8>>, Error>)
    ensures
        r is Ok <==> announce_of(dict_view(meta@)) is Some,
        r matches Ok(v) ==> ({
            let urls = announce_of(dict_view(meta@))->Some_0;
            &&& v@.len() == urls.len()
            &&& forall|i: int| 0 <= i < urls.len() ==> (#[trigger] v@[i])@ == urls[i]
        }),
        r is Err ==> r->Err_0.kind == ErrorKind::Format,
{
    let k_list: [u8; 13] = [97, 110, 110, 111, 117, 110, 99, 101, 45, 108, 105, 115, 116];
    let k_one: [u8; 8] = [97, 110, 110, 111, 117, 110, 99, 101];
    assert(k_list@ =~= key_announce_list());
    assert(k_one@ =~= key_announce());
    let mut out: Vec<Vec<u8>> = Vec::new();
    match lookup(meta, k_list.as_slice()) {
        Some(Statement::List(lists)) => {
            let ghost lv = list_view(lists@);
            proof {
                lemma_list_view_index(lists@);
            }
            let ghost mut urls: Seq<Seq<u8>> = seq![];
            assert(announce_of(dict_view(meta@)) == url_list(lv));
            let mut i: usize = 0;
            while i < lists.len()
                invariant
                    announce_of(dict_view(meta@)) == url_list(lv),
                    i <= lists@.len(),
                    lv == list_view(lists@),
                    lv.len() == lists@.len(),
                    forall|j: int| 0 <= j < lv.len() ==> #[trigger] lv[j] == stmt_view(lists@[j]),
                    url_list(lv.subrange(0, i as int)) == Some(urls),
                    out@.len() == urls.len(),
                    forall|j: int| 0 <= j < urls.len() ==> (#[trigger] out@[j])@ == urls[j],
                decreases lists@.len() - i,
            {
                let ghost pre = lv.subrange(0, i as int);
                let ghost post = lv.subrange(0, i + 1);
                assert(post.drop_last() =~= pre);
                match &lists[i] {
                    Statement::List(inner) => {
                        let ghost iv = list_view(inner@);
                        proof {
                            lemma_list_view_index(inner@);
                            assert(lv[i as int] == stmt_view(lists@[i as int]));
                        }
                        let ghost base = urls;
                        let ghost mut got: Seq<Seq<u8>> = seq![];
                        let mut j: usize = 0;
                        while j < inner.len()
                            invariant
                                announce_of(dict_view(meta@)) == url_list(lv),
                                i < lv.len(),
                                lv == list_view(lists@),
                                lv.len() == lists@.len(),
                                lv[i as int] == Bencode::List(iv),
                                url_list(lv.subrange(0, i as int)) == Some(base),
                                j <= inner@.len(),
                                iv == list_view(inner@),
                                iv.len() == inner@.len(),
                                forall|q: int| 0 <= q < iv.len() ==> #[trigger] iv[q] == stmt_view(inner@[q]),
                                bytes_list(iv.subrange(0, j as int)) == Some(got),
                                urls == base + got,
                                out@.len() == urls.len(),
                                forall|q: int| 0 <= q < urls.len() ==> (#[trigger] out@[q])@ == urls[q],
                            decreases inner@.len() - j,
                        {
                            let ghost ipre = iv.subrange(0, j as int);
                            let ghost ipost = iv.subrange(0, j + 1);
                            assert(ipost.drop_last() =~= ipre);
                            match &inner[j] {
                                Statement::ByteString(b) => {
                                    let ghost bb = b@;
                                    if is_udp(b) {
                                        out.push(key_bytes(b.as_slice()));
                                        proof {
                                            got = got.push(bb);
                                            urls = urls.push(bb);
                                            assert(urls =~= base + got);
                                        }
                                    }
                                },
                                _ => {
                                    proof {
                                        assert(iv[j as int] == stmt_view(inner@[j as int]));
                                        assert(!(iv[j as int] is Bytes));
                                        lemma_bytes_list_none(iv, j as int);
                                        lemma_url_list_none(lv, i as int);
                                    }
                                    return Err(easy_err("announce list url is not string"));
                                },
                            }
                            j += 1;
                        }
                        assert(iv.subrange(0, iv.len() as int) =~= iv);
                    },
                    _ => {
                        proof {
                            assert(lv[i as int] == stmt_view(lists@[i as int]));
                            assert(!(lv[i as int] is List));
                            lemma_url_list_none(lv, i as int);
                        }
                        return Err(easy_err("announce list element is not list"));
                    },
                }
                i += 1;
            }
            assert(lv.subrange(0, lv.len() as int) =~= lv);
            Ok(out)
        },
        Some(_) => Err(easy_err("announce list is not list")),
        None => match lookup(meta, k_one.as_slice()) {
            Some(Statement::ByteString(link)) => {
                if is_udp(link) {
                    out.push(key_bytes(link.as_slice()));
                }
                Ok(out)
            },
            _ => Err(easy_err("announce url is missing or not string")),
        },
    }
}

/// Each byte string as UTF-8 text; refused where one is not UTF-8.
fn to_strings(raw: Vec<Vec<u8>>) -> (r: Result<Vec<String>, Error>)
    ensures
        r is Ok <==> forall|i: int| 0 <= i < raw@.len() ==> valid_utf8(#[trigger] raw@[i]@),
        r matches Ok(v) ==> v@.len() == raw@.len() && forall|i: int|
            0 <= i < raw@.len() ==> (#[trigger] v@[i])@ == decode_utf8(raw@[i]@),
        r is Err ==> r->Err_0.kind == ErrorKind::Format,
{
    let mut out: Vec<String> = Vec::new();
    let mut i: usize = 0;
    while i < raw.len()
        invariant
            i <= raw@.len(),
            out@.len() == i,
            forall|j: int| 0 <= j < i ==> valid_utf8(#[trigger] raw@[j]@),
            forall|j: int| 0 <= j < i ==> (#[trigger] out@[j])@ == decode_utf8(raw@[j]@),
        decreases raw@.len() - i,
    {
        match string_from_utf8(raw[i].clone()) {
            Some(st) => {
                out.push(st);
            },
            None => {
                return Err(easy_err("announce url is not utf-8"));
            },
        }
        i += 1;
    }
    Ok(out)
}

proof fn lemma_list_view_index(l: Seq<Statement>)
    ensures
        list_view(l).len() == l.len(),
        forall|j: int| 0 <= j < l.len() ==> #[trigger] list_view(l)[j] == stmt_view(l[j]),
    decreases l.len(),
{
    if l.len() > 0 {
        lemma_list_view_index(l.drop_last());
    }
}

/// A list item that is not a byte string leaves no byte-string list.
proof fn lemma_bytes_list_none(items: Seq<Bencode>, j: int)
    requires
        0 <= j < items.len(),
        !(items[j] is Bytes),
    ensures
        bytes_list(items) is None,
    decreases items.len(),
{
    if j < items.len() - 1 {
        lemma_bytes_list_none(items.drop_last(), j);
    }
}

/// An announce list whose item `i` is no list of byte strings gives no
/// URLs.
proof fn lemma_url_list_none(lists: Seq<Bencode>, i: int)
    requires
        0 <= i < lists.len(),
        !(lists[i] matches Bencode::List(inner) && bytes_list(inner) is Some),
    ensures
        url_list(lists) is None,
    decreases lists.len(),
{
    if i < lists.len() - 1 {
        lemma_url_list_none(lists.drop_last(), i);
    }
}

proof fn lemma_files_total_grows(files: Seq<Bencode>, i: int)
    requires
        0 <= i <= files.len(),
    ensures
        files_total(files.subrange(0, i)) <= files_total(files),
    decreases files.len() - i,
{
    if i < files.len() {
        lemma_files_total_grows(files, i + 1);
        assert(files.subrange(0, i + 1).drop_last() =~= files.subrange(0, i));
    } else {
        assert(files.subrange(0, i) =~= files);
    }
}

/// The content length of an info dictionary.
fn total_size_of(info: &Vec<(Vec<u8>, Statement)>) -> (r: Result<u64, Error>)
    ensures
        r is Ok <==> (total_of(dict_view(info@)) matches Some(t) && t <= u64::MAX),
        r matches Ok(v) ==> total_of(dict_view(info@)) == Some(v as nat),
        r is Err ==> r->Err_0.kind == ErrorKind::Format,
{
    let k_len: [u8; 6] = [108, 101, 110, 103, 116, 104];
    let k_files: [u8; 5] = [102, 105, 108, 101, 115];
    assert(k_len@ =~= key_length());
    assert(k_files@ =~= key_files());
    if let Some(Statement::Integer(n)) = lookup(info, k_len.as_slice()) {
        if *n >= 0 {
            return Ok(*n as u64);
        }
    }
    match lookup(info, k_files.as_slice()) {
        Some(Statement::List(fs)) => {
            let ghost fv = list_view(fs@);
            proof {
                lemma_list_view_index(fs@);
            }
            assert(total_of(dict_view(info@)) == Some(files_total(fv)));
            let mut total: u64 = 0;
            let mut i: usize = 0;
            while i < fs.len()
                invariant
                    total_of(dict_view(info@)) == Some(files_total(fv)),
                    fv == list_view(fs@),
                    fv.len() == fs@.len(),
                    forall|j: int| 0 <= j < fv.len() ==> #[trigger] fv[j] == stmt_view(fs@[j]),
                    i <= fs@.len(),
                    total == files_total(fv.subrange(0, i as int)),
                decreases fs@.len() - i,
            {
                let ghost post = fv.subrange(0, i + 1);
                assert(post.drop_last() =~= fv.subrange(0, i as int));
                match get_file_len(&fs[i]) {
                    Some(n) => {
                        if total > u64::MAX - n {
                            proof {
                                lemma_files_total_grows(fv, i + 1);
                            }
                            return Err(easy_err("total length does not fit in 64 bits"));
                        }
                        total = total + n;
                    },
                    None => {},
                }
                i += 1;
            }
            assert(fv.subrange(0, fv.len() as int) =~= fv);
            Ok(total)
        },
        _ => Err(easy_err("info has no length")),
    }
}

/// The 20-byte hashes that `pieces` concatenates.
fn piece_hashes_of(pieces: &Vec<u8>) -> (r: Vec<[u8; 20]>)
    requires
        pieces@.len() % 20 == 0,
    ensures
        r@.len() == pieces@.len() / 20,
        forall|i: int|
            0 <= i < r@.len() ==> (#[trigger] r@[i])@ == pieces@.subrange(20 * i, 20 * i + 20),
{
    let len = pieces.len();
    let n = len / 20;
    let mut r: Vec<[u8; 20]> = Vec::new();
    let mut i: usize = 0;
    while i < n
        invariant
            len == pieces@.len(),
            n == pieces@.len() / 20,
            pieces@.len() % 20 == 0,
            i <= n,
            r@.len() == i,
            forall|j: int| 0 <= j < i ==> (#[trigger] r@[j])@ == pieces@.subrange(20 * j, 20 * j + 20),
        decreases n - i,
    {
        assert(20 * i + 20 <= pieces@.len());
        r.push(take20(pieces.as_slice(), 20 * i));
        i += 1;
    }
    r
}

impl Torrent {
    /// Reads a metainfo file into a descriptor: the announce URLs, the info
    /// hash (SHA-1 of the bencoded info dictionary), the piece length, the
    /// piece hashes and the content length. Refused where the file is
    /// malformed or the number of hashes is not the number of pieces.
    pub fn parse(buf: Vec<u8>) -> (r: Result<Torrent, Error>)
        ensures
            r is Ok <==> (metainfo_of(buf@) matches Some(m) && metainfo_ok(m)),
            r matches Ok(t) ==> ({
                let m = metainfo_of(buf@)->Some_0;
                &&& t.wf()
                &&& t.info_hash@ == sha1_of(encode(m.info))
                &&& t.piece_len == m.piece_len
                &&& t.total_size == m.total
                &&& t.piece_hashes@.len() == m.pieces.len() / 20
                &&& forall|i: int|
                    0 <= i < t.piece_hashes@.len() ==> (#[trigger] t.piece_hashes@[i])@
                        == m.pieces.subrange(20 * i, 20 * i + 20)
                &&& t.announce_urls@.len() == m.urls.len()
                &&& forall|i: int|
                    0 <= i < m.urls.len() ==> (#[trigger] t.announce_urls@[i])@ == decode_utf8(m.urls[i])
            }),
            r is Err ==> r->Err_0.kind == ErrorKind::Format,
    {
        let statements = parse(&buf)?;
        proof {
            lemma_list_view_index(statements@);
        }
        if statements.len() == 0 {
            return Err(easy_err("got no statements"));
        }
        let meta = match &statements[0] {
            Statement::Dictionary(map) => map,
            _ => {
                return Err(easy_err("metainfo dict is not dict"));
            },
        };
        proof {
            lemma_dict_view_index(meta@);
        }
        if meta.len() == 0 {
            return Err(easy_err("metainfo dict is empty"));
        }
        let raw = announce_bytes_of(meta)?;
        let k_info: [u8; 4] = [105, 110, 102, 111];
        assert(k_info@ =~= key_info());
        let info_stmt = match lookup(meta, k_info.as_slice()) {
            Some(s) => s,
            None => {
                return Err(easy_err("metainfo has no info"));
            },
        };
        let info = match info_stmt {
            Statement::Dictionary(map) => map,
            _ => {
                return Err(easy_err("info dict is not dict"));
            },
        };
        let k_pl: [u8; 12] = [112, 105, 101, 99, 101, 32, 108, 101, 110, 103, 116, 104];
        assert(k_pl@ =~= key_piece_length());
        let piece_length: u32 = match lookup(info, k_pl.as_slice()) {
            Some(Statement::Integer(pl)) => {
                if *pl <= 0 || *pl > u32::MAX as i64 {
                    return Err(easy_err("piece length is out of range"));
                }
                *pl as u32
            },
            _ => {
                return Err(easy_err("info has no piece length"));
            },
        };
        let k_pieces: [u8; 6] = [112, 105, 101, 99, 101, 115];
        assert(k_pieces@ =~= key_pieces());
        let pieces = match lookup(info, k_pieces.as_slice()) {
            Some(Statement::ByteString(p)) => p,
            _ => {
                return Err(easy_err("info has no pieces"));
            },
        };
        if pieces.len() % 20 != 0 {
            return Err(easy_err("pieces length is not a multiple of 20"));
        }
        let total = total_size_of(info)?;
        proof {
            let vs = parse_all(buf@, 0, seq![])->Some_0;
            assert(vs[0] == stmt_view(statements@[0]));
            assert(vs[0] == Bencode::Dict(dict_view(meta@)));
            let md = dict_view(meta@);
            assert(dict_get(md, key_info()) == Some(Bencode::Dict(dict_view(info@))));
            let id = dict_view(info@);
            assert(dict_get(id, key_piece_length()) == Some(Bencode::Int(piece_length as int)));
            assert(dict_get(id, key_pieces()) == Some(Bencode::Bytes(pieces@)));
            let m = metainfo_of(buf@)->Some_0;
            assert(metainfo_of(buf@) is Some);
            assert(m.info == stmt_view(*info_stmt));
            assert(m.urls == announce_of(md)->Some_0);
            assert(m.pieces == pieces@);
            assert(m.piece_len == piece_length);
            assert(m.total == total);
            assert(forall|i: int| 0 <= i < m.urls.len() ==> valid_utf8(#[trigger] m.urls[i]) == valid_utf8(raw@[i]@));
        }
        let urls = to_strings(raw)?;
        proof {
            lemma_parse_all_canonical(buf@, 0, seq![]);
            let md = dict_view(meta@);
            assert(canonical(stmt_view(statements@[0])));
            assert(canonical_entries(md));
            lemma_dict_get_canonical(md, key_info());
        }
        let encoded = marshal(info_stmt);
        let info_hash = sha1_digest(encoded.as_slice());
        let hashes = piece_hashes_of(pieces);
        Torrent::new(info_hash, urls, piece_length, hashes, total)
    }
}

/// When the info dictionary's bytes are canonical (the encoding of a
/// canonical value), decoding them and encoding the result gives the same
/// bytes, so the info hash that `parse` computes is the SHA-1 of those bytes.
pub proof fn lemma_info_hash_of_canonical_bytes(info_bytes: Seq<u8>, w: Bencode)
    requires
        canonical(w),
        info_bytes == encode(w),
    ensures
        parse_value(info_bytes, 0) == Some((w, info_bytes.len() as int)),
        sha1_of(encode(parse_value(info_bytes, 0)->Some_0.0)) == sha1_of(info_bytes),
{
    assert(info_bytes.subrange(0, info_bytes.len() as int) =~= info_bytes);
    lemma_parse_encoded(w, info_bytes, 0);
}

} // verus!
