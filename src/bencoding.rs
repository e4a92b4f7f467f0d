//! Bencoding: the metainfo file format, parsed and written.

use vstd::prelude::*;

use crate::util::{easy_err, Error, ErrorKind};

verus! {

broadcast use {vstd::std_specs::vec::group_vec_axioms, vstd::seq::group_seq_axioms};

/// A bencoded value.
#[derive(Debug)]
pub enum Statement {
    Integer(i64),
    ByteString(Vec<u8>),
    List(Vec<Statement>),
    /// Entries with distinct keys; parsing keeps them in ascending key
    /// order.
    Dictionary(Vec<(Vec<u8>, Statement)>),
}

/// The mathematical value of a bencoded statement.
pub enum Bencode {
    Int(int),
    Bytes(Seq<u8>),
    List(Seq<Bencode>),
    Dict(Seq<(Seq<u8>, Bencode)>),
}

pub open spec fn stmt_view(s: Statement) -> Bencode
    decreases s,
{
    match s {
        Statement::Integer(n) => Bencode::Int(n as int),
        Statement::ByteString(b) => Bencode::Bytes(b@),
        Statement::List(l) => Bencode::List(list_view(l@)),
        Statement::Dictionary(d) => Bencode::Dict(dict_view(d@)),
    }
}

pub open spec fn list_view(l: Seq<Statement>) -> Seq<Bencode>
    decreases l,
{
    if l.len() == 0 {
        seq![]
    } else {
        list_view(l.drop_last()).push(stmt_view(l.last()))
    }
}

pub open spec fn dict_view(d: Seq<(Vec<u8>, Statement)>) -> Seq<(Seq<u8>, Bencode)>
    decreases d,
{
    if d.len() == 0 {
        seq![]
    } else {
        dict_view(d.drop_last()).push((d.last().0@, stmt_view(d.last().1)))
    }
}

pub proof fn lemma_dict_view_index(d: Seq<(Vec<u8>, Statement)>)
    ensures
        dict_view(d).len() == d.len(),
        forall|j: int|
            0 <= j < d.len() ==> #[trigger] dict_view(d)[j] == (d[j].0@, stmt_view(d[j].1)),
    decreases d.len(),
{
    if d.len() > 0 {
        lemma_dict_view_index(d.drop_last());
    }
}

// ---------------------------------------------------------------------
// Writing

/// The decimal digits of `n`, in ASCII.
pub open spec fn nat_digits(n: nat) -> Seq<u8>
    decreases n,
{
    if n < 10 {
        seq![(48 + n) as u8]
    } else {
        nat_digits(n / 10).push((48 + n % 10) as u8)
    }
}

/// The decimal digits of `n`, with a minus sign when negative.
pub open spec fn int_digits(n: int) -> Seq<u8> {
    if n < 0 {
        seq![45u8] + nat_digits((-n) as nat)
    } else {
        nat_digits(n as nat)
    }
}

/// The bencoding of a byte string: its length, a colon, its bytes.
pub open spec fn encode_bytes(b: Seq<u8>) -> Seq<u8> {
    nat_digits(b.len()) + seq![58u8] + b
}

/// The bencoding of a value: `i<n>e`, `<len>:<bytes>`, `l...e`, `d...e`.
pub open spec fn encode(v: Bencode) -> Seq<u8>
    decreases v,
{
    match v {
        Bencode::Int(n) => seq![105u8] + int_digits(n) + seq![101u8],
        Bencode::Bytes(b) => encode_bytes(b),
        Bencode::List(items) => seq![108u8] + encode_list(items) + seq![101u8],
        Bencode::Dict(entries) => seq![100u8] + encode_entries(entries) + seq![101u8],
    }
}

/// The values of a list, encoded one after the other.
pub open spec fn encode_list(items: Seq<Bencode>) -> Seq<u8>
    decreases items,
{
    if items.len() == 0 {
        seq![]
    } else {
        encode_list(items.drop_last()) + encode(items.last())
    }
}

/// The entries of a dictionary, each key then its value, in stored order.
pub open spec fn encode_entries(entries: Seq<(Seq<u8>, Bencode)>) -> Seq<u8>
    decreases entries,
{
    if entries.len() == 0 {
        seq![]
    } else {
        encode_entries(entries.drop_last()) + encode_bytes(entries.last().0) + encode(
            entries.last().1,
        )
    }
}

/// Appends the decimal digits of `n`.
pub(crate) fn push_digits(buf: &mut Vec<u8>, n: u64)
    ensures
        final(buf)@ == old(buf)@ + nat_digits(n as nat),
    decreases n,
{
    if n >= 10 {
        push_digits(buf, n / 10);
    }
    buf.push((48 + n % 10) as u8);
    assert(final(buf)@ =~= old(buf)@ + nat_digits(n as nat));
}

/// Appends the bytes of `b`.
fn push_all(buf: &mut Vec<u8>, b: &Vec<u8>)
    ensures
        final(buf)@ == old(buf)@ + b@,
{
    let ghost start = buf@;
    let mut k: usize = 0;
    while k < b.len()
        invariant
            k <= b@.len(),
            buf@ == start + b@.subrange(0, k as int),
        decreases b@.len() - k,
    {
        buf.push(b[k]);
        k += 1;
        assert(buf@ =~= start + b@.subrange(0, k as int));
    }
    assert(b@.subrange(0, b@.len() as int) =~= b@);
}

fn push_byte_string(buf: &mut Vec<u8>, b: &Vec<u8>)
    ensures
        final(buf)@ == old(buf)@ + encode_bytes(b@),
{
    push_digits(buf, b.len() as u64);
    buf.push(58);
    push_all(buf, b);
    assert(final(buf)@ =~= old(buf)@ + encode_bytes(b@));
}

/// The bencoding of a canonical statement: dictionary keys come out in
/// ascending byte order, each once, as parsing leaves them.
pub fn marshal(st: &Statement) -> (r: Vec<u8>)
    requires
        canonical(stmt_view(*st)),
    ensures
        r@ == encode(stmt_view(*st)),
{
    let mut buf: Vec<u8> = Vec::new();
    marshal_statement(&mut buf, st);
    assert(buf@ =~= encode(stmt_view(*st)));
    buf
}

/// Appends the bencoding of a statement.
fn marshal_statement(buf: &mut Vec<u8>, st: &Statement)
    ensures
        final(buf)@ == old(buf)@ + encode(stmt_view(*st)),
    decreases st,
{
    match st {
        Statement::Integer(num) => {
            buf.push(105);
            let n = *num;
            if n < 0 {
                buf.push(45);
                let mag: u64 = (0 - (n as i128)) as u64;
                push_digits(buf, mag);
            } else {
                push_digits(buf, n as u64);
            }
            buf.push(101);
            assert(final(buf)@ =~= old(buf)@ + encode(stmt_view(*st)));
        },
        Statement::ByteString(s) => {
            push_byte_string(buf, s);
        },
        Statement::List(list) => {
            buf.push(108);
            let ghost start = buf@;
            let mut i: usize = 0;
            while i < list.len()
                invariant
                    *st == Statement::List(*list),
                    i <= list@.len(),
                    buf@ == start + encode_list(list_view(list@.subrange(0, i as int))),
                decreases list@.len() - i,
            {
                proof {
                    assert(decreases_to!(*st => (*st)->List_0));
                    assert(decreases_to!((*st)->List_0 => (*st)->List_0[i as int]));
                }
                marshal_statement(buf, &list[i]);
                proof {
                    let post = list@.subrange(0, i + 1);
                    assert(post.drop_last() =~= list@.subrange(0, i as int));
                    assert(list_view(post).drop_last() =~= list_view(list@.subrange(0, i as int)));
                }
                i += 1;
            }
            assert(list@.subrange(0, list@.len() as int) =~= list@);
            buf.push(101);
            assert(final(buf)@ =~= old(buf)@ + encode(stmt_view(*st)));
        },
        Statement::Dictionary(dict) => {
            buf.push(100);
            let ghost start = buf@;
            let mut i: usize = 0;
            while i < dict.len()
                invariant
                    *st == Statement::Dictionary(*dict),
                    i <= dict@.len(),
                    buf@ == start + encode_entries(dict_view(dict@.subrange(0, i as int))),
                decreases dict@.len() - i,
            {
                push_byte_string(buf, &dict[i].0);
                proof {
                    assert(decreases_to!(*st => (*st)->Dictionary_0));
                    assert(decreases_to!((*st)->Dictionary_0 => (*st)->Dictionary_0[i as int]));
                    assert(decreases_to!((*st)->Dictionary_0[i as int] => (*st)->Dictionary_0[i as int].1));
                }
                marshal_statement(buf, &dict[i].1);
                proof {
                    let post = dict@.subrange(0, i + 1);
                    assert(post.drop_last() =~= dict@.subrange(0, i as int));
                    assert(dict_view(post).drop_last() =~= dict_view(dict@.subrange(0, i as int)));
                }
                i += 1;
            }
            assert(dict@.subrange(0, dict@.len() as int) =~= dict@);
            buf.push(101);
            assert(final(buf)@ =~= old(buf)@ + encode(stmt_view(*st)));
        },
    }
}

// ---------------------------------------------------------------------
// Reading

pub open spec fn is_digit(b: u8) -> bool {
    48 <= b <= 57
}

/// The position of the first non-digit at or after `i`.
pub open spec fn digits_end(buf: Seq<u8>, i: int) -> int
    decreases buf.len() - i,
{
    if 0 <= i < buf.len() && is_digit(buf[i]) {
        digits_end(buf, i + 1)
    } else {
        i
    }
}

/// The number that ASCII digits spell.
pub open spec fn digits_value(s: Seq<u8>) -> nat
    decreases s.len(),
{
    if s.len() == 0 {
        0
    } else {
        digits_value(s.drop_last()) * 10 + (s.last() - 48) as nat
    }
}

/// An integer body after `i`: an optional minus, digits, then `e`; the
/// value must fit in 64 signed bits.
pub open spec fn parse_int(buf: Seq<u8>, pos: int) -> Option<(Bencode, int)> {
    let neg = 0 <= pos < buf.len() && buf[pos] == 45;
    let start = if neg {
        pos + 1
    } else {
        pos
    };
    let end = digits_end(buf, start);
    if pos < 0 || end == start || end >= buf.len() || buf[end] != 101 {
        None
    } else {
        let m = digits_value(buf.subrange(start, end)) as int;
        let v = if neg {
            -m
        } else {
            m
        };
        if v < i64::MIN || v > i64::MAX {
            None
        } else {
            Some((Bencode::Int(v), end + 1))
        }
    }
}

/// A byte string at `pos`: its length in digits, a colon, the bytes.
pub open spec fn parse_bytes(buf: Seq<u8>, pos: int) -> Option<(Bencode, int)> {
    let end = digits_end(buf, pos);
    if pos < 0 || end == pos || end >= buf.len() || buf[end] != 58 {
        None
    } else {
        let n = digits_value(buf.subrange(pos, end)) as int;
        if end + 1 + n > buf.len() {
            None
        } else {
            Some((Bencode::Bytes(buf.subrange(end + 1, end + 1 + n)), end + 1 + n))
        }
    }
}

/// The value that starts at `pos`, and the position after it.
pub open spec fn parse_value(buf: Seq<u8>, pos: int) -> Option<(Bencode, int)>
    decreases buf.len() - pos, 0int,
{
    if pos < 0 || pos >= buf.len() {
        None
    } else if buf[pos] == 105 {
        parse_int(buf, pos + 1)
    } else if buf[pos] == 108 {
        match parse_items(buf, pos + 1, seq![]) {
            Some((items, end)) => Some((Bencode::List(items), end)),
            None => None,
        }
    } else if buf[pos] == 100 {
        match parse_entries(buf, pos + 1, seq![]) {
            Some((entries, end)) => Some((Bencode::Dict(entries), end)),
            None => None,
        }
    } else if is_digit(buf[pos]) {
        parse_bytes(buf, pos)
    } else {
        None
    }
}

/// The items of a list from `pos` to its `e`, after those in `acc`.
pub open spec fn parse_items(buf: Seq<u8>, pos: int, acc: Seq<Bencode>) -> Option<(Seq<Bencode>, int)>
    decreases buf.len() - pos, 1int,
{
    if pos < 0 || pos >= buf.len() {
        None
    } else if buf[pos] == 101 {
        Some((acc, pos + 1))
    } else {
        match parse_value(buf, pos) {
            None => None,
            Some((v, next)) => if next <= pos || next > buf.len() {
                None
            } else {
                parse_items(buf, next, acc.push(v))
            },
        }
    }
}

/// Byte strings in lexicographic order: `a` comes strictly before `b`.
pub open spec fn lex_lt(a: Seq<u8>, b: Seq<u8>) -> bool
    decreases a.len(),
{
    if a.len() == 0 {
        b.len() > 0
    } else if b.len() == 0 {
        false
    } else if a[0] < b[0] {
        true
    } else if a[0] > b[0] {
        false
    } else {
        lex_lt(a.drop_first(), b.drop_first())
    }
}

/// The entries with `(k, v)` in place: before the first greater key, or
/// replacing the entry of an equal key.
pub open spec fn dict_insert(d: Seq<(Seq<u8>, Bencode)>, k: Seq<u8>, v: Bencode) -> Seq<(Seq<u8>, Bencode)>
    decreases d.len(),
{
    if d.len() == 0 {
        seq![(k, v)]
    } else if lex_lt(d[0].0, k) {
        seq![d[0]] + dict_insert(d.drop_first(), k, v)
    } else if d[0].0 == k {
        seq![(k, v)] + d.drop_first()
    } else {
        seq![(k, v)] + d
    }
}

/// The entries of a dictionary from `pos` to its `e`, inserted into
/// `acc`: each key a byte string, then its value.
pub open spec fn parse_entries(buf: Seq<u8>, pos: int, acc: Seq<(Seq<u8>, Bencode)>) -> Option<(Seq<(Seq<u8>, Bencode)>, int)>
    decreases buf.len() - pos, 1int,
{
    if pos < 0 || pos >= buf.len() {
        None
    } else if buf[pos] == 101 {
        Some((acc, pos + 1))
    } else {
        match parse_value(buf, pos) {
            Some((Bencode::Bytes(k), next)) => if next <= pos || next > buf.len() {
                None
            } else {
                match parse_value(buf, next) {
                    None => None,
                    Some((v, after)) => if after <= next || after > buf.len() {
                        None
                    } else {
                        parse_entries(buf, after, dict_insert(acc, k, v))
                    },
                }
            },
            _ => None,
        }
    }
}

/// The values from `pos` to the end of the buffer, after those in `acc`.
pub open spec fn parse_all(buf: Seq<u8>, pos: int, acc: Seq<Bencode>) -> Option<Seq<Bencode>>
    decreases buf.len() - pos,
{
    if pos < 0 || pos > buf.len() {
        None
    } else if pos == buf.len() {
        Some(acc)
    } else {
        match parse_value(buf, pos) {
            None => None,
            Some((v, next)) => if next <= pos || next > buf.len() {
                None
            } else {
                parse_all(buf, next, acc.push(v))
            },
        }
    }
}

proof fn lemma_digits_value_grows(s: Seq<u8>, j: int)
    requires
        0 <= j <= s.len(),
        forall|q: int| 0 <= q < s.len() ==> is_digit(#[trigger] s[q]),
    ensures
        digits_value(s.subrange(0, j)) <= digits_value(s),
    decreases s.len() - j,
{
    if j < s.len() {
        lemma_digits_value_grows(s, j + 1);
        let t = s.subrange(0, j + 1);
        assert(t.drop_last() =~= s.subrange(0, j));
        assert(is_digit(t.last()));
    } else {
        assert(s.subrange(0, j) =~= s);
    }
}

proof fn lemma_digits_end(buf: Seq<u8>, i: int)
    requires
        0 <= i,
    ensures
        i <= digits_end(buf, i),
        digits_end(buf, i) <= buf.len() || digits_end(buf, i) == i,
        forall|q: int| i <= q < digits_end(buf, i) ==> is_digit(#[trigger] buf[q]),
        digits_end(buf, i) < buf.len() ==> !is_digit(buf[digits_end(buf, i)]),
    decreases buf.len() - i,
{
    if 0 <= i < buf.len() && is_digit(buf[i]) {
        lemma_digits_end(buf, i + 1);
    }
}

/// Reads decimal digits from `pos`, refusing once the value passes
/// `limit`. Gives the value and the position after the digits.
fn read_digits(buf: &[u8], pos: usize, limit: u64) -> (r: Option<(u64, usize)>)
    requires
        pos <= buf@.len(),
    ensures
        ({
            let end = digits_end(buf@, pos as int);
            let m = digits_value(buf@.subrange(pos as int, end));
            &&& r is Some <==> m <= limit
            &&& r matches Some((v, e)) ==> v == m && e == end
        }),
{
    let n = buf.len();
    proof {
        lemma_digits_end(buf@, pos as int);
    }
    let ghost end = digits_end(buf@, pos as int);
    let mut i: usize = pos;
    let mut v: u64 = 0;
    while i < n && 48 <= buf[i] && buf[i] <= 57
        invariant
            n == buf@.len(),
            pos <= i <= end,
            end == digits_end(buf@, pos as int),
            end <= n,
            forall|q: int| pos <= q < end ==> is_digit(#[trigger] buf@[q]),
            end < n ==> !is_digit(buf@[end]),
            v == digits_value(buf@.subrange(pos as int, i as int)),
            v <= limit,
        decreases n - i,
    {
        let d = (buf[i] - 48) as u64;
        proof {
            let t = buf@.subrange(pos as int, i + 1);
            assert(t.drop_last() =~= buf@.subrange(pos as int, i as int));
        }
        if d > limit || v > (limit - d) / 10 {
            proof {
                let full = buf@.subrange(pos as int, end);
                assert(full.subrange(0, i + 1 - pos) =~= buf@.subrange(pos as int, i + 1));
                lemma_digits_value_grows(full, i + 1 - pos);
                if d <= limit {
                    assert(v * 10 + d > limit) by (nonlinear_arith)
                        requires
                            v > (limit - d) / 10,
                            d <= limit,
                    ;
                }
            }
            return None;
        }
        proof {
            assert(v * 10 + d <= limit) by (nonlinear_arith)
                requires
                    v <= (limit - d) / 10,
                    d <= limit,
            ;
        }
        v = v * 10 + d;
        i += 1;
    }
    Some((v, i))
}

/// Whether `a` comes strictly before `b` in lexicographic byte order.
fn bytes_lt(a: &Vec<u8>, b: &Vec<u8>) -> (r: bool)
    ensures
        r == lex_lt(a@, b@),
{
    let mut i: usize = 0;
    assert(a@.subrange(0, a@.len() as int) =~= a@);
    assert(b@.subrange(0, b@.len() as int) =~= b@);
    while i < a.len() && i < b.len()
        invariant
            i <= a@.len(),
            i <= b@.len(),
            lex_lt(a@, b@) == lex_lt(
                a@.subrange(i as int, a@.len() as int),
                b@.subrange(i as int, b@.len() as int),
            ),
        decreases a@.len() - i,
    {
        let ghost sa = a@.subrange(i as int, a@.len() as int);
        let ghost sb = b@.subrange(i as int, b@.len() as int);
        assert(sa[0] == a@[i as int]);
        assert(sb[0] == b@[i as int]);
        if a[i] < b[i] {
            return true;
        }
        if a[i] > b[i] {
            return false;
        }
        assert(sa.drop_first() =~= a@.subrange(i + 1, a@.len() as int));
        assert(sb.drop_first() =~= b@.subrange(i + 1, b@.len() as int));
        i += 1;
    }
    a.len() == i && b.len() > i
}

/// Whether two byte strings are equal.
fn bytes_eq(a: &Vec<u8>, b: &Vec<u8>) -> (r: bool)
    ensures
        r == (a@ == b@),
{
    if a.len() != b.len() {
        return false;
    }
    let mut i: usize = 0;
    while i < a.len()
        invariant
            a@.len() == b@.len(),
            i <= a@.len(),
            forall|q: int| 0 <= q < i ==> a@[q] == b@[q],
        decreases a@.len() - i,
    {
        if a[i] != b[i] {
            return false;
        }
        i += 1;
    }
    assert(a@ =~= b@);
    true
}

proof fn lemma_dict_insert_at(d: Seq<(Seq<u8>, Bencode)>, k: Seq<u8>, v: Bencode, i: int)
    requires
        0 <= i <= d.len(),
        forall|j: int| 0 <= j < i ==> lex_lt(#[trigger] d[j].0, k),
        i < d.len() ==> !lex_lt(d[i].0, k),
    ensures
        dict_insert(d, k, v) == if i < d.len() && d[i].0 == k {
            d.subrange(0, i) + seq![(k, v)] + d.subrange(i + 1, d.len() as int)
        } else {
            d.subrange(0, i) + seq![(k, v)] + d.subrange(i, d.len() as int)
        },
    decreases i,
{
    if i == 0 {
        if d.len() > 0 && d[0].0 == k {
            assert(d.drop_first() =~= d.subrange(1, d.len() as int));
        }
        assert(d.subrange(0, 0) + seq![(k, v)] + d.subrange(0, d.len() as int) =~= seq![(k, v)] + d);
        assert(d.subrange(0, 0) + seq![(k, v)] + d.subrange(1, d.len() as int) =~= seq![(k, v)] + d.subrange(1, d.len() as int));
    } else {
        let t = d.drop_first();
        assert forall|j: int| 0 <= j < i - 1 implies lex_lt(#[trigger] t[j].0, k) by {
            assert(t[j] == d[j + 1]);
        }
        lemma_dict_insert_at(t, k, v, i - 1);
        if i < d.len() && d[i].0 == k {
            assert(seq![d[0]] + (t.subrange(0, i - 1) + seq![(k, v)] + t.subrange(i, t.len() as int))
                =~= d.subrange(0, i) + seq![(k, v)] + d.subrange(i + 1, d.len() as int));
        } else {
            assert(seq![d[0]] + (t.subrange(0, i - 1) + seq![(k, v)] + t.subrange(i - 1, t.len() as int))
                =~= d.subrange(0, i) + seq![(k, v)] + d.subrange(i, d.len() as int));
        }
    }
}

/// Puts `(k, v)` in the entries, in key order, replacing an equal key.
fn insert_entry(entries: &mut Vec<(Vec<u8>, Statement)>, k: Vec<u8>, v: Statement)
    ensures
        dict_view(final(entries)@) == dict_insert(dict_view(old(entries)@), k@, stmt_view(v)),
{
    let ghost d = dict_view(entries@);
    proof {
        lemma_dict_view_index(entries@);
    }
    let n = entries.len();
    let mut i: usize = 0;
    while i < n && bytes_lt(&entries[i].0, &k)
        invariant
            n == entries@.len(),
            i <= n,
            d == dict_view(entries@),
            d.len() == n,
            forall|j: int| 0 <= j < d.len() ==> #[trigger] d[j] == (entries@[j].0@, stmt_view(entries@[j].1)),
            forall|j: int| 0 <= j < i ==> lex_lt(#[trigger] d[j].0, k@),
        decreases n - i,
    {
        i += 1;
    }
    let same = i < n && bytes_eq(&entries[i].0, &k);
    proof {
        lemma_dict_insert_at(d, k@, stmt_view(v), i as int);
    }
    let ghost old_entries = entries@;
    if same {
        entries.remove(i);
    }
    let ghost kv = k@;
    let ghost sv = stmt_view(v);
    entries.insert(i, (k, v));
    proof {
        lemma_dict_view_index(entries@);
        let target = dict_insert(d, kv, sv);
        assert(dict_view(entries@).len() == target.len());
        assert forall|j: int| 0 <= j < target.len() implies #[trigger] dict_view(entries@)[j] == target[j] by {
            if j < i {
                assert(entries@[j] == old_entries[j]);
            } else if j == i {
            } else if same {
                assert(entries@[j] == old_entries[j]);
            } else {
                assert(entries@[j] == old_entries[j - 1]);
            }
        }
        assert(dict_view(entries@) =~= target);
    }
}

/// The bytes of `buf` from `from` to `to`.
fn copy_range(buf: &[u8], from: usize, to: usize) -> (r: Vec<u8>)
    requires
        from <= to <= buf@.len(),
    ensures
        r@ == buf@.subrange(from as int, to as int),
{
    let mut r: Vec<u8> = Vec::new();
    let mut k: usize = from;
    while k < to
        invariant
            from <= k <= to,
            to <= buf@.len(),
            r@ == buf@.subrange(from as int, k as int),
        decreases to - k,
    {
        r.push(buf[k]);
        k += 1;
        assert(r@ =~= buf@.subrange(from as int, k as int));
    }
    r
}

/// Reads an integer body from `pos` (after the `i`).
fn read_integer(buf: &[u8], pos: usize) -> (r: Result<(Statement, usize), Error>)
    requires
        0 < pos <= buf@.len(),
    ensures
        r is Ok <==> parse_int(buf@, pos as int) is Some,
        r matches Ok((s, next)) ==> (stmt_view(s), next as int) == parse_int(buf@, pos as int)->Some_0
            && pos < next <= buf@.len(),
        r is Err ==> r->Err_0.kind == ErrorKind::Format,
{
    let n = buf.len();
    let neg = pos < n && buf[pos] == 45;
    let start = if neg {
        pos + 1
    } else {
        pos
    };
    let limit: u64 = if neg {
        0x8000_0000_0000_0000
    } else {
        0x7fff_ffff_ffff_ffff
    };
    proof {
        lemma_digits_end(buf@, start as int);
    }
    match read_digits(buf, start, limit) {
        None => Err(easy_err("integer out of range")),
        Some((m, end)) => {
            if end == start || end >= n || buf[end] != 101 {
                return Err(easy_err("integer has no end"));
            }
            let value: i64 = if neg {
                (0i128 - m as i128) as i64
            } else {
                m as i64
            };
            Ok((Statement::Integer(value), end + 1))
        },
    }
}

/// Reads a byte string at `pos`: length digits, a colon, the bytes.
fn read_byte_string(buf: &[u8], pos: usize) -> (r: Result<(Statement, usize), Error>)
    requires
        pos < buf@.len(),
        is_digit(buf@[pos as int]),
    ensures
        r is Ok <==> parse_bytes(buf@, pos as int) is Some,
        r matches Ok((s, next)) ==> (stmt_view(s), next as int) == parse_bytes(buf@, pos as int)->Some_0
            && pos < next <= buf@.len(),
        r is Err ==> r->Err_0.kind == ErrorKind::Format,
{
    let n = buf.len();
    proof {
        lemma_digits_end(buf@, pos + 1);
    }
    match read_digits(buf, pos, n as u64) {
        None => Err(easy_err("string length is over buf length")),
        Some((len, end)) => {
            if end >= n {
                return Err(easy_err("string length has no end"));
            }
            if buf[end] != 58 {
                return Err(easy_err("string length has no colon"));
            }
            if len as usize > n - (end + 1) {
                return Err(easy_err("string runs past the buffer"));
            }
            let stop = end + 1 + len as usize;
            let b = copy_range(buf, end + 1, stop);
            Ok((Statement::ByteString(b), stop))
        },
    }
}

/// Reads the value that starts at `pos`; gives it with the position after
/// it.
fn handle_statement(buf: &[u8], pos: usize) -> (r: Result<(Statement, usize), Error>)
    ensures
        r is Ok <==> parse_value(buf@, pos as int) is Some,
        r matches Ok((s, next)) ==> (stmt_view(s), next as int) == parse_value(buf@, pos as int)->Some_0
            && pos < next <= buf@.len(),
        r is Err ==> r->Err_0.kind == ErrorKind::Format,
    decreases buf@.len() - pos,
{
    let n = buf.len();
    if pos >= n {
        return Err(easy_err("index is over buf length"));
    }
    let c = buf[pos];
    if c == 105 {
        read_integer(buf, pos + 1)
    } else if c == 108 {
        // list
        let mut items: Vec<Statement> = Vec::new();
        let mut cur: usize = pos + 1;
        assert(list_view(items@) =~= seq![]);
        loop
            invariant
                n == buf@.len(),
                pos < cur <= n,
                buf@[pos as int] == 108,
                parse_items(buf@, pos + 1, seq![]) == parse_items(buf@, cur as int, list_view(items@)),
            decreases n - cur,
        {
            if cur >= n {
                return Err(easy_err("list has no end"));
            }
            if buf[cur] == 101 {
                return Ok((Statement::List(items), cur + 1));
            }
            match handle_statement(buf, cur) {
                Err(e) => {
                    return Err(e);
                },
                Ok((st, next)) => {
                    let ghost acc = list_view(items@);
                    let ghost before = items@;
                    items.push(st);
                    assert(items@.drop_last() =~= before);
                    assert(list_view(items@) == acc.push(stmt_view(st)));
                    cur = next;
                },
            }
        }
    } else if c == 100 {
        // dictionary
        let mut entries: Vec<(Vec<u8>, Statement)> = Vec::new();
        let mut cur: usize = pos + 1;
        assert(dict_view(entries@) =~= seq![]);
        loop
            invariant
                n == buf@.len(),
                pos < cur <= n,
                buf@[pos as int] == 100,
                parse_entries(buf@, pos + 1, seq![]) == parse_entries(buf@, cur as int, dict_view(entries@)),
            decreases n - cur,
        {
            if cur >= n {
                return Err(easy_err("dictionary has no end"));
            }
            if buf[cur] == 101 {
                return Ok((Statement::Dictionary(entries), cur + 1));
            }
            let (key, next) = handle_statement(buf, cur)?;
            let k = match key {
                Statement::ByteString(k) => k,
                _ => {
                    return Err(easy_err("Dictionary key must be string"));
                },
            };
            let (value, after) = handle_statement(buf, next)?;
            insert_entry(&mut entries, k, value);
            cur = after;
        }
    } else if 48 <= c && c <= 57 {
        read_byte_string(buf, pos)
    } else {
        Err(easy_err("unknown statement type"))
    }
}

/// Reads the values of a buffer, one after the other to its end.
pub fn parse(buf: &Vec<u8>) -> (r: Result<Vec<Statement>, Error>)
    ensures
        r is Ok <==> parse_all(buf@, 0, seq![]) is Some,
        r matches Ok(v) ==> list_view(v@) == parse_all(buf@, 0, seq![])->Some_0,
        r is Err ==> r->Err_0.kind == ErrorKind::Format,
{
    let s = buf.as_slice();
    let n = s.len();
    let mut statements: Vec<Statement> = Vec::new();
    let mut idx: usize = 0;
    assert(list_view(statements@) =~= seq![]);
    while idx < n
        invariant
            n == buf@.len(),
            s@ == buf@,
            idx <= n,
            parse_all(buf@, 0, seq![]) == parse_all(buf@, idx as int, list_view(statements@)),
        decreases n - idx,
    {
        let (st, next) = handle_statement(s, idx)?;
        let ghost acc = list_view(statements@);
        let ghost before = statements@;
        statements.push(st);
        assert(statements@.drop_last() =~= before);
        assert(list_view(statements@) == acc.push(stmt_view(st)));
        idx = next;
    }
    Ok(statements)
}

/// The value of the first entry with key `key`.
pub open spec fn dict_get(d: Seq<(Seq<u8>, Bencode)>, key: Seq<u8>) -> Option<Bencode>
    decreases d.len(),
{
    if d.len() == 0 {
        None
    } else if d[0].0 == key {
        Some(d[0].1)
    } else {
        dict_get(d.drop_first(), key)
    }
}

proof fn lemma_dict_get_index(d: Seq<(Seq<u8>, Bencode)>, key: Seq<u8>, i: int)
    requires
        0 <= i <= d.len(),
        forall|j: int| 0 <= j < i ==> (#[trigger] d[j]).0 != key,
    ensures
        dict_get(d, key) == dict_get(d.subrange(i, d.len() as int), key),
    decreases i,
{
    if i > 0 {
        let t = d.drop_first();
        assert forall|j: int| 0 <= j < i - 1 implies (#[trigger] t[j]).0 != key by {
            assert(t[j] == d[j + 1]);
        }
        lemma_dict_get_index(t, key, i - 1);
        assert(t.subrange(i - 1, t.len() as int) =~= d.subrange(i, d.len() as int));
    } else {
        assert(d.subrange(0, d.len() as int) =~= d);
    }
}

/// The value of the first entry of a dictionary with key `key`.
pub fn lookup<'a>(entries: &'a Vec<(Vec<u8>, Statement)>, key: &[u8]) -> (r: Option<&'a Statement>)
    ensures
        r is Some <==> dict_get(dict_view(entries@), key@) is Some,
        r matches Some(s) ==> Some(stmt_view(*s)) == dict_get(dict_view(entries@), key@),
{
    proof {
        lemma_dict_view_index(entries@);
    }
    let ghost d = dict_view(entries@);
    let mut i: usize = 0;
    while i < entries.len()
        invariant
            i <= entries@.len(),
            d == dict_view(entries@),
            d.len() == entries@.len(),
            forall|j: int| 0 <= j < d.len() ==> #[trigger] d[j] == (entries@[j].0@, stmt_view(entries@[j].1)),
            forall|j: int| 0 <= j < i ==> (#[trigger] d[j]).0 != key@,
        decreases entries@.len() - i,
    {
        let mut same = entries[i].0.len() == key.len();
        let mut k: usize = 0;
        while same && k < key.len()
            invariant
                i < entries@.len(),
                k <= key@.len(),
                same ==> entries@[i as int].0@.len() == key@.len(),
                same == (entries@[i as int].0@.len() == key@.len() && forall|q: int|
                    0 <= q < k ==> entries@[i as int].0@[q] == key@[q]),
            decreases key@.len() - k,
        {
            if entries[i].0[k] != key[k] {
                same = false;
            }
            k += 1;
        }
        if same {
            assert(entries@[i as int].0@ =~= key@);
            proof {
                lemma_dict_get_index(d, key@, i as int);
                assert(d.subrange(i as int, d.len() as int)[0] == d[i as int]);
            }
            return Some(&entries[i].1);
        }
        proof {
            if entries@[i as int].0@ == key@ {
                assert(forall|q: int| 0 <= q < key@.len() ==> entries@[i as int].0@[q] == key@[q]);
            }
        }
        i += 1;
    }
    proof {
        lemma_dict_get_index(d, key@, d.len() as int);
    }
    None
}

// ---------------------------------------------------------------------
// Decoding what was encoded

/// A value whose encoding is the canonical one: integers fit in 64 signed
/// bits, and dictionary keys ascend strictly.
pub open spec fn canonical(v: Bencode) -> bool
    decreases v,
{
    match v {
        Bencode::Int(n) => i64::MIN <= n <= i64::MAX,
        Bencode::Bytes(_) => true,
        Bencode::List(items) => canonical_list(items),
        Bencode::Dict(entries) => keys_ascend(entries) && canonical_entries(entries),
    }
}

pub open spec fn canonical_list(items: Seq<Bencode>) -> bool
    decreases items,
{
    if items.len() == 0 {
        true
    } else {
        canonical_list(items.drop_last()) && canonical(items.last())
    }
}

pub open spec fn canonical_entries(entries: Seq<(Seq<u8>, Bencode)>) -> bool
    decreases entries,
{
    if entries.len() == 0 {
        true
    } else {
        canonical_entries(entries.drop_last()) && canonical(entries.last().1)
    }
}

/// Keys in strictly ascending byte order.
pub open spec fn keys_ascend(entries: Seq<(Seq<u8>, Bencode)>) -> bool {
    forall|i: int, j: int|
        0 <= i < j < entries.len() ==> lex_lt(#[trigger] entries[i].0, #[trigger] entries[j].0)
}

pub proof fn lemma_nat_digits_are_digits(n: nat)
    ensures
        nat_digits(n).len() >= 1,
        forall|i: int| 0 <= i < nat_digits(n).len() ==> is_digit(#[trigger] nat_digits(n)[i]),
    decreases n,
{
    if n >= 10 {
        lemma_nat_digits_are_digits(n / 10);
        let prev = nat_digits(n / 10);
        assert forall|i: int| 0 <= i < nat_digits(n).len() implies is_digit(#[trigger] nat_digits(n)[i]) by {
            if i < prev.len() {
                assert(nat_digits(n)[i] == prev[i]);
            }
        }
    }
}

proof fn lemma_digits_value_of(n: nat)
    ensures
        digits_value(nat_digits(n)) == n,
    decreases n,
{
    if n >= 10 {
        lemma_digits_value_of(n / 10);
        assert(nat_digits(n).drop_last() =~= nat_digits(n / 10));
        assert(nat_digits(n).last() == (48 + n % 10) as u8);
        assert((n / 10) * 10 + n % 10 == n);
    } else {
        assert(nat_digits(n).drop_last() =~= Seq::<u8>::empty());
        assert(nat_digits(n).last() == (48 + n) as u8);
        assert(digits_value(Seq::<u8>::empty()) == 0);
    }
}

proof fn lemma_digits_end_at(buf: Seq<u8>, start: int, end: int)
    requires
        0 <= start <= end <= buf.len(),
        forall|q: int| start <= q < end ==> is_digit(#[trigger] buf[q]),
        end < buf.len() ==> !is_digit(buf[end]),
    ensures
        digits_end(buf, start) == end,
    decreases end - start,
{
    if start < end {
        lemma_digits_end_at(buf, start + 1, end);
    }
}

/// The digits of `n` followed by a non-digit at `pos` read back as `n`.
proof fn lemma_read_number(buf: Seq<u8>, pos: int, n: nat)
    requires
        0 <= pos,
        pos + nat_digits(n).len() < buf.len(),
        buf.subrange(pos, pos + nat_digits(n).len()) == nat_digits(n),
        !is_digit(buf[pos + nat_digits(n).len()]),
    ensures
        digits_end(buf, pos) == pos + nat_digits(n).len(),
        digits_value(buf.subrange(pos, pos + nat_digits(n).len())) == n,
{
    let d = nat_digits(n);
    lemma_nat_digits_are_digits(n);
    assert forall|q: int| pos <= q < pos + d.len() implies is_digit(#[trigger] buf[q]) by {
        assert(buf[q] == buf.subrange(pos, pos + d.len())[q - pos]);
    }
    lemma_digits_end_at(buf, pos, pos + d.len());
    lemma_digits_value_of(n);
}

proof fn lemma_encode_list_front(items: Seq<Bencode>)
    requires
        items.len() > 0,
    ensures
        encode_list(items) == encode(items[0]) + encode_list(items.drop_first()),
    decreases items.len(),
{
    if items.len() > 1 {
        lemma_encode_list_front(items.drop_last());
        assert(items.drop_last().drop_first() =~= items.drop_first().drop_last());
        assert(items.drop_first().last() == items.last());
    } else {
        assert(items.drop_last() =~= Seq::<Bencode>::empty());
        assert(items.drop_first() =~= Seq::<Bencode>::empty());
    }
}

proof fn lemma_canonical_list_front(items: Seq<Bencode>)
    requires
        items.len() > 0,
        canonical_list(items),
    ensures
        canonical(items[0]),
        canonical_list(items.drop_first()),
    decreases items.len(),
{
    if items.len() > 1 {
        lemma_canonical_list_front(items.drop_last());
        assert(items.drop_last().drop_first() =~= items.drop_first().drop_last());
    } else {
        assert(items.drop_first() =~= Seq::<Bencode>::empty());
    }
}

proof fn lemma_encode_entries_front(entries: Seq<(Seq<u8>, Bencode)>)
    requires
        entries.len() > 0,
    ensures
        encode_entries(entries) == encode_bytes(entries[0].0) + encode(entries[0].1) + encode_entries(
            entries.drop_first(),
        ),
    decreases entries.len(),
{
    if entries.len() > 1 {
        lemma_encode_entries_front(entries.drop_last());
        assert(entries.drop_last().drop_first() =~= entries.drop_first().drop_last());
        assert(entries.drop_first().last() == entries.last());
    } else {
        assert(entries.drop_last() =~= Seq::<(Seq<u8>, Bencode)>::empty());
        assert(entries.drop_first() =~= Seq::<(Seq<u8>, Bencode)>::empty());
    }
}

proof fn lemma_canonical_entries_front(entries: Seq<(Seq<u8>, Bencode)>)
    requires
        entries.len() > 0,
        canonical_entries(entries),
    ensures
        canonical(entries[0].1),
        canonical_entries(entries.drop_first()),
    decreases entries.len(),
{
    if entries.len() > 1 {
        lemma_canonical_entries_front(entries.drop_last());
        assert(entries.drop_last().drop_first() =~= entries.drop_first().drop_last());
    } else {
        assert(entries.drop_first() =~= Seq::<(Seq<u8>, Bencode)>::empty());
    }
}

proof fn lemma_insert_last(d: Seq<(Seq<u8>, Bencode)>, k: Seq<u8>, v: Bencode)
    requires
        forall|j: int| 0 <= j < d.len() ==> lex_lt(#[trigger] d[j].0, k),
    ensures
        dict_insert(d, k, v) == d.push((k, v)),
    decreases d.len(),
{
    if d.len() > 0 {
        let t = d.drop_first();
        assert forall|j: int| 0 <= j < t.len() implies lex_lt(#[trigger] t[j].0, k) by {
            assert(t[j] == d[j + 1]);
        }
        lemma_insert_last(t, k, v);
        assert(seq![d[0]] + t.push((k, v)) =~= d.push((k, v)));
    } else {
        assert(seq![(k, v)] =~= d.push((k, v)));
    }
}

proof fn lemma_parse_bytes_of(b: Seq<u8>, buf: Seq<u8>, pos: int)
    requires
        0 <= pos,
        pos + encode_bytes(b).len() <= buf.len(),
        buf.subrange(pos, pos + encode_bytes(b).len()) == encode_bytes(b),
    ensures
        parse_value(buf, pos) == Some((Bencode::Bytes(b), pos + encode_bytes(b).len())),
{
    let d = nat_digits(b.len());
    let e = encode_bytes(b);
    lemma_nat_digits_are_digits(b.len());
    assert(buf.subrange(pos, pos + d.len()) =~= e.subrange(0, d.len() as int));
    assert(e.subrange(0, d.len() as int) =~= d);
    assert(buf[pos + d.len()] == e[d.len() as int]);
    lemma_read_number(buf, pos, b.len());
    assert(buf[pos] == e[0]);
    assert(e[0] == d[0]);
    assert(is_digit(buf[pos]));
    assert(e[d.len() as int] == 58u8);
    assert(buf.subrange(pos + d.len() + 1, pos + d.len() + 1 + b.len()) =~= e.subrange(
        d.len() as int + 1,
        e.len() as int,
    ));
    assert(e.subrange(d.len() as int + 1, e.len() as int) =~= b);
    assert(digits_end(buf, pos) == pos + d.len());
    assert(digits_value(buf.subrange(pos, pos + d.len())) == b.len());
    assert(parse_bytes(buf, pos) == Some((Bencode::Bytes(b), pos + e.len())));
}

/// Decoding the encoding of a canonical value, wherever it stands in a
/// buffer, gives the value and the position after it.
pub proof fn lemma_parse_encoded(v: Bencode, buf: Seq<u8>, pos: int)
    requires
        canonical(v),
        0 <= pos,
        pos + encode(v).len() <= buf.len(),
        buf.subrange(pos, pos + encode(v).len()) == encode(v),
    ensures
        parse_value(buf, pos) == Some((v, pos + encode(v).len())),
    decreases v, 0int,
{
    let e = encode(v);
    assert(buf[pos] == e[0]);
    match v {
        Bencode::Int(n) => {
            let neg = n < 0;
            let m: nat = if neg {
                (-n) as nat
            } else {
                n as nat
            };
            let d = nat_digits(m);
            lemma_nat_digits_are_digits(m);
            let start = if neg {
                pos + 2
            } else {
                pos + 1
            };
            if neg {
                assert(buf[pos + 1] == e[1]);
                assert(e[1] == 45u8);
            } else {
                assert(buf[pos + 1] == e[1]);
                assert(e[1] == d[0]);
            }
            let off = start - pos;
            assert(buf.subrange(start, start + d.len()) =~= e.subrange(off, off + d.len()));
            assert(e.subrange(off, off + d.len()) =~= d);
            assert(buf[start + d.len()] == e[off + d.len()]);
            lemma_read_number(buf, start, m);
        },
        Bencode::Bytes(b) => {
            lemma_parse_bytes_of(b, buf, pos);
        },
        Bencode::List(items) => {
            let inner = encode_list(items);
            assert(buf.subrange(pos + 1, pos + 1 + inner.len()) =~= e.subrange(1, 1 + inner.len() as int));
            assert(e.subrange(1, 1 + inner.len() as int) =~= inner);
            assert(buf[pos + 1 + inner.len()] == e[1 + inner.len() as int]);
            lemma_parse_items_encoded(items, buf, pos + 1, seq![]);
            assert(seq![] + items =~= items);
        },
        Bencode::Dict(entries) => {
            let inner = encode_entries(entries);
            assert(buf.subrange(pos + 1, pos + 1 + inner.len()) =~= e.subrange(1, 1 + inner.len() as int));
            assert(e.subrange(1, 1 + inner.len() as int) =~= inner);
            assert(buf[pos + 1 + inner.len()] == e[1 + inner.len() as int]);
            lemma_parse_entries_encoded(entries, buf, pos + 1, seq![]);
            assert(seq![] + entries =~= entries);
        },
    }
}

proof fn lemma_parse_items_encoded(items: Seq<Bencode>, buf: Seq<u8>, pos: int, acc: Seq<Bencode>)
    requires
        canonical_list(items),
        0 <= pos,
        pos + encode_list(items).len() < buf.len(),
        buf.subrange(pos, pos + encode_list(items).len()) == encode_list(items),
        buf[pos + encode_list(items).len()] == 101u8,
    ensures
        parse_items(buf, pos, acc) == Some((acc + items, pos + encode_list(items).len() + 1)),
    decreases items, 1int,
{
    if items.len() == 0 {
        assert(acc + items =~= acc);
    } else {
        lemma_encode_list_front(items);
        lemma_canonical_list_front(items);
        let first = items[0];
        let rest = items.drop_first();
        let ef = encode(first);
        let er = encode_list(rest);
        let all = encode_list(items);
        assert(buf.subrange(pos, pos + ef.len()) =~= all.subrange(0, ef.len() as int));
        assert(all.subrange(0, ef.len() as int) =~= ef);
        assert(decreases_to!(items => items[0]));
        lemma_parse_encoded(first, buf, pos);
        assert(ef.len() > 0) by {
            lemma_encode_nonempty(first);
        }
        assert(buf.subrange(pos + ef.len(), pos + ef.len() + er.len()) =~= all.subrange(
            ef.len() as int,
            all.len() as int,
        ));
        assert(all.subrange(ef.len() as int, all.len() as int) =~= er);
        assert(decreases_to!(items => items.drop_first()));
        lemma_parse_items_encoded(rest, buf, pos + ef.len(), acc.push(first));
        assert(acc.push(first) + rest =~= acc + items);
    }
}

proof fn lemma_parse_entries_encoded(
    entries: Seq<(Seq<u8>, Bencode)>,
    buf: Seq<u8>,
    pos: int,
    acc: Seq<(Seq<u8>, Bencode)>,
)
    requires
        canonical_entries(entries),
        keys_ascend(acc + entries),
        0 <= pos,
        pos + encode_entries(entries).len() < buf.len(),
        buf.subrange(pos, pos + encode_entries(entries).len()) == encode_entries(entries),
        buf[pos + encode_entries(entries).len()] == 101u8,
    ensures
        parse_entries(buf, pos, acc) == Some((acc + entries, pos + encode_entries(entries).len() + 1)),
    decreases entries, 1int,
{
    if entries.len() == 0 {
        assert(acc + entries =~= acc);
    } else {
        lemma_encode_entries_front(entries);
        lemma_canonical_entries_front(entries);
        let k = entries[0].0;
        let v = entries[0].1;
        let rest = entries.drop_first();
        let ek = encode_bytes(k);
        let ev = encode(v);
        let er = encode_entries(rest);
        let all = encode_entries(entries);
        assert(buf.subrange(pos, pos + ek.len()) =~= all.subrange(0, ek.len() as int));
        assert(all.subrange(0, ek.len() as int) =~= ek);
        lemma_parse_bytes_of(k, buf, pos);
        lemma_nat_digits_are_digits(k.len());
        assert(buf.subrange(pos + ek.len(), pos + ek.len() + ev.len()) =~= all.subrange(
            ek.len() as int,
            ek.len() + ev.len() as int,
        ));
        assert(all.subrange(ek.len() as int, ek.len() + ev.len() as int) =~= ev);
        assert(decreases_to!(entries => entries[0]));
        assert(decreases_to!(entries[0] => entries[0].1));
        lemma_parse_encoded(v, buf, pos + ek.len());
        lemma_encode_nonempty(v);
        assert(buf.subrange(pos + ek.len() + ev.len(), pos + ek.len() + ev.len() + er.len())
            =~= all.subrange(ek.len() + ev.len() as int, all.len() as int));
        assert(all.subrange(ek.len() + ev.len() as int, all.len() as int) =~= er);
        let both = acc + entries;
        assert forall|j: int| 0 <= j < acc.len() implies lex_lt(#[trigger] acc[j].0, k) by {
            assert(both[j] == acc[j]);
            assert(both[acc.len() as int] == entries[0]);
        }
        lemma_insert_last(acc, k, v);
        let acc2 = acc.push((k, v));
        assert(acc2 + rest =~= both);
        assert(decreases_to!(entries => entries.drop_first()));
        lemma_parse_entries_encoded(rest, buf, pos + ek.len() + ev.len(), acc2);
    }
}

proof fn lemma_encode_nonempty(v: Bencode)
    ensures
        encode(v).len() > 0,
{
    match v {
        Bencode::Bytes(b) => {
            lemma_nat_digits_are_digits(b.len());
        },
        _ => {},
    }
}

/// Bencoding round trip: the buffer that encodes a canonical value decodes
/// to that value alone, and encoding the decoded value gives the buffer
/// back, so that a hash over the re-encoding equals the hash over the
/// bytes that were read.
pub proof fn lemma_decode_encode(v: Bencode)
    requires
        canonical(v),
    ensures
        parse_all(encode(v), 0, seq![]) == Some(seq![v]),
        encode(parse_all(encode(v), 0, seq![])->Some_0[0]) == encode(v),
{
    let e = encode(v);
    assert(e.subrange(0, e.len() as int) =~= e);
    lemma_parse_encoded(v, e, 0);
    lemma_encode_nonempty(v);
    assert(parse_value(e, 0) == Some((v, e.len() as int)));
    assert(seq![].push(v) =~= seq![v]);
    assert(parse_all(e, e.len() as int, seq![v]) == Some(seq![v]));
    assert(parse_all(e, 0, seq![]) == parse_all(e, e.len() as int, seq![].push(v)));
}

// ---------------------------------------------------------------------
// What parsing produces is canonical

proof fn lemma_lex_irreflexive(a: Seq<u8>)
    ensures
        !lex_lt(a, a),
    decreases a.len(),
{
    if a.len() > 0 {
        lemma_lex_irreflexive(a.drop_first());
    }
}

proof fn lemma_lex_transitive(a: Seq<u8>, b: Seq<u8>, c: Seq<u8>)
    requires
        lex_lt(a, b),
        lex_lt(b, c),
    ensures
        lex_lt(a, c),
    decreases a.len(),
{
    if a.len() > 0 && a[0] == b[0] && b[0] == c[0] {
        lemma_lex_transitive(a.drop_first(), b.drop_first(), c.drop_first());
    }
}

proof fn lemma_lex_total(a: Seq<u8>, b: Seq<u8>)
    requires
        a != b,
    ensures
        lex_lt(a, b) || lex_lt(b, a),
    decreases a.len(),
{
    if a.len() > 0 && b.len() > 0 && a[0] == b[0] {
        if a.drop_first() == b.drop_first() {
            assert(a =~= seq![a[0]] + a.drop_first());
            assert(b =~= seq![b[0]] + b.drop_first());
        } else {
            lemma_lex_total(a.drop_first(), b.drop_first());
        }
    } else if a.len() == 0 && b.len() == 0 {
        assert(a =~= b);
    }
}

/// Every entry after an insertion is the inserted one or an earlier one.
proof fn lemma_insert_members(d: Seq<(Seq<u8>, Bencode)>, k: Seq<u8>, v: Bencode)
    ensures
        forall|i: int|
            0 <= i < dict_insert(d, k, v).len() ==> #[trigger] dict_insert(d, k, v)[i] == (k, v)
                || exists|j: int| 0 <= j < d.len() && dict_insert(d, k, v)[i] == d[j],
    decreases d.len(),
{
    let r = dict_insert(d, k, v);
    if d.len() > 0 {
        let t = d.drop_first();
        lemma_insert_members(t, k, v);
        assert forall|i: int| 0 <= i < r.len() implies #[trigger] r[i] == (k, v) || exists|j: int|
            0 <= j < d.len() && r[i] == d[j] by {
            if lex_lt(d[0].0, k) {
                if i == 0 {
                    assert(r[0] == d[0]);
                } else {
                    let ri = dict_insert(t, k, v)[i - 1];
                    assert(r[i] == ri);
                    if ri != (k, v) {
                        let j = choose|j: int| 0 <= j < t.len() && ri == t[j];
                        assert(d[j + 1] == t[j]);
                    }
                }
            } else if d[0].0 == k {
                if i > 0 {
                    assert(r[i] == d[i]);
                }
            } else {
                if i > 0 {
                    assert(r[i] == d[i - 1]);
                }
            }
        }
    }
}

/// Inserting into entries with ascending keys keeps them ascending.
proof fn lemma_insert_ascends(d: Seq<(Seq<u8>, Bencode)>, k: Seq<u8>, v: Bencode)
    requires
        keys_ascend(d),
    ensures
        keys_ascend(dict_insert(d, k, v)),
    decreases d.len(),
{
    let r = dict_insert(d, k, v);
    if d.len() == 0 {
        return;
    }
    let t = d.drop_first();
    assert(keys_ascend(t)) by {
        assert forall|i: int, j: int| 0 <= i < j < t.len() implies lex_lt(#[trigger] t[i].0, #[trigger] t[j].0) by {
            assert(t[i] == d[i + 1] && t[j] == d[j + 1]);
        }
    }
    if lex_lt(d[0].0, k) {
        lemma_insert_ascends(t, k, v);
        lemma_insert_members(t, k, v);
        let rt = dict_insert(t, k, v);
        assert forall|i: int, j: int| 0 <= i < j < r.len() implies lex_lt(#[trigger] r[i].0, #[trigger] r[j].0) by {
            if i == 0 {
                assert(r[0] == d[0]);
                assert(r[j] == rt[j - 1]);
                if rt[j - 1] != (k, v) {
                    let q = choose|q: int| 0 <= q < t.len() && rt[j - 1] == t[q];
                    assert(t[q] == d[q + 1]);
                }
            } else {
                assert(r[i] == rt[i - 1] && r[j] == rt[j - 1]);
            }
        }
    } else if d[0].0 == k {
        assert forall|i: int, j: int| 0 <= i < j < r.len() implies lex_lt(#[trigger] r[i].0, #[trigger] r[j].0) by {
            assert(r[j] == d[j]);
            if i > 0 {
                assert(r[i] == d[i]);
            }
        }
    } else {
        lemma_lex_total(d[0].0, k);
        assert forall|i: int, j: int| 0 <= i < j < r.len() implies lex_lt(#[trigger] r[i].0, #[trigger] r[j].0) by {
            assert(r[j] == d[j - 1]);
            if i == 0 {
                if j > 1 {
                    lemma_lex_transitive(k, d[0].0, d[j - 1].0);
                }
            } else {
                assert(r[i] == d[i - 1]);
            }
        }
    }
}

proof fn lemma_canonical_list_all(items: Seq<Bencode>)
    ensures
        canonical_list(items) <==> forall|i: int| 0 <= i < items.len() ==> canonical(#[trigger] items[i]),
    decreases items.len(),
{
    if items.len() > 0 {
        lemma_canonical_list_all(items.drop_last());
        assert forall|i: int| 0 <= i < items.len() - 1 implies items.drop_last()[i] == items[i] by {}
    }
}

proof fn lemma_canonical_entries_all(entries: Seq<(Seq<u8>, Bencode)>)
    ensures
        canonical_entries(entries) <==> forall|i: int|
            0 <= i < entries.len() ==> canonical(#[trigger] entries[i].1),
    decreases entries.len(),
{
    if entries.len() > 0 {
        lemma_canonical_entries_all(entries.drop_last());
        assert forall|i: int| 0 <= i < entries.len() - 1 implies entries.drop_last()[i] == entries[i] by {}
    }
}

/// Every value that parsing produces is canonical: its integers fit in 64
/// signed bits and its dictionary keys ascend, so that its encoding is the
/// canonical one.
pub proof fn lemma_parsed_canonical(buf: Seq<u8>, pos: int)
    ensures
        parse_value(buf, pos) matches Some((v, _)) ==> canonical(v),
    decreases buf.len() - pos, 0int,
{
    if 0 <= pos < buf.len() {
        if buf[pos] == 108 {
            lemma_canonical_list_all(seq![]);
            lemma_parsed_items_canonical(buf, pos + 1, seq![]);
        } else if buf[pos] == 100 {
            lemma_canonical_entries_all(seq![]);
            lemma_parsed_entries_canonical(buf, pos + 1, seq![]);
        }
    }
}

proof fn lemma_parsed_items_canonical(buf: Seq<u8>, pos: int, acc: Seq<Bencode>)
    requires
        canonical_list(acc),
    ensures
        parse_items(buf, pos, acc) matches Some((items, _)) ==> canonical_list(items),
    decreases buf.len() - pos, 1int,
{
    if 0 <= pos < buf.len() && buf[pos] != 101 {
        lemma_parsed_canonical(buf, pos);
        if let Some((v, next)) = parse_value(buf, pos) {
            if pos < next <= buf.len() {
                assert(acc.push(v).drop_last() =~= acc);
                lemma_parsed_items_canonical(buf, next, acc.push(v));
            }
        }
    }
}

proof fn lemma_parsed_entries_canonical(buf: Seq<u8>, pos: int, acc: Seq<(Seq<u8>, Bencode)>)
    requires
        canonical_entries(acc),
        keys_ascend(acc),
    ensures
        parse_entries(buf, pos, acc) matches Some((entries, _)) ==> canonical_entries(entries)
            && keys_ascend(entries),
    decreases buf.len() - pos, 1int,
{
    if 0 <= pos < buf.len() && buf[pos] != 101 {
        if let Some((Bencode::Bytes(k), next)) = parse_value(buf, pos) {
            if pos < next <= buf.len() {
                lemma_parsed_canonical(buf, next);
                if let Some((v, after)) = parse_value(buf, next) {
                    if next < after <= buf.len() {
                        let acc2 = dict_insert(acc, k, v);
                        lemma_insert_ascends(acc, k, v);
                        lemma_insert_members(acc, k, v);
                        lemma_canonical_entries_all(acc);
                        lemma_canonical_entries_all(acc2);
                        assert forall|i: int| 0 <= i < acc2.len() implies canonical(#[trigger] acc2[i].1) by {
                            if acc2[i] != (k, v) {
                                let j = choose|j: int| 0 <= j < acc.len() && acc2[i] == acc[j];
                                assert(canonical(acc[j].1));
                            }
                        }
                        lemma_parsed_entries_canonical(buf, after, acc2);
                    }
                }
            }
        }
    }
}

/// Re-encoding what was parsed: the encoding of a parsed value is canonical
/// and decodes back to the same value.
pub proof fn lemma_reencode_parsed(buf: Seq<u8>, pos: int)
    requires
        parse_value(buf, pos) is Some,
    ensures
        ({
            let v = parse_value(buf, pos)->Some_0.0;
            &&& canonical(v)
            &&& parse_all(encode(v), 0, seq![]) == Some(seq![v])
        }),
{
    lemma_parsed_canonical(buf, pos);
    lemma_decode_encode(parse_value(buf, pos)->Some_0.0);
}

/// Every value that reading a whole buffer produces is canonical.
pub proof fn lemma_parse_all_canonical(buf: Seq<u8>, pos: int, acc: Seq<Bencode>)
    requires
        forall|i: int| 0 <= i < acc.len() ==> canonical(#[trigger] acc[i]),
    ensures
        parse_all(buf, pos, acc) matches Some(vs) ==> forall|i: int|
            0 <= i < vs.len() ==> canonical(#[trigger] vs[i]),
    decreases buf.len() - pos,
{
    if 0 <= pos < buf.len() {
        lemma_parsed_canonical(buf, pos);
        if let Some((v, next)) = parse_value(buf, pos) {
            if pos < next <= buf.len() {
                let acc2 = acc.push(v);
                assert forall|i: int| 0 <= i < acc2.len() implies canonical(#[trigger] acc2[i]) by {
                    if i < acc.len() {
                        assert(acc2[i] == acc[i]);
                    }
                }
                lemma_parse_all_canonical(buf, next, acc2);
            }
        }
    }
}

/// The value under a key of a canonical dictionary is canonical.
pub proof fn lemma_dict_get_canonical(d: Seq<(Seq<u8>, Bencode)>, key: Seq<u8>)
    requires
        canonical_entries(d),
    ensures
        dict_get(d, key) matches Some(v) ==> canonical(v),
    decreases d.len(),
{
    lemma_canonical_entries_all(d);
    if d.len() > 0 {
        let t = d.drop_first();
        lemma_canonical_entries_all(t);
        assert forall|i: int| 0 <= i < t.len() implies canonical(#[trigger] t[i].1) by {
            assert(t[i] == d[i + 1]);
        }
        lemma_dict_get_canonical(t, key);
    }
}

} // verus!
