//! Calls into the hashing and URL-encoding crates.

use vstd::prelude::*;

verus! {

/// The SHA-1 digest of `data`.
pub uninterp spec fn sha1_of(data: Seq<u8>) -> Seq<u8>;

/// Relies on sha1_smol::Sha1::from(..).digest().bytes(): the 20-byte SHA-1
/// digest, a function of the input bytes alone.
#[verifier::external_body]
pub(crate) fn sha1_digest(data: &[u8]) -> (r: [u8; 20])
    ensures
        r@ == sha1_of(data@),
{
    sha1_smol::Sha1::from(data).digest().bytes()
}

/// Whether `b` is an ASCII letter or digit.
pub open spec fn is_alnum(b: u8) -> bool {
    (0x30 <= b <= 0x39) || (0x41 <= b <= 0x5a) || (0x61 <= b <= 0x7a)
}

/// The upper-case hexadecimal digit of `d`, for `d < 16`.
pub open spec fn hex_upper(d: u8) -> char {
    if d < 10 {
        (0x30 + d) as char
    } else {
        (0x41 + d - 10) as char
    }
}

/// What one byte becomes: itself when alphanumeric, else `%` and two
/// upper-case hex digits.
pub open spec fn percent_byte(b: u8) -> Seq<char> {
    if is_alnum(b) {
        seq![b as char]
    } else {
        seq!['%', hex_upper(b / 16), hex_upper(b % 16)]
    }
}

/// Every byte of `b` percent-encoded, all but ASCII letters and digits.
pub open spec fn percent_encoded(b: Seq<u8>) -> Seq<char>
    decreases b.len(),
{
    if b.len() == 0 {
        seq![]
    } else {
        percent_encoded(b.drop_last()) + percent_byte(b.last())
    }
}

/// Relies on percent_encoding::percent_encode with NON_ALPHANUMERIC: each
/// ASCII letter or digit is kept, every other byte becomes `%XX` in upper-case
/// hexadecimal (the crate's `percent_encode_byte` table).
#[verifier::external_body]
pub(crate) fn percent_encode_all(b: &[u8]) -> (r: String)
    ensures
        r@ == percent_encoded(b@),
{
    percent_encoding::percent_encode(b, percent_encoding::NON_ALPHANUMERIC).to_string()
}

} // verus!
