//! Password hashing: SHA-256 through an outside implementation, with a
//! verified lower-case hexadecimal rendering.
use vstd::prelude::*;

verus! {

use crate::bytes::{text_or_empty, to_text_or_empty, lemma_ascii_decode};
use vstd::utf8::encode_utf8;

/// What SHA-256 yields on given bytes: a function of the input alone.
pub uninterp spec fn sha256_digest_of(data: Seq<u8>) -> Seq<u8>;

/// Relies on `sha2::Sha256`: the digest depends on the input bytes alone
/// and is 32 bytes long.
#[verifier::external_body]
fn sha256_digest(data: &[u8]) -> (r: Vec<u8>)
    ensures
        r@ == sha256_digest_of(data@),
        r@.len() == 32,
{
    <sha2::Sha256 as sha2::Digest>::digest(data).to_vec()
}

/// The lower-case ASCII hexadecimal digit for a value below 16.
pub open spec fn hex_digit_lower(v: u8) -> u8 {
    if v < 10 {
        (0x30 + v) as u8
    } else {
        (0x61 + (v - 10)) as u8
    }
}

/// Two lower-case hexadecimal digits for each byte, in order.
pub open spec fn hex_bytes_of(data: Seq<u8>) -> Seq<u8>
    decreases data.len(),
{
    if data.len() == 0 {
        Seq::empty()
    } else {
        seq![hex_digit_lower(data[0] / 16), hex_digit_lower(data[0] % 16)] + hex_bytes_of(
            data.drop_first(),
        )
    }
}

proof fn lemma_hex_bytes_ascii(data: Seq<u8>)
    ensures
        forall|i: int| 0 <= i < hex_bytes_of(data).len() ==> #[trigger] hex_bytes_of(data)[i]
            < 0x80,
    decreases data.len(),
{
    if data.len() > 0 {
        lemma_hex_bytes_ascii(data.drop_first());
        let head = seq![hex_digit_lower(data[0] / 16), hex_digit_lower(data[0] % 16)];
        let tail = hex_bytes_of(data.drop_first());
        assert(hex_bytes_of(data) == head + tail);
        assert forall|i: int| 0 <= i < hex_bytes_of(data).len() implies #[trigger] hex_bytes_of(
            data,
        )[i] < 0x80 by {
            if i < 2 {
                assert(hex_bytes_of(data)[i] == head[i]);
            } else {
                assert(hex_bytes_of(data)[i] == tail[i - 2]);
            }
        }
    }
}

proof fn lemma_hex_bytes_len(data: Seq<u8>)
    ensures
        hex_bytes_of(data).len() == 2 * data.len(),
    decreases data.len(),
{
    if data.len() > 0 {
        lemma_hex_bytes_len(data.drop_first());
    }
}

/// Renders bytes as lower-case hexadecimal digits.
fn to_hex(data: &[u8]) -> (r: Vec<u8>)
    ensures
        r@ == hex_bytes_of(data@),
{
    let mut r: Vec<u8> = Vec::new();
    let n = data.len();
    proof {
        assert(data@.skip(0) =~= data@);
    }
    for i in 0..n
        invariant
            n == data@.len(),
            hex_bytes_of(data@) == r@ + hex_bytes_of(data@.skip(i as int)),
        decreases n - i,
    {
        let b = data[i];
        let hi = b / 16;
        let lo = b % 16;
        r.push(if hi < 10 {
            0x30 + hi
        } else {
            0x61 + (hi - 10)
        });
        r.push(if lo < 10 {
            0x30 + lo
        } else {
            0x61 + (lo - 10)
        });
        proof {
            let rest = data@.skip(i as int);
            assert(rest[0] == data@[i as int]);
            assert(rest.drop_first() =~= data@.skip(i + 1));
            assert(hex_bytes_of(rest) == seq![
                hex_digit_lower(data@[i as int] / 16),
                hex_digit_lower(data@[i as int] % 16),
            ] + hex_bytes_of(data@.skip(i + 1)));
            assert(hex_bytes_of(data@) =~= r@ + hex_bytes_of(data@.skip(i + 1)));
        }
    }
    proof {
        assert(data@.skip(n as int) =~= Seq::<u8>::empty());
        assert(hex_bytes_of(data@) =~= r@);
    }
    r
}

/// The password hash as text: the SHA-256 digest of the password's UTF-8
/// bytes, rendered as lower-case hexadecimal.
pub open spec fn spec_hash_password(password: Seq<char>) -> Seq<char> {
    text_or_empty(hex_bytes_of(sha256_digest_of(encode_utf8(password))))
}

/// Hashes a password for the credential store: SHA-256, then lower-case
/// hexadecimal text.
pub fn hash_password(password: &str) -> (r: String)
    ensures
        r@ == spec_hash_password(password@),
        r@.len() == 64,
{
    let digest = sha256_digest(password.as_bytes());
    let hex = to_hex(digest.as_slice());
    proof {
        lemma_hex_bytes_ascii(digest@);
        lemma_hex_bytes_len(digest@);
        lemma_ascii_decode(hex@);
        assert(hex@.len() == 64);
    }
    to_text_or_empty(hex)
}

} // verus!
