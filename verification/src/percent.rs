//! Percent-decoding of URL-encoded bytes, and a matching encoder.
use vstd::prelude::*;

verus! {

/// True for ASCII hexadecimal digits in any case.
pub open spec fn is_hex_digit(b: u8) -> bool {
    (0x30 <= b && b <= 0x39) || (0x41 <= b && b <= 0x46) || (0x61 <= b && b <= 0x66)
}

/// The value of an ASCII hexadecimal digit (zero on other bytes).
pub open spec fn hex_val(b: u8) -> u8 {
    if 0x30 <= b && b <= 0x39 {
        (b - 0x30) as u8
    } else if 0x41 <= b && b <= 0x46 {
        (b - 0x41 + 10) as u8
    } else if 0x61 <= b && b <= 0x66 {
        (b - 0x61 + 10) as u8
    } else {
        0
    }
}

/// Percent-decoding: each `%` followed by two hexadecimal digits becomes the
/// denoted byte; a `%` followed by one hexadecimal digit and a non-digit
/// passes through with that digit; any other byte passes through unchanged.
/// An unencoded `+` is preserved, not turned into a space.
pub open spec fn percent_decoded(s: Seq<u8>) -> Seq<u8>
    decreases s.len(),
{
    if s.len() == 0 {
        s
    } else if s[0] == 0x25 {
        if s.len() >= 3 && is_hex_digit(s[1]) && is_hex_digit(s[2]) {
            seq![(hex_val(s[1]) * 16 + hex_val(s[2])) as u8] + percent_decoded(
                s.subrange(3, s.len() as int),
            )
        } else if s.len() >= 3 && is_hex_digit(s[1]) {
            seq![0x25u8, s[1]] + percent_decoded(s.subrange(2, s.len() as int))
        } else if s.len() >= 3 {
            seq![0x25u8] + percent_decoded(s.subrange(1, s.len() as int))
        } else {
            s
        }
    } else {
        seq![s[0]] + percent_decoded(s.subrange(1, s.len() as int))
    }
}

/// Relies on `urlencoding::decode_binary`: replaces each `%XX` escape that
/// carries two hexadecimal digits by the denoted byte and leaves every other
/// byte as it stands, per `percent_decoded`.
#[verifier::external_body]
pub(crate) fn percent_decode_bytes(s: &[u8]) -> (r: Vec<u8>)
    ensures
        r@ == percent_decoded(s@),
{
    urlencoding::decode_binary(s).into_owned()
}

/// Bytes that the encoder passes through unchanged: ASCII alphanumerics and
/// `-`, `_`, `.`, `~`.
pub open spec fn is_unreserved(b: u8) -> bool {
    (0x30 <= b && b <= 0x39) || (0x41 <= b && b <= 0x5a) || (0x61 <= b && b <= 0x7a) || b == 0x2d
        || b == 0x5f || b == 0x2e || b == 0x7e
}

/// The upper-case ASCII hexadecimal digit for a value below 16.
pub open spec fn hex_digit_of(v: u8) -> u8 {
    if v < 10 {
        (0x30 + v) as u8
    } else {
        (0x41 + (v - 10)) as u8
    }
}

/// Percent-encoding: unreserved bytes pass through; every other byte becomes
/// `%` and two upper-case hexadecimal digits.
pub open spec fn percent_encoded(s: Seq<u8>) -> Seq<u8>
    decreases s.len(),
{
    if s.len() == 0 {
        s
    } else if is_unreserved(s[0]) {
        seq![s[0]] + percent_encoded(s.subrange(1, s.len() as int))
    } else {
        seq![0x25u8, hex_digit_of(s[0] / 16), hex_digit_of(s[0] % 16)] + percent_encoded(
            s.subrange(1, s.len() as int),
        )
    }
}

fn hex_digit(v: u8) -> (r: u8)
    requires
        v < 16,
    ensures
        r == hex_digit_of(v),
{
    if v < 10 {
        0x30 + v
    } else {
        0x41 + (v - 10)
    }
}

/// Percent-encodes a byte sequence.
pub fn percent_encode_bytes(s: &[u8]) -> (r: Vec<u8>)
    ensures
        r@ == percent_encoded(s@),
    decreases s@.len(),
{
    if s.len() == 0 {
        Vec::new()
    } else {
        let b = s[0];
        let unreserved = (0x30 <= b && b <= 0x39) || (0x41 <= b && b <= 0x5a) || (0x61 <= b && b
            <= 0x7a) || b == 0x2d || b == 0x5f || b == 0x2e || b == 0x7e;
        let mut r: Vec<u8> = Vec::new();
        if unreserved {
            r.push(b);
        } else {
            r.push(0x25);
            r.push(hex_digit(b / 16));
            r.push(hex_digit(b % 16));
        }
        let mut rest = percent_encode_bytes(&s[1..s.len()]);
        let ghost head = r@;
        r.append(&mut rest);
        proof {
            if unreserved {
                assert(head =~= seq![s@[0]]);
            } else {
                assert(head =~= seq![0x25u8, hex_digit_of(s@[0] / 16), hex_digit_of(s@[0] % 16)]);
            }
            assert(r@ == head + percent_encoded(s@.subrange(1, s@.len() as int)));
        }
        r
    }
}

/// Every byte the encoder emits is unreserved, a `%`, or an upper-case
/// hexadecimal digit; in particular neither `&` nor `=` ever appears.
pub proof fn lemma_percent_encoded_bytes(s: Seq<u8>)
    ensures
        forall|i: int|
            0 <= i < percent_encoded(s).len() ==> (is_unreserved(#[trigger] percent_encoded(s)[i])
                || percent_encoded(s)[i] == 0x25 || (0x30 <= percent_encoded(s)[i]
                && percent_encoded(s)[i] <= 0x39) || (0x41 <= percent_encoded(s)[i]
                && percent_encoded(s)[i] <= 0x46)),
    decreases s.len(),
{
    if s.len() > 0 {
        lemma_percent_encoded_bytes(s.subrange(1, s.len() as int));
        let head: Seq<u8> = if is_unreserved(s[0]) {
            seq![s[0]]
        } else {
            seq![0x25u8, hex_digit_of(s[0] / 16), hex_digit_of(s[0] % 16)]
        };
        let tail = percent_encoded(s.subrange(1, s.len() as int));
        assert(percent_encoded(s) == head + tail);
        assert forall|i: int| 0 <= i < percent_encoded(s).len() implies (is_unreserved(
            #[trigger] percent_encoded(s)[i],
        ) || percent_encoded(s)[i] == 0x25 || (0x30 <= percent_encoded(s)[i] && percent_encoded(
            s,
        )[i] <= 0x39) || (0x41 <= percent_encoded(s)[i] && percent_encoded(s)[i] <= 0x46)) by {
            if i < head.len() {
                assert(percent_encoded(s)[i] == head[i]);
            } else {
                assert(percent_encoded(s)[i] == tail[i - head.len()]);
            }
        }
    }
}

/// Decoding undoes encoding: `percent_decoded(percent_encoded(s)) == s`.
pub proof fn lemma_percent_round_trip(s: Seq<u8>)
    ensures
        percent_decoded(percent_encoded(s)) == s,
    decreases s.len(),
{
    if s.len() == 0 {
        assert(percent_decoded(percent_encoded(s)) =~= s);
    } else {
        let tail = s.subrange(1, s.len() as int);
        lemma_percent_round_trip(tail);
        let e = percent_encoded(s);
        if is_unreserved(s[0]) {
            assert(e == seq![s[0]] + percent_encoded(tail));
            assert(e[0] == s[0]);
            assert(e[0] != 0x25);
            assert(e.subrange(1, e.len() as int) =~= percent_encoded(tail));
            assert(percent_decoded(e) == seq![s[0]] + percent_decoded(percent_encoded(tail)));
            assert(percent_decoded(e) =~= s);
        } else {
            let h1 = hex_digit_of(s[0] / 16);
            let h2 = hex_digit_of(s[0] % 16);
            assert(e == seq![0x25u8, h1, h2] + percent_encoded(tail));
            assert(e[0] == 0x25 && e[1] == h1 && e[2] == h2);
            assert(is_hex_digit(h1) && is_hex_digit(h2));
            assert(hex_val(h1) == s[0] / 16 && hex_val(h2) == s[0] % 16);
            assert(e.len() >= 3);
            assert(e.subrange(3, e.len() as int) =~= percent_encoded(tail));
            assert(hex_val(h1) * 16 + hex_val(h2) == s[0]);
            assert(percent_decoded(e) == seq![s[0]] + percent_decoded(percent_encoded(tail)));
            assert(percent_decoded(e) =~= s);
        }
    }
}

} // verus!
