//! The wall clock, and the `YYYY-MM-DD HH:MM:SS` rendering of a
//! broken-down time.
use vstd::prelude::*;

verus! {

use crate::bytes::{
    dec_digits, u64_to_dec, to_text_or_empty, text_or_empty, lemma_dec_digits_ascii,
    lemma_ascii_decode,
};

/// Relies on `std::time::SystemTime::now` and `Duration::as_secs`: seconds
/// since the Unix epoch as the system clock reads now, zero when the clock
/// reads before the epoch. Nothing is promised of the value.
#[verifier::external_body]
pub fn get_timestamp() -> u64 {
    std::time::SystemTime::now().duration_since(std::time::UNIX_EPOCH).unwrap_or_default().as_secs(
    )
}

/// The decimal digits of `n`, left-padded with zeros to at least `w`
/// digits.
pub open spec fn pad_dec(n: nat, w: nat) -> Seq<u8> {
    let d = dec_digits(n);
    if d.len() >= w {
        d
    } else {
        Seq::new((w - d.len()) as nat, |i: int| 0x30u8) + d
    }
}

fn pad_dec_exec(n: u64, w: usize) -> (r: Vec<u8>)
    ensures
        r@ == pad_dec(n as nat, w as nat),
{
    let d = u64_to_dec(n);
    if d.len() >= w {
        d
    } else {
        let mut r: Vec<u8> = Vec::new();
        let k = w - d.len();
        for i in 0..k
            invariant
                r@.len() == i,
                forall|j: int| 0 <= j < i ==> r@[j] == 0x30u8,
        {
            r.push(0x30);
        }
        r.extend_from_slice(d.as_slice());
        proof {
            assert(r@ =~= pad_dec(n as nat, w as nat));
        }
        r
    }
}

/// The bytes of `YYYY-MM-DD HH:MM:SS` for a broken-down time, each field
/// zero-padded to its width.
pub open spec fn time_bytes(y: nat, mo: nat, d: nat, h: nat, mi: nat, s: nat) -> Seq<u8> {
    pad_dec(y, 4) + seq![0x2du8] + pad_dec(mo, 2) + seq![0x2du8] + pad_dec(d, 2) + seq![0x20u8]
        + pad_dec(h, 2) + seq![0x3au8] + pad_dec(mi, 2) + seq![0x3au8] + pad_dec(s, 2)
}

proof fn lemma_pad_dec_ascii(n: nat, w: nat)
    ensures
        forall|i: int| 0 <= i < pad_dec(n, w).len() ==> #[trigger] pad_dec(n, w)[i] < 0x80,
{
    lemma_dec_digits_ascii(n);
    let d = dec_digits(n);
    assert forall|i: int| 0 <= i < pad_dec(n, w).len() implies #[trigger] pad_dec(n, w)[i]
        < 0x80 by {
        if d.len() >= w {
            assert(pad_dec(n, w)[i] == d[i]);
        } else {
            if i < w - d.len() {
                assert(pad_dec(n, w)[i] == 0x30u8);
            } else {
                assert(pad_dec(n, w)[i] == d[i - (w - d.len())]);
            }
        }
    }
}

/// Renders a broken-down local time as `YYYY-MM-DD HH:MM:SS`, each field
/// zero-padded.
pub fn format_time(y: u64, mo: u64, d: u64, h: u64, mi: u64, s: u64) -> (r: String)
    ensures
        r@ == text_or_empty(
            time_bytes(y as nat, mo as nat, d as nat, h as nat, mi as nat, s as nat),
        ),
{
    let mut b = pad_dec_exec(y, 4);
    b.push(0x2d);
    let mut p = pad_dec_exec(mo, 2);
    b.append(&mut p);
    b.push(0x2d);
    let mut p2 = pad_dec_exec(d, 2);
    b.append(&mut p2);
    b.push(0x20);
    let mut p3 = pad_dec_exec(h, 2);
    b.append(&mut p3);
    b.push(0x3a);
    let mut p4 = pad_dec_exec(mi, 2);
    b.append(&mut p4);
    b.push(0x3a);
    let mut p5 = pad_dec_exec(s, 2);
    b.append(&mut p5);
    proof {
        assert(b@ =~= time_bytes(y as nat, mo as nat, d as nat, h as nat, mi as nat, s as nat));
        lemma_pad_dec_ascii(y as nat, 4);
        lemma_pad_dec_ascii(mo as nat, 2);
        lemma_pad_dec_ascii(d as nat, 2);
        lemma_pad_dec_ascii(h as nat, 2);
        lemma_pad_dec_ascii(mi as nat, 2);
        lemma_pad_dec_ascii(s as nat, 2);
        assert forall|i: int| 0 <= i < b@.len() implies #[trigger] b@[i] < 0x80 by {
            lemma_time_bytes_index(
                y as nat,
                mo as nat,
                d as nat,
                h as nat,
                mi as nat,
                s as nat,
                i,
            );
        }
        lemma_ascii_decode(b@);
    }
    to_text_or_empty(b)
}

proof fn lemma_time_bytes_index(y: nat, mo: nat, d: nat, h: nat, mi: nat, s: nat, i: int)
    requires
        0 <= i < time_bytes(y, mo, d, h, mi, s).len(),
    ensures
        time_bytes(y, mo, d, h, mi, s)[i] < 0x80,
{
    lemma_pad_dec_ascii(y, 4);
    lemma_pad_dec_ascii(mo, 2);
    lemma_pad_dec_ascii(d, 2);
    lemma_pad_dec_ascii(h, 2);
    lemma_pad_dec_ascii(mi, 2);
    lemma_pad_dec_ascii(s, 2);
}

} // verus!
