//! Serialization of HTTP/1.1 responses: status line, exact byte-length
//! Content-Length, Content-Type, and body.
use vstd::prelude::*;

verus! {

use crate::bytes::{
    dec_digits, dec_value, u64_to_dec, bytes_to_string, lemma_dec_digits_value,
    lemma_dec_digits_ascii, lemma_ascii_decode,
};
use crate::form::str_eq;
use vstd::utf8::{encode_utf8, valid_utf8, decode_utf8};
use vstd::string::StrSliceExecFns;

/// The serialized header block of a response whose body is `n` bytes long.
pub open spec fn spec_head_block(status: u16, reason: Seq<char>, ctype: Seq<char>, n: nat) -> Seq<
    u8,
> {
    encode_utf8("HTTP/1.1 "@) + dec_digits(status as nat) + encode_utf8(" "@) + encode_utf8(reason)
        + encode_utf8("\r\nContent-Length: "@) + dec_digits(n) + encode_utf8(
        "\r\nContent-Type: "@,
    ) + encode_utf8(ctype) + encode_utf8("\r\n\r\n"@)
}

/// A whole serialized response: the header block, whose Content-Length is
/// the body's byte count, followed by the body.
pub open spec fn spec_response(
    status: u16,
    reason: Seq<char>,
    ctype: Seq<char>,
    body: Seq<u8>,
) -> Seq<u8> {
    spec_head_block(status, reason, ctype, body.len()) + body
}

/// The emitted `Content-Length` denotes exactly the byte length of the body
/// that follows the blank line: the response is the header block built from
/// `body.len()` followed by `body` itself, and the decimal digits placed
/// after `Content-Length: ` read back as that very number.
pub proof fn lemma_content_length_exact(
    status: u16,
    reason: Seq<char>,
    ctype: Seq<char>,
    body: Seq<u8>,
)
    ensures
        spec_response(status, reason, ctype, body) == spec_head_block(
            status,
            reason,
            ctype,
            body.len(),
        ) + body,
        dec_value(dec_digits(body.len())) == body.len(),
{
    lemma_dec_digits_value(body.len());
}

/// Serializes a response: `HTTP/1.1 <code> <reason>`, `Content-Length` set
/// to the body's exact byte count, `Content-Type`, a blank line, the body.
pub fn build_response(status: u16, reason: &str, ctype: &str, body: &[u8]) -> (r: Vec<u8>)
    ensures
        r@ == spec_response(status, reason@, ctype@, body@),
{
    let mut r: Vec<u8> = Vec::new();
    r.extend_from_slice("HTTP/1.1 ".as_bytes());
    let mut d = u64_to_dec(status as u64);
    r.append(&mut d);
    r.extend_from_slice(" ".as_bytes());
    r.extend_from_slice(reason.as_bytes());
    r.extend_from_slice("\r\nContent-Length: ".as_bytes());
    let mut d2 = u64_to_dec(body.len() as u64);
    r.append(&mut d2);
    r.extend_from_slice("\r\nContent-Type: ".as_bytes());
    r.extend_from_slice(ctype.as_bytes());
    r.extend_from_slice("\r\n\r\n".as_bytes());
    r.extend_from_slice(body);
    proof {
        assert(r@ =~= spec_response(status, reason@, ctype@, body@));
    }
    r
}

/// The position in `path` where its extension starts: right after the last
/// `.`, or the start of the whole text when there is no `.`.
pub open spec fn ext_start(path: Seq<char>) -> int
    decreases path.len(),
{
    if path.len() == 0 {
        0
    } else if path.last() == '.' {
        path.len() as int
    } else {
        ext_start(path.drop_last())
    }
}

/// The extension of `path`: the text after its last `.`, or all of it when
/// there is no `.`.
pub open spec fn extension_of(path: Seq<char>) -> Seq<char> {
    path.subrange(ext_start(path), path.len() as int)
}

/// The content type inferred from a path's extension, with
/// `application/octet-stream` as the default.
pub open spec fn spec_content_type(path: Seq<char>) -> Seq<char> {
    let e = extension_of(path);
    if e == "html"@ {
        "text/html"@
    } else if e == "css"@ {
        "text/css"@
    } else if e == "js"@ {
        "application/javascript"@
    } else if e == "png"@ {
        "image/png"@
    } else if e == "jpg"@ || e == "jpeg"@ {
        "image/jpeg"@
    } else if e == "txt"@ {
        "text/plain"@
    } else {
        "application/octet-stream"@
    }
}

proof fn lemma_ext_start_bounds(path: Seq<char>)
    ensures
        0 <= ext_start(path) <= path.len(),
    decreases path.len(),
{
    if path.len() > 0 && path.last() != '.' {
        lemma_ext_start_bounds(path.drop_last());
    }
}

/// Infers the content type a file is served with from its extension.
pub fn get_content_type(path: &str) -> (r: &'static str)
    ensures
        r@ == spec_content_type(path@),
{
    let n = path.unicode_len();
    let mut start: usize = 0;
    proof {
        assert(path@.subrange(0, 0) =~= Seq::<char>::empty());
    }
    for i in 0..n
        invariant
            n == path@.len(),
            0 <= start <= i,
            start == ext_start(path@.subrange(0, i as int)),
    {
        let c = path.get_char(i);
        proof {
            let pre = path@.subrange(0, i + 1);
            assert(pre.last() == path@[i as int]);
            assert(pre.drop_last() =~= path@.subrange(0, i as int));
        }
        if c == '.' {
            start = i + 1;
        }
    }
    proof {
        assert(path@.subrange(0, n as int) =~= path@);
        lemma_ext_start_bounds(path@);
    }
    let e = path.substring_char(start, n);
    if str_eq(e, "html") {
        "text/html"
    } else if str_eq(e, "css") {
        "text/css"
    } else if str_eq(e, "js") {
        "application/javascript"
    } else if str_eq(e, "png") {
        "image/png"
    } else if str_eq(e, "jpg") || str_eq(e, "jpeg") {
        "image/jpeg"
    } else if str_eq(e, "txt") {
        "text/plain"
    } else {
        "application/octet-stream"
    }
}

/// The fixed page served for every unmatched route, missing file, or failed
/// decode.
pub open spec fn not_found_page() -> Seq<char> {
    "<!DOCTYPE html>\n<html>\n<head><title>Page not found</title></head>\n<body>\n<h1>404 - Page not found</h1>\n<p>No such page exists. Try <a href=\"/\">the start page</a>.</p>\n</body>\n</html>"@
}

/// The fixed not-found page as a string slice.
pub fn not_found_body() -> (r: &'static str)
    ensures
        r@ == not_found_page(),
{
    "<!DOCTYPE html>\n<html>\n<head><title>Page not found</title></head>\n<body>\n<h1>404 - Page not found</h1>\n<p>No such page exists. Try <a href=\"/\">the start page</a>.</p>\n</body>\n</html>"
}

/// Valid UTF-8 pieces concatenate to a valid UTF-8 header block and body.
pub proof fn lemma_response_valid(status: u16, reason: Seq<char>, ctype: Seq<char>, body: Seq<u8>)
    requires
        valid_utf8(body),
    ensures
        valid_utf8(spec_response(status, reason, ctype, body)),
{
    broadcast use vstd::utf8::encode_utf8_valid_utf8;
    broadcast use vstd::utf8::valid_utf8_concat;

    lemma_dec_digits_ascii(status as nat);
    lemma_ascii_decode(dec_digits(status as nat));
    lemma_dec_digits_ascii(body.len());
    lemma_ascii_decode(dec_digits(body.len()));
    let a1 = encode_utf8("HTTP/1.1 "@);
    let a2 = dec_digits(status as nat);
    let a3 = encode_utf8(" "@);
    let a4 = encode_utf8(reason);
    let a5 = encode_utf8("\r\nContent-Length: "@);
    let a6 = dec_digits(body.len());
    let a7 = encode_utf8("\r\nContent-Type: "@);
    let a8 = encode_utf8(ctype);
    let a9 = encode_utf8("\r\n\r\n"@);
    assert(valid_utf8(a1 + a2));
    assert(valid_utf8((a1 + a2) + a3));
    assert(valid_utf8(((a1 + a2) + a3) + a4));
    assert(valid_utf8((((a1 + a2) + a3) + a4) + a5));
    assert(valid_utf8(((((a1 + a2) + a3) + a4) + a5) + a6));
    assert(valid_utf8((((((a1 + a2) + a3) + a4) + a5) + a6) + a7));
    assert(valid_utf8(((((((a1 + a2) + a3) + a4) + a5) + a6) + a7) + a8));
    assert(valid_utf8((((((((a1 + a2) + a3) + a4) + a5) + a6) + a7) + a8) + a9));
    assert(valid_utf8(((((((((a1 + a2) + a3) + a4) + a5) + a6) + a7) + a8) + a9) + body));
    assert(spec_response(status, reason, ctype, body) =~= ((((((((a1 + a2) + a3) + a4) + a5) + a6)
        + a7) + a8) + a9) + body);
}

/// Serializes a response as text, for bodies that are themselves text.
pub fn build_response_text(status: u16, reason: &str, ctype: &str, body: &str) -> (r: String)
    ensures
        encode_utf8(r@) == spec_response(status, reason@, ctype@, encode_utf8(body@)),
{
    let bytes = build_response(status, reason, ctype, body.as_bytes());
    proof {
        broadcast use vstd::utf8::encode_utf8_valid_utf8;
        broadcast use vstd::utf8::decode_utf8_encode_utf8;

        lemma_response_valid(status, reason@, ctype@, encode_utf8(body@));
    }
    match bytes_to_string(bytes) {
        Some(s) => s,
        None => vstd::pervasive::unreached(),
    }
}

/// The full not-found response, as the fixed text the server writes.
pub fn not_found_response() -> (r: String)
    ensures
        encode_utf8(r@) == spec_response(
            404,
            "NOT FOUND"@,
            "text/html"@,
            encode_utf8(not_found_page()),
        ),
{
    build_response_text(404, "NOT FOUND", "text/html", not_found_body())
}

/// Serves file bytes read from disk with the content type its path implies,
/// or the fixed not-found response when the read failed.
pub fn static_response(path: &str, file: Option<Vec<u8>>) -> (r: Vec<u8>)
    ensures
        match file {
            Some(bytes) => r@ == spec_response(200, "OK"@, spec_content_type(path@), bytes@),
            None => r@ == spec_response(
                404,
                "NOT FOUND"@,
                "text/html"@,
                encode_utf8(not_found_page()),
            ),
        },
{
    match file {
        Some(bytes) => {
            let ct = get_content_type(path);
            build_response(200, "OK", ct, bytes.as_slice())
        },
        None => build_response(404, "NOT FOUND", "text/html", not_found_body().as_bytes()),
    }
}

/// Serves a template page read from disk verbatim as HTML, or the fixed
/// not-found response when the read failed.
pub fn page_response(contents: Option<String>) -> (r: Vec<u8>)
    ensures
        match contents {
            Some(c) => r@ == spec_response(200, "OK"@, "text/html"@, encode_utf8(c@)),
            None => r@ == spec_response(
                404,
                "NOT FOUND"@,
                "text/html"@,
                encode_utf8(not_found_page()),
            ),
        },
{
    match contents {
        Some(c) => build_response(200, "OK", "text/html", c.as_str().as_bytes()),
        None => build_response(404, "NOT FOUND", "text/html", not_found_body().as_bytes()),
    }
}

} // verus!
