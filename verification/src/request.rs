//! Framing and parsing of a raw HTTP/1.1 request: request line, headers,
//! body, and the multipart boundary token.
use vstd::prelude::*;

verus! {

use crate::bytes::{
    find_first, split_by, lines_of, strip_cr, is_space, starts_with, first_line_starting,
    lossy_chars, split_slice, find_sub, check_starts_with, bytes_to_string_lossy,
    lemma_find_first, lemma_first_line_starting, lemma_split_by_len,
};
use crate::multipart::blank_line;
use vstd::utf8::encode_utf8;

/// One parsed request: method, path, the header lines of interest, and the
/// raw body bytes. Built once per connection and never reused.
pub struct RawRequest {
    pub method: String,
    pub path: String,
    pub headers: Vec<(String, String)>,
    pub body: Vec<u8>,
}

/// The head region: the bytes before the first blank-line marker, or all of
/// the data when the marker is absent.
pub open spec fn spec_head(data: Seq<u8>) -> Seq<u8> {
    match find_first(data, blank_line()) {
        Some(i) => data.subrange(0, i),
        None => data,
    }
}

/// The body: the bytes after the first blank-line marker, or empty when the
/// marker is absent.
pub open spec fn spec_body(data: Seq<u8>) -> Seq<u8> {
    match find_first(data, blank_line()) {
        Some(i) => data.subrange(i + 4, data.len() as int),
        None => Seq::empty(),
    }
}

/// The maximal non-whitespace runs of `s`, in order.
pub open spec fn split_ws(s: Seq<u8>) -> Seq<Seq<u8>>
    decreases s.len(),
{
    if s.len() == 0 {
        Seq::empty()
    } else if is_space(s[0]) {
        split_ws(s.drop_first())
    } else {
        let r = split_ws(s.drop_first());
        if s.len() > 1 && !is_space(s[1]) && r.len() > 0 {
            seq![seq![s[0]] + r[0]] + r.drop_first()
        } else {
            seq![seq![s[0]]] + r
        }
    }
}

/// The request line: the first line of the head region.
pub open spec fn request_line(data: Seq<u8>) -> Seq<u8> {
    let ls = lines_of(spec_head(data));
    if ls.len() > 0 {
        ls[0]
    } else {
        Seq::empty()
    }
}

/// The method: the request line's first token, or empty if there is none.
pub open spec fn spec_method(data: Seq<u8>) -> Seq<u8> {
    let t = split_ws(request_line(data));
    if t.len() >= 1 {
        t[0]
    } else {
        Seq::empty()
    }
}

/// The path: the request line's second token, or `/` if there is none.
pub open spec fn spec_path(data: Seq<u8>) -> Seq<u8> {
    let t = split_ws(request_line(data));
    if t.len() >= 2 {
        t[1]
    } else {
        seq![0x2fu8]
    }
}

/// The header a line denotes: the bytes before its first `:` and the bytes
/// after it with one leading space removed, or nothing for a line without
/// `:`.
pub open spec fn header_of_line(l: Seq<u8>) -> Option<(Seq<u8>, Seq<u8>)> {
    match find_first(l, seq![0x3au8]) {
        Some(i) => {
            let v = l.subrange(i + 1, l.len() as int);
            Some(
                (
                    l.subrange(0, i),
                    if v.len() > 0 && v[0] == 0x20 {
                        v.drop_first()
                    } else {
                        v
                    },
                ),
            )
        },
        None => None,
    }
}

/// The headers denoted by a list of lines, in order, case preserved.
pub open spec fn headers_of_lines(ls: Seq<Seq<u8>>) -> Seq<(Seq<u8>, Seq<u8>)>
    decreases ls.len(),
{
    if ls.len() == 0 {
        Seq::empty()
    } else {
        let rest = headers_of_lines(ls.drop_first());
        match header_of_line(ls[0]) {
            Some(h) => seq![h] + rest,
            None => rest,
        }
    }
}

/// The header lines of a request: every line of the head region after the
/// request line that carries a `:`.
pub open spec fn spec_headers(data: Seq<u8>) -> Seq<(Seq<u8>, Seq<u8>)> {
    headers_of_lines(lines_of(spec_head(data)).drop_first())
}

/// The bytes of `Content-Type: multipart/form-data`.
pub open spec fn ct_marker() -> Seq<u8> {
    encode_utf8("Content-Type: multipart/form-data"@)
}

/// The bytes of `boundary=`.
pub open spec fn boundary_marker() -> Seq<u8> {
    encode_utf8("boundary="@)
}

/// The boundary token of a request: on the first head line that begins with
/// `Content-Type: multipart/form-data`, the bytes between the first
/// `boundary=` and the next, or to the line's end. Absent, or empty, counts
/// as no boundary.
pub open spec fn spec_boundary(data: Seq<u8>) -> Option<Seq<u8>> {
    let ls = lines_of(spec_head(data));
    match first_line_starting(ls, ct_marker()) {
        Some(i) => {
            let pieces = split_by(ls[i], boundary_marker());
            if pieces.len() >= 2 && pieces[1].len() > 0 {
                Some(pieces[1])
            } else {
                None
            }
        },
        None => None,
    }
}

proof fn lemma_ct_markers()
    ensures
        ct_marker().len() == 33,
        boundary_marker().len() == 9,
{
    reveal_strlit("Content-Type: multipart/form-data");
    reveal_strlit("boundary=");
    let c = "Content-Type: multipart/form-data"@;
    let b = "boundary="@;
    assert(c.len() == 33);
    assert(b.len() == 9);
    assert(vstd::utf8::is_ascii_chars(c));
    assert(vstd::utf8::is_ascii_chars(b));
    vstd::utf8::is_ascii_chars_encode_utf8(c);
    vstd::utf8::is_ascii_chars_encode_utf8(b);
}

/// The head region of the raw data, as a slice.
fn head_slice<'a>(data: &'a [u8]) -> (r: &'a [u8])
    ensures
        r@ == spec_head(data@),
{
    let bl = "\r\n\r\n".as_bytes();
    proof {
        reveal_strlit("\r\n\r\n");
        let s = "\r\n\r\n"@;
        assert(s.len() == 4);
        assert(vstd::utf8::is_ascii_chars(s));
        vstd::utf8::is_ascii_chars_encode_utf8(s);
        assert(bl@ =~= blank_line());
    }
    match find_sub(data, bl) {
        Some(i) => {
            proof {
                lemma_find_first(data@, blank_line());
            }
            &data[0..i]
        },
        None => data,
    }
}

/// The body region of the raw data, as a slice.
pub fn body_slice<'a>(data: &'a [u8]) -> (r: &'a [u8])
    ensures
        r@ == spec_body(data@),
{
    let bl = "\r\n\r\n".as_bytes();
    proof {
        reveal_strlit("\r\n\r\n");
        let s = "\r\n\r\n"@;
        assert(s.len() == 4);
        assert(vstd::utf8::is_ascii_chars(s));
        vstd::utf8::is_ascii_chars_encode_utf8(s);
        assert(bl@ =~= blank_line());
    }
    let data_len = data.len();
    match find_sub(data, bl) {
        Some(i) => {
            proof {
                lemma_find_first(data@, blank_line());
            }
            &data[i + 4..data_len]
        },
        None => {
            let r = &data[data_len..data_len];
            proof {
                assert(r@ =~= spec_body(data@));
            }
            r
        },
    }
}

/// The lines of the head region, each without its trailing carriage return.
fn head_lines(data: &[u8]) -> (r: Vec<Vec<u8>>)
    ensures
        r.deep_view() == lines_of(spec_head(data@)),
{
    let head = head_slice(data);
    let mut nl: Vec<u8> = Vec::new();
    nl.push(0x0a);
    proof {
        assert(nl@ =~= seq![0x0au8]);
    }
    let raw = split_slice(head, nl.as_slice());
    let mut r: Vec<Vec<u8>> = Vec::new();
    let n = raw.len();
    for i in 0..n
        invariant
            n == raw@.len(),
            raw.deep_view() == split_by(spec_head(data@), seq![0x0au8]),
            r@.len() == i,
            forall|j: int| 0 <= j < i ==> r.deep_view()[j] == strip_cr(raw.deep_view()[j]),
    {
        let line = &raw[i];
        proof {
            assert(line@ == raw.deep_view()[i as int]);
        }
        let ghost old_r = r.deep_view();
        if line.len() > 0 && line[line.len() - 1] == 0x0d {
            let stripped = vstd::slice::slice_to_vec(&line.as_slice()[0..line.len() - 1]);
            proof {
                assert(stripped@ =~= strip_cr(line@));
            }
            r.push(stripped);
            proof {
                assert(r.deep_view() =~~= old_r.push(strip_cr(line@)));
            }
        } else {
            let whole = vstd::slice::slice_to_vec(line.as_slice());
            proof {
                assert(whole@ =~= strip_cr(line@));
            }
            r.push(whole);
            proof {
                assert(r.deep_view() =~~= old_r.push(strip_cr(line@)));
            }
        }
    }
    proof {
        assert(r.deep_view() =~~= lines_of(spec_head(data@)));
    }
    r
}

/// Extracts the multipart boundary token from the request head, if the
/// Content-Type header declares one that is not empty.
pub fn extract_boundary(data: &[u8]) -> (r: Option<Vec<u8>>)
    ensures
        match r {
            Some(b) => spec_boundary(data@) == Some(b@) && b@.len() > 0,
            None => spec_boundary(data@) is None,
        },
{
    let lines = head_lines(data);
    let ct = "Content-Type: multipart/form-data".as_bytes();
    let bm = "boundary=".as_bytes();
    proof {
        lemma_ct_markers();
        assert(ct@ == ct_marker());
        assert(bm@ == boundary_marker());
    }
    let n = lines.len();
    for i in 0..n
        invariant
            n == lines@.len(),
            ct@ == ct_marker(),
            bm@ == boundary_marker(),
            bm@.len() == 9,
            lines.deep_view() == lines_of(spec_head(data@)),
            forall|j: int| 0 <= j < i ==> !starts_with(lines.deep_view()[j], ct_marker()),
    {
        let line = &lines[i];
        proof {
            assert(line@ == lines.deep_view()[i as int]);
        }
        if check_starts_with(line.as_slice(), ct) {
            proof {
                lemma_first_line_starting_is(lines.deep_view(), ct_marker(), i as int);
            }
            let pieces = split_slice(line.as_slice(), bm);
            if pieces.len() >= 2 {
                let piece = &pieces[1];
                proof {
                    assert(piece@ == pieces.deep_view()[1]);
                }
                if piece.len() > 0 {
                    return Some(vstd::slice::slice_to_vec(piece.as_slice()));
                }
            }
            return None;
        }
    }
    proof {
        lemma_first_line_starting(lines.deep_view(), ct_marker());
        match first_line_starting(lines.deep_view(), ct_marker()) {
            Some(k) => {
                assert(!starts_with(lines.deep_view()[k], ct_marker()));
            },
            None => {},
        }
    }
    None
}

/// If line `i` begins with `pre` and no earlier line does,
/// `first_line_starting` finds `i`.
proof fn lemma_first_line_starting_is(lines: Seq<Seq<u8>>, pre: Seq<u8>, i: int)
    requires
        0 <= i < lines.len(),
        starts_with(lines[i], pre),
        forall|j: int| 0 <= j < i ==> !starts_with(#[trigger] lines[j], pre),
    ensures
        first_line_starting(lines, pre) == Some(i),
{
    lemma_first_line_starting(lines, pre);
    match first_line_starting(lines, pre) {
        Some(k) => {
            if k < i {
                assert(!starts_with(lines[k], pre));
            } else if k > i {
                assert(!starts_with(lines[i], pre));
            }
        },
        None => {
            assert(!starts_with(lines[i], pre));
        },
    }
}

/// Splits a line into its whitespace-separated tokens.
fn split_ws_exec(s: &[u8]) -> (r: Vec<Vec<u8>>)
    ensures
        r.deep_view() == split_ws(s@),
    decreases s@.len(),
{
    if s.len() == 0 {
        let r: Vec<Vec<u8>> = Vec::new();
        proof {
            assert(r.deep_view() =~~= split_ws(s@));
        }
        r
    } else {
        let b = s[0];
        let b_space = b == 0x20 || (0x09 <= b && b <= 0x0d);
        proof {
            assert(s@.subrange(1, s@.len() as int) =~= s@.drop_first());
        }
        let mut r = split_ws_exec(&s[1..s.len()]);
        if b_space {
            r
        } else {
            let next_space = if s.len() > 1 {
                let c = s[1];
                c == 0x20 || (0x09 <= c && c <= 0x0d)
            } else {
                true
            };
            if !next_space && r.len() > 0 {
                let ghost old_r = r.deep_view();
                let first = r.remove(0);
                let mut tok: Vec<u8> = Vec::new();
                tok.push(b);
                let mut rest_of_first = first;
                tok.append(&mut rest_of_first);
                r.insert(0, tok);
                proof {
                    assert(tok@ =~= seq![s@[0]] + old_r[0]);
                    assert(r.deep_view() =~~= seq![seq![s@[0]] + old_r[0]] + old_r.drop_first());
                }
                r
            } else {
                let ghost old_r = r.deep_view();
                let mut tok: Vec<u8> = Vec::new();
                tok.push(b);
                r.insert(0, tok);
                proof {
                    assert(r.deep_view() =~~= seq![seq![s@[0]]] + old_r);
                }
                r
            }
        }
    }
}

/// Parses raw request bytes: the first line's tokens give the method and
/// path (a missing path degrades to `/`), the remaining head lines give the
/// headers, and everything after the blank-line marker is the body. Nothing
/// is rejected.
pub fn parse_request(data: &[u8]) -> (r: RawRequest)
    ensures
        r.method@ == lossy_chars(spec_method(data@)),
        r.path@ == lossy_chars(spec_path(data@)),
        r.body@ == spec_body(data@),
        r.headers@.len() == spec_headers(data@).len(),
        forall|i: int|
            0 <= i < spec_headers(data@).len() ==> (#[trigger] r.headers@[i]).0@ == lossy_chars(
                spec_headers(data@)[i].0,
            ) && r.headers@[i].1@ == lossy_chars(spec_headers(data@)[i].1),
{
    let lines = head_lines(data);
    proof {
        lemma_split_by_len(spec_head(data@), seq![0x0au8]);
        assert(lines_of(spec_head(data@)).len() >= 1);
    }
    // Method and path from the first line.
    let first = &lines[0];
    proof {
        assert(first@ == lines.deep_view()[0]);
        assert(first@ == request_line(data@));
    }
    let tokens = split_ws_exec(first.as_slice());
    proof {
        if tokens@.len() >= 1 {
            assert(tokens@[0]@ =~= tokens.deep_view()[0]);
        }
        if tokens@.len() >= 2 {
            assert(tokens@[1]@ =~= tokens.deep_view()[1]);
        }
    }
    let method: String = if tokens.len() >= 1 {
        bytes_to_string_lossy(tokens[0].as_slice())
    } else {
        let none: Vec<u8> = Vec::new();
        let r = bytes_to_string_lossy(none.as_slice());
        proof {
            assert(none@ =~= spec_method(data@));
        }
        r
    };
    let path: String = if tokens.len() >= 2 {
        bytes_to_string_lossy(tokens[1].as_slice())
    } else {
        let mut slash: Vec<u8> = Vec::new();
        slash.push(0x2f);
        proof {
            assert(slash@ =~= seq![0x2fu8]);
        }
        bytes_to_string_lossy(slash.as_slice())
    };
    proof {
        if tokens@.len() >= 1 {
            assert(tokens.deep_view()[0] == spec_method(data@));
        }
        if tokens@.len() >= 2 {
            assert(tokens.deep_view()[1] == spec_path(data@));
        }
    }
    // Headers from the remaining lines.
    let mut headers: Vec<(String, String)> = Vec::new();
    let n = lines.len();
    let mut colon: Vec<u8> = Vec::new();
    colon.push(0x3a);
    proof {
        assert(colon@ =~= seq![0x3au8]);
        assert(lines.deep_view().drop_first().skip(0) =~= lines.deep_view().drop_first());
        assert(headers_of_lines(lines.deep_view().drop_first().skip(0)) == spec_headers(data@));
    }
    let ghost mut done: Seq<(Seq<u8>, Seq<u8>)> = Seq::empty();
    let mut i: usize = 1;
    while i < n
        invariant
            1 <= i <= n,
            n == lines@.len(),
            colon@ == seq![0x3au8],
            lines.deep_view() == lines_of(spec_head(data@)),
            spec_headers(data@) == done + headers_of_lines(
                lines.deep_view().drop_first().skip(i - 1),
            ),
            headers.deep_view().len() == done.len(),
            forall|k: int|
                0 <= k < done.len() ==> (#[trigger] headers.deep_view()[k]).0 == lossy_chars(
                    done[k].0,
                ) && headers.deep_view()[k].1 == lossy_chars(done[k].1),
        decreases n - i,
    {
        let line = &lines[i];
        let ghost suffix = lines.deep_view().drop_first().skip(i - 1);
        proof {
            assert(line@ == lines.deep_view()[i as int]);
            assert(suffix.len() > 0);
            assert(suffix[0] == lines.deep_view().drop_first()[i - 1]);
            assert(suffix[0] == line@);
            assert(suffix.drop_first() =~= lines.deep_view().drop_first().skip(i as int));
        }
        match find_sub(line.as_slice(), colon.as_slice()) {
            Some(ci) => {
                proof {
                    lemma_find_first(line@, seq![0x3au8]);
                }
                let name = bytes_to_string_lossy(&line.as_slice()[0..ci]);
                let line_len = line.len();
                let vstart = if ci + 1 < line_len && line[ci + 1] == 0x20 {
                    ci + 2
                } else {
                    ci + 1
                };
                let value = bytes_to_string_lossy(&line.as_slice()[vstart..line_len]);
                let ghost old_h = headers.deep_view();
                headers.push((name, value));
                proof {
                    let hv = header_of_line(line@)->Some_0;
                    let v = line@.subrange(ci + 1, line@.len() as int);
                    if v.len() > 0 && v[0] == 0x20 {
                        assert(line@.subrange(ci + 2, line@.len() as int) =~= v.drop_first());
                    }
                    assert(line@.subrange(vstart as int, line@.len() as int) == hv.1);
                    assert(line@.subrange(0, ci as int) == hv.0);
                    assert(headers.deep_view() =~~= old_h.push(
                        (lossy_chars(hv.0), lossy_chars(hv.1)),
                    ));
                    assert(headers_of_lines(suffix) == seq![hv] + headers_of_lines(
                        suffix.drop_first(),
                    ));
                    done = done.push(hv);
                    assert(done + headers_of_lines(suffix.drop_first()) =~= done.drop_last()
                        + headers_of_lines(suffix));
                }
            },
            None => {
                proof {
                    assert(header_of_line(line@) is None);
                    assert(headers_of_lines(suffix) == headers_of_lines(suffix.drop_first()));
                }
            },
        }
        i = i + 1;
    }
    proof {
        assert(lines.deep_view().drop_first().skip(n - 1) =~~= Seq::<Seq<u8>>::empty());
        assert(spec_headers(data@) =~= done);
    }
    // Body after the blank-line marker.
    let bl = "\r\n\r\n".as_bytes();
    proof {
        reveal_strlit("\r\n\r\n");
        let s = "\r\n\r\n"@;
        assert(s.len() == 4);
        assert(vstd::utf8::is_ascii_chars(s));
        vstd::utf8::is_ascii_chars_encode_utf8(s);
        assert(bl@ =~= blank_line());
    }
    let data_len = data.len();
    let body: Vec<u8> = match find_sub(data, bl) {
        Some(bi) => {
            proof {
                lemma_find_first(data@, blank_line());
            }
            vstd::slice::slice_to_vec(&data[bi + 4..data_len])
        },
        None => Vec::new(),
    };
    proof {
        assert(body@ == spec_body(data@));
        assert forall|i: int|
            0 <= i < spec_headers(data@).len() implies (#[trigger] headers@[i]).0@ == lossy_chars(
            spec_headers(data@)[i].0,
        ) && headers@[i].1@ == lossy_chars(spec_headers(data@)[i].1) by {
            assert(headers.deep_view()[i].0 == lossy_chars(done[i].0));
            assert(headers.deep_view()[i].1 == lossy_chars(done[i].1));
        }
    }
    RawRequest { method, path, headers, body }
}

} // verus!
