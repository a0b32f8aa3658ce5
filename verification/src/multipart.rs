//! Decoding of `multipart/form-data` request bodies: splitting on the
//! boundary delimiter and extracting the uploaded filename and content.
use vstd::prelude::*;

verus! {

use crate::bytes::{
    split_by, find_first, has_sub, match_at, all_space, is_space, lines_of, first_line_with,
    strip_cr, text_or_empty, split_slice, find_sub, slice_eq, check_all_space, to_text_or_empty,
    lemma_find_first, lemma_find_first_is, lemma_first_line_with, lemma_has_sub_find,
};
use crate::error::DecodeError;
use vstd::utf8::encode_utf8;

/// An uploaded file as the decoder yields it.
#[derive(Debug)]
pub struct UploadedPart {
    pub filename: String,
    pub content: Vec<u8>,
}

/// The bytes of `\r\n\r\n`, the blank-line marker.
pub open spec fn blank_line() -> Seq<u8> {
    seq![0x0du8, 0x0au8, 0x0du8, 0x0au8]
}

/// The bytes of `filename="`, which introduce an uploaded file's name.
pub open spec fn filename_marker() -> Seq<u8> {
    encode_utf8("filename=\""@)
}

/// The bytes of `Content-Disposition: form-data`, which mark a form part.
pub open spec fn dispo_marker() -> Seq<u8> {
    encode_utf8("Content-Disposition: form-data"@)
}

/// The delimiter a boundary token denotes: `--` followed by the token.
pub open spec fn delimiter(boundary: Seq<u8>) -> Seq<u8> {
    seq![0x2du8, 0x2du8] + boundary
}

/// The filename carried by one header line: the bytes after the first
/// `filename="` up to the next `"`, or to the line's end if no `"` follows.
pub open spec fn name_in_line(l: Seq<u8>) -> Option<Seq<u8>> {
    match find_first(l, filename_marker()) {
        Some(x) => {
            let after = l.subrange(x + filename_marker().len(), l.len() as int);
            match find_first(after, seq![0x22u8]) {
                Some(q) => Some(after.subrange(0, q)),
                None => Some(after),
            }
        },
        None => None,
    }
}

/// The filename a part carries: read from its first line that contains
/// `filename="`.
pub open spec fn part_name(p: Seq<u8>) -> Option<Seq<u8>> {
    match first_line_with(lines_of(p), filename_marker()) {
        Some(i) => name_in_line(lines_of(p)[i]),
        None => None,
    }
}

/// The content a part carries: the bytes after its first blank-line marker,
/// with one trailing line terminator removed (the closing delimiter always
/// prepends one).
pub open spec fn part_content(p: Seq<u8>) -> Option<Seq<u8>> {
    match find_first(p, blank_line()) {
        Some(x) => {
            let c = p.subrange(x + 4, p.len() as int);
            if c.len() >= 2 && c[c.len() - 2] == 0x0d && c[c.len() - 1] == 0x0a {
                Some(c.subrange(0, c.len() - 2))
            } else {
                Some(c)
            }
        },
        None => None,
    }
}

/// Parts the decoder discards: all-whitespace pieces and the terminal `--`.
pub open spec fn is_skipped(p: Seq<u8>) -> bool {
    all_space(p) || p == seq![0x2du8, 0x2du8]
}

/// How one part updates the retained filename and content: a kept part that
/// carries the form-data disposition overwrites whichever of the two fields
/// it yields.
pub open spec fn mp_step(st: (Seq<u8>, Seq<u8>), p: Seq<u8>) -> (Seq<u8>, Seq<u8>) {
    if is_skipped(p) || !has_sub(p, dispo_marker()) {
        st
    } else {
        (
            match part_name(p) {
                Some(n) => n,
                None => st.0,
            },
            match part_content(p) {
                Some(c) => c,
                None => st.1,
            },
        )
    }
}

/// The filename and content left after walking all parts left to right.
pub open spec fn mp_fold(parts: Seq<Seq<u8>>, st: (Seq<u8>, Seq<u8>)) -> (Seq<u8>, Seq<u8>)
    decreases parts.len(),
{
    if parts.len() == 0 {
        st
    } else {
        mp_fold(parts.drop_first(), mp_step(st, parts[0]))
    }
}

/// What decoding a multipart body yields: the retained filename (as text)
/// and content, or nothing when either is still empty at the end.
pub open spec fn spec_multipart(body: Seq<u8>, boundary: Seq<u8>) -> Option<(Seq<char>, Seq<u8>)> {
    let st = mp_fold(
        split_by(body, delimiter(boundary)),
        (Seq::<u8>::empty(), Seq::<u8>::empty()),
    );
    let name = text_or_empty(st.0);
    if name.len() == 0 || st.1.len() == 0 {
        None
    } else {
        Some((name, st.1))
    }
}

/// The form-data disposition marker is thirty ASCII bytes.
proof fn lemma_dispo_marker_props()
    ensures
        dispo_marker().len() == 30,
{
    reveal_strlit("Content-Disposition: form-data");
    let s = "Content-Disposition: form-data"@;
    assert(s.len() == 30);
    assert(vstd::utf8::is_ascii_chars(s));
    vstd::utf8::is_ascii_chars_encode_utf8(s);
}

/// The `filename="` marker is ten ASCII bytes.
proof fn lemma_filename_marker_props()
    ensures
        filename_marker().len() == 10,
        filename_marker()[0] == 0x66,
        forall|i: int|
            0 <= i < 10 ==> #[trigger] filename_marker()[i] != 0x0d && filename_marker()[i]
                != 0x0a,
{
    reveal_strlit("filename=\"");
    let s = "filename=\""@;
    assert(s.len() == 10);
    assert(vstd::utf8::is_ascii_chars(s));
    vstd::utf8::is_ascii_chars_encode_utf8(s);
    assert forall|i: int|
        0 <= i < 10 implies #[trigger] filename_marker()[i] != 0x0d && filename_marker()[i]
        != 0x0a by {
        assert(filename_marker()[i] == s[i] as u8);
    }
}

proof fn lemma_mp_fold_push(parts: Seq<Seq<u8>>, st: (Seq<u8>, Seq<u8>), x: Seq<u8>)
    ensures
        mp_fold(parts.push(x), st) == mp_step(mp_fold(parts, st), x),
    decreases parts.len(),
{
    if parts.len() == 0 {
        assert(parts.push(x).drop_first() =~= Seq::<Seq<u8>>::empty());
        assert(parts.push(x)[0] == x);
        assert(mp_fold(parts.push(x), st) == mp_fold(
            parts.push(x).drop_first(),
            mp_step(st, x),
        ));
        assert(mp_fold(Seq::<Seq<u8>>::empty(), mp_step(st, x)) == mp_step(st, x));
        assert(mp_fold(parts, st) == st);
    } else {
        assert(parts.push(x).drop_first() =~= parts.drop_first().push(x));
        assert(parts.push(x)[0] == parts[0]);
        lemma_mp_fold_push(parts.drop_first(), mp_step(st, parts[0]), x);
        assert(mp_fold(parts.push(x), st) == mp_fold(
            parts.drop_first().push(x),
            mp_step(st, parts[0]),
        ));
        assert(mp_fold(parts, st) == mp_fold(parts.drop_first(), mp_step(st, parts[0])));
    }
}

/// Extracts the filename named in the part's header lines, if any.
fn extract_name(p: &[u8]) -> (r: Option<Vec<u8>>)
    ensures
        match r {
            Some(n) => part_name(p@) == Some(n@),
            None => part_name(p@) is None,
        },
{
    let fnq = "filename=\"".as_bytes();
    let mut nl: Vec<u8> = Vec::new();
    nl.push(0x0a);
    proof {
        assert(nl@ =~= seq![0x0au8]);
        lemma_filename_marker_props();
        assert(fnq@ == filename_marker());
    }
    let raw_lines = split_slice(p, nl.as_slice());
    let n = raw_lines.len();
    for i in 0..n
        invariant
            n == raw_lines@.len(),
            fnq@ == filename_marker(),
            fnq@.len() > 0,
            raw_lines.deep_view() == split_by(p@, seq![0x0au8]),
            forall|j: int|
                0 <= j < i ==> !has_sub(strip_cr(raw_lines.deep_view()[j]), filename_marker()),
    {
        let raw = &raw_lines[i];
        proof {
            assert(raw@ == raw_lines.deep_view()[i as int]);
        }
        let stripped: &[u8] = if raw.len() > 0 && raw[raw.len() - 1] == 0x0d {
            &raw.as_slice()[0..raw.len() - 1]
        } else {
            raw.as_slice()
        };
        proof {
            if raw@.len() > 0 && raw@.last() == 0x0d {
                assert(stripped@ =~= strip_cr(raw@));
            } else {
                assert(stripped@ =~= strip_cr(raw@));
            }
        }
        match find_sub(stripped, fnq) {
            Some(x) => {
                let stripped_len = stripped.len();
                proof {
                    lemma_find_first(stripped@, fnq@);
                    assert(x + fnq@.len() <= stripped_len);
                }
                let after = &stripped[x + fnq.len()..stripped_len];
                let quote: Vec<u8> = {
                    let mut q: Vec<u8> = Vec::new();
                    q.push(0x22);
                    q
                };
                proof {
                    assert(quote@ =~= seq![0x22u8]);
                }
                let name: Vec<u8> = match find_sub(after, quote.as_slice()) {
                    Some(q) => {
                        proof {
                            lemma_find_first(after@, seq![0x22u8]);
                        }
                        vstd::slice::slice_to_vec(&after[0..q])
                    },
                    None => vstd::slice::slice_to_vec(after),
                };
                proof {
                    lemma_has_sub_find(stripped@, fnq@);
                    let lines = lines_of(p@);
                    assert(lines[i as int] == strip_cr(raw_lines.deep_view()[i as int]));
                    assert(lines[i as int] == stripped@);
                    assert forall|j: int| 0 <= j < i implies !has_sub(
                        #[trigger] lines[j],
                        filename_marker(),
                    ) by {
                        assert(lines[j] == strip_cr(raw_lines.deep_view()[j]));
                    }
                    lemma_first_line_with_is(lines, filename_marker(), i as int);
                    assert(find_first(stripped@, filename_marker()) == Some(x as int));
                    let aft = stripped@.subrange(
                        x + filename_marker().len(),
                        stripped@.len() as int,
                    );
                    assert(after@ == aft);
                    match find_first(aft, seq![0x22u8]) {
                        Some(q) => {
                            assert(name@ == aft.subrange(0, q));
                        },
                        None => {
                            assert(name@ =~= aft);
                        },
                    }
                    assert(name_in_line(stripped@) == Some(name@));
                    assert(part_name(p@) == Some(name@));
                }
                return Some(name);
            },
            None => {
                proof {
                    lemma_has_sub_find(stripped@, fnq@);
                    assert(!has_sub(strip_cr(raw_lines.deep_view()[i as int]), filename_marker()));
                }
            },
        }
    }
    proof {
        let lines = lines_of(p@);
        assert forall|j: int| 0 <= j < lines.len() implies !has_sub(
            #[trigger] lines[j],
            filename_marker(),
        ) by {
            assert(lines[j] == strip_cr(raw_lines.deep_view()[j]));
        }
        lemma_first_line_with(lines, filename_marker());
    }
    None
}

/// If line `i` contains `pat` and no earlier line does, `first_line_with`
/// finds `i`.
proof fn lemma_first_line_with_is(lines: Seq<Seq<u8>>, pat: Seq<u8>, i: int)
    requires
        0 <= i < lines.len(),
        has_sub(lines[i], pat),
        forall|j: int| 0 <= j < i ==> !has_sub(#[trigger] lines[j], pat),
    ensures
        first_line_with(lines, pat) == Some(i),
{
    lemma_first_line_with(lines, pat);
    match first_line_with(lines, pat) {
        Some(k) => {
            if k < i {
                assert(!has_sub(lines[k], pat));
            } else if k > i {
                assert(!has_sub(lines[i], pat));
            }
        },
        None => {
            assert(!has_sub(lines[i], pat));
        },
    }
}

/// Extracts the content bytes after the part's first blank-line marker.
fn extract_content(p: &[u8]) -> (r: Option<Vec<u8>>)
    ensures
        match r {
            Some(c) => part_content(p@) == Some(c@),
            None => part_content(p@) is None,
        },
{
    let bl = "\r\n\r\n".as_bytes();
    proof {
        reveal_strlit("\r\n\r\n");
        let s = "\r\n\r\n"@;
        assert(s.len() == 4);
        assert(vstd::utf8::is_ascii_chars(s));
        vstd::utf8::is_ascii_chars_encode_utf8(s);
        assert(bl@ =~= blank_line());
    }
    let p_len = p.len();
    match find_sub(p, bl) {
        Some(x) => {
            proof {
                lemma_find_first(p@, blank_line());
                assert(x + 4 <= p_len);
            }
            let c = &p[x + 4..p_len];
            if c.len() >= 2 && c[c.len() - 2] == 0x0d && c[c.len() - 1] == 0x0a {
                let out = vstd::slice::slice_to_vec(&c[0..c.len() - 2]);
                proof {
                    assert(c@ == p@.subrange(x + 4, p@.len() as int));
                }
                Some(out)
            } else {
                let out = vstd::slice::slice_to_vec(c);
                Some(out)
            }
        },
        None => None,
    }
}

/// A part that sets both fields: it is kept, carries the form-data
/// disposition, and yields a filename and a content.
pub open spec fn fully_named(p: Seq<u8>) -> bool {
    &&& !is_skipped(p)
    &&& has_sub(p, dispo_marker())
    &&& part_name(p) is Some
    &&& part_content(p) is Some
}

proof fn lemma_fold_inert(parts: Seq<Seq<u8>>, st: (Seq<u8>, Seq<u8>))
    requires
        forall|j: int|
            0 <= j < parts.len() ==> is_skipped(#[trigger] parts[j]) || !has_sub(
                parts[j],
                dispo_marker(),
            ),
    ensures
        mp_fold(parts, st) == st,
    decreases parts.len(),
{
    if parts.len() > 0 {
        assert(mp_step(st, parts[0]) == st);
        assert forall|j: int|
            0 <= j < parts.drop_first().len() implies is_skipped(
            #[trigger] parts.drop_first()[j],
        ) || !has_sub(parts.drop_first()[j], dispo_marker()) by {
            assert(parts.drop_first()[j] == parts[j + 1]);
        }
        lemma_fold_inert(parts.drop_first(), st);
    }
}

/// The decoder retains the fields of the last part that names a file: if
/// part `l` yields both a filename and a content and every later part is
/// discarded or carries no form-data disposition, the walk over all parts
/// ends exactly on part `l`'s fields. In particular, when every part is
/// fully named, the last one wins; and when exactly one part is named, its
/// fields are the result.
pub proof fn lemma_last_named_part_wins(parts: Seq<Seq<u8>>, st: (Seq<u8>, Seq<u8>), l: int)
    requires
        0 <= l < parts.len(),
        fully_named(parts[l]),
        forall|j: int|
            l < j < parts.len() ==> is_skipped(#[trigger] parts[j]) || !has_sub(
                parts[j],
                dispo_marker(),
            ),
    ensures
        mp_fold(parts, st) == (part_name(parts[l])->Some_0, part_content(parts[l])->Some_0),
    decreases parts.len(),
{
    if l == 0 {
        let st1 = mp_step(st, parts[0]);
        assert(st1 == (part_name(parts[0])->Some_0, part_content(parts[0])->Some_0));
        assert forall|j: int|
            0 <= j < parts.drop_first().len() implies is_skipped(
            #[trigger] parts.drop_first()[j],
        ) || !has_sub(parts.drop_first()[j], dispo_marker()) by {
            assert(parts.drop_first()[j] == parts[j + 1]);
        }
        lemma_fold_inert(parts.drop_first(), st1);
    } else {
        assert(parts.drop_first()[l - 1] == parts[l]);
        assert forall|j: int|
            l - 1 < j < parts.drop_first().len() implies is_skipped(
            #[trigger] parts.drop_first()[j],
        ) || !has_sub(parts.drop_first()[j], dispo_marker()) by {
            assert(parts.drop_first()[j] == parts[j + 1]);
        }
        lemma_last_named_part_wins(parts.drop_first(), mp_step(st, parts[0]), l - 1);
    }
}

/// True when no byte of `s` is a carriage return or a newline.
pub open spec fn no_crlf(s: Seq<u8>) -> bool {
    forall|i: int| 0 <= i < s.len() ==> #[trigger] s[i] != 0x0d && s[i] != 0x0a
}

/// One header line that names a file: arbitrary bytes, the `filename="`
/// marker, the name, the closing quote, arbitrary bytes.
pub open spec fn header_line(hpre: Seq<u8>, fname: Seq<u8>, hpost: Seq<u8>) -> Seq<u8> {
    hpre + filename_marker() + fname + seq![0x22u8] + hpost
}

/// A canonically framed part: a line terminator, one header line, the
/// blank-line marker, the content, and the line terminator that precedes
/// the next delimiter.
pub open spec fn canonical_part(
    hpre: Seq<u8>,
    fname: Seq<u8>,
    hpost: Seq<u8>,
    content: Seq<u8>,
) -> Seq<u8> {
    seq![0x0du8, 0x0au8] + header_line(hpre, fname, hpost) + blank_line() + content + seq![
        0x0du8,
        0x0au8,
    ]
}

/// From a canonically framed part the decoder reads back exactly the literal
/// `filename="..."` value and the bytes between the blank-line marker and
/// the trailing line terminator, however the content mixes text and binary.
pub proof fn lemma_canonical_part_fields(
    hpre: Seq<u8>,
    fname: Seq<u8>,
    hpost: Seq<u8>,
    content: Seq<u8>,
)
    requires
        no_crlf(hpre),
        no_crlf(fname),
        no_crlf(hpost),
        forall|i: int| 0 <= i < fname.len() ==> #[trigger] fname[i] != 0x22,
        forall|j: int|
            0 <= j < hpre.len() ==> !match_at(
                header_line(hpre, fname, hpost),
                filename_marker(),
                j,
            ),
    ensures
        part_name(canonical_part(hpre, fname, hpost, content)) == Some(fname),
        part_content(canonical_part(hpre, fname, hpost, content)) == Some(content),
{
    lemma_filename_marker_props();
    let h = header_line(hpre, fname, hpost);
    let p = canonical_part(hpre, fname, hpost, content);
    let m = filename_marker().len() as int;
    assert forall|i: int| 0 <= i < h.len() implies #[trigger] h[i] != 0x0d && h[i] != 0x0a by {
        let a = hpre.len() as int;
        if i < a {
            assert(h[i] == hpre[i]);
        } else if i < a + m {
            assert(h[i] == filename_marker()[i - a]);
        } else if i < a + m + fname.len() {
            assert(h[i] == fname[i - a - m]);
        } else if i == a + m + fname.len() {
            assert(h[i] == 0x22);
        } else {
            assert(h[i] == hpost[i - a - m - fname.len() - 1]);
        }
    }
    let hl = h.len() as int;
    assert(hl >= 10);
    // The first blank-line marker sits right after the header line.
    assert(p.subrange(2 + hl, 2 + hl + 4) =~= blank_line());
    assert(match_at(p, blank_line(), 2 + hl));
    assert forall|j: int| 0 <= j < 2 + hl implies !match_at(p, blank_line(), j) by {
        if j == 0 {
            assert(p[2] == h[0]);
            assert(p.subrange(0, 4)[2] == p[2]);
        } else if j == 1 {
            assert(p[1] == 0x0a);
            assert(p.subrange(1, 5)[0] == p[1]);
        } else {
            assert(p[j] == h[j - 2]);
            assert(p.subrange(j, j + 4)[0] == p[j]);
        }
    }
    lemma_find_first_is(p, blank_line(), 2 + hl);
    let c = p.subrange(2 + hl + 4, p.len() as int);
    assert(c =~= content + seq![0x0du8, 0x0au8]);
    assert(c.len() >= 2);
    assert(c[c.len() - 2] == 0x0d && c[c.len() - 1] == 0x0a);
    assert(c.subrange(0, c.len() - 2) =~= content);
    assert(part_content(p) == Some(content));
    // Lines: the empty piece before the first newline, then the header line.
    let nl = seq![0x0au8];
    assert(p[1] == 0x0a);
    assert(p.subrange(1, 2) =~= nl);
    assert(match_at(p, nl, 1));
    assert forall|j: int| 0 <= j < 1 implies !match_at(p, nl, j) by {
        assert(p[0] == 0x0d);
        assert(p.subrange(0, 1)[0] == p[0]);
    }
    lemma_find_first_is(p, nl, 1);
    let rem1 = p.subrange(2, p.len() as int);
    assert(rem1 =~= h + blank_line() + content + seq![0x0du8, 0x0au8]);
    assert(split_by(p, nl) == seq![p.subrange(0, 1)] + split_by(rem1, nl));
    assert(rem1[hl + 1] == 0x0a);
    assert(rem1.subrange(hl + 1, hl + 2) =~= nl);
    assert(match_at(rem1, nl, hl + 1));
    assert forall|j: int| 0 <= j < hl + 1 implies !match_at(rem1, nl, j) by {
        if j < hl {
            assert(rem1[j] == h[j]);
        } else {
            assert(rem1[j] == 0x0d);
        }
        assert(rem1.subrange(j, j + 1)[0] == rem1[j]);
    }
    lemma_find_first_is(rem1, nl, hl + 1);
    let rem2 = rem1.subrange(hl + 2, rem1.len() as int);
    assert(split_by(rem1, nl) == seq![rem1.subrange(0, hl + 1)] + split_by(rem2, nl));
    let lines = lines_of(p);
    crate::bytes::lemma_split_by_len(rem2, nl);
    assert(lines.len() >= 2);
    assert(lines[0] == strip_cr(p.subrange(0, 1)));
    assert(p.subrange(0, 1) =~= seq![0x0du8]);
    assert(lines[0] =~= Seq::<u8>::empty());
    assert(lines[1] == strip_cr(rem1.subrange(0, hl + 1)));
    assert(rem1.subrange(0, hl + 1) =~= h + seq![0x0du8]);
    assert((h + seq![0x0du8]).last() == 0x0d);
    assert((h + seq![0x0du8]).drop_last() =~= h);
    assert(lines[1] == h);
    // The header line is the first line that contains the marker.
    assert(h.subrange(hpre.len() as int, hpre.len() + m) =~= filename_marker());
    assert(match_at(h, filename_marker(), hpre.len() as int));
    assert(!has_sub(lines[0], filename_marker())) by {
        assert forall|j: int| !match_at(lines[0], filename_marker(), j) by {
            if 0 <= j && j + m <= lines[0].len() {
                assert(lines[0].len() == 0);
            }
        }
    }
    lemma_first_line_with_is(lines, filename_marker(), 1);
    // Inside the header line, the marker's first occurrence introduces fname.
    lemma_find_first_is(h, filename_marker(), hpre.len() as int);
    let after = h.subrange(hpre.len() + m, h.len() as int);
    assert(after =~= fname + seq![0x22u8] + hpost);
    let fl = fname.len() as int;
    assert(after[fl] == 0x22);
    assert(after.subrange(fl, fl + 1) =~= seq![0x22u8]);
    assert(match_at(after, seq![0x22u8], fl));
    assert forall|j: int| 0 <= j < fl implies !match_at(after, seq![0x22u8], j) by {
        assert(after[j] == fname[j]);
        assert(after.subrange(j, j + 1)[0] == after[j]);
    }
    lemma_find_first_is(after, seq![0x22u8], fl);
    assert(after.subrange(0, fl) =~= fname);
    assert(name_in_line(h) == Some(fname));
    assert(part_name(p) == Some(fname));
}

/// True when no window of `piece ++ delim` that starts inside `piece`
/// matches `delim`: the delimiter neither occurs in the piece nor straddles
/// its end.
pub open spec fn delim_free(piece: Seq<u8>, delim: Seq<u8>) -> bool {
    forall|j: int| 0 <= j < piece.len() ==> !match_at(piece + delim, delim, j)
}

/// A body that frames a single part between its delimiter and the terminal
/// `--` splits back into the empty preamble, the part, and the terminator.
pub proof fn lemma_single_part_body(boundary: Seq<u8>, part: Seq<u8>)
    requires
        boundary.len() > 0,
        delim_free(part, delimiter(boundary)),
    ensures
        split_by(
            delimiter(boundary) + part + delimiter(boundary) + seq![0x2du8, 0x2du8],
            delimiter(boundary),
        ) == seq![Seq::<u8>::empty(), part, seq![0x2du8, 0x2du8]],
{
    let d = delimiter(boundary);
    let term = seq![0x2du8, 0x2du8];
    let s = d + part + d + term;
    assert(s.subrange(0, d.len() as int) =~= d);
    assert(match_at(s, d, 0));
    lemma_find_first_is(s, d, 0);
    let s1 = s.subrange(d.len() as int, s.len() as int);
    assert(s1 =~= part + d + term);
    assert(split_by(s, d) == seq![s.subrange(0, 0)] + split_by(s1, d));
    assert(s.subrange(0, 0) =~= Seq::<u8>::empty());
    let k = part.len() as int;
    assert(s1.subrange(k, k + d.len()) =~= d);
    assert(match_at(s1, d, k));
    assert forall|j: int| 0 <= j < k implies !match_at(s1, d, j) by {
        assert(s1.subrange(j, j + d.len()) =~= (part + d).subrange(j, j + d.len()));
        assert(!match_at(part + d, d, j));
    }
    lemma_find_first_is(s1, d, k);
    let s2 = s1.subrange(k + d.len(), s1.len() as int);
    assert(s2 =~= term);
    assert(split_by(s1, d) == seq![s1.subrange(0, k)] + split_by(s2, d));
    assert(s1.subrange(0, k) =~= part);
    assert(d.len() >= 3);
    assert forall|j: int| !match_at(s2, d, j) by {
        if 0 <= j && j + d.len() <= s2.len() {
            assert(s2.len() == 2);
        }
    }
    lemma_find_first(s2, d);
    assert(find_first(s2, d) is None) by {
        lemma_has_sub_find(s2, d);
        if find_first(s2, d) is Some {
            let j = choose|j: int| match_at(s2, d, j);
            assert(!match_at(s2, d, j));
        }
    }
    assert(split_by(s2, d) == seq![s2]);
    assert(seq![Seq::<u8>::empty()] + (seq![part] + seq![term]) =~= seq![
        Seq::<u8>::empty(),
        part,
        term,
    ]);
}

/// For a whole body that carries exactly one canonically framed named
/// part, decoding yields exactly the literal `filename="..."` value (as
/// text) and the bytes between the blank-line marker and the trailing
/// delimiter.
pub proof fn lemma_single_part_round_trip(
    boundary: Seq<u8>,
    hpre: Seq<u8>,
    fname: Seq<u8>,
    hpost: Seq<u8>,
    content: Seq<u8>,
)
    requires
        boundary.len() > 0,
        no_crlf(hpre),
        no_crlf(fname),
        no_crlf(hpost),
        forall|i: int| 0 <= i < fname.len() ==> #[trigger] fname[i] != 0x22,
        forall|j: int|
            0 <= j < hpre.len() ==> !match_at(
                header_line(hpre, fname, hpost),
                filename_marker(),
                j,
            ),
        delim_free(canonical_part(hpre, fname, hpost, content), delimiter(boundary)),
        has_sub(canonical_part(hpre, fname, hpost, content), dispo_marker()),
        text_or_empty(fname).len() > 0,
        content.len() > 0,
    ensures
        spec_multipart(
            delimiter(boundary) + canonical_part(hpre, fname, hpost, content) + delimiter(boundary)
                + seq![0x2du8, 0x2du8],
            boundary,
        ) == Some((text_or_empty(fname), content)),
{
    lemma_filename_marker_props();
    let part = canonical_part(hpre, fname, hpost, content);
    let body = delimiter(boundary) + part + delimiter(boundary) + seq![0x2du8, 0x2du8];
    lemma_single_part_body(boundary, part);
    let parts = seq![Seq::<u8>::empty(), part, seq![0x2du8, 0x2du8]];
    assert(split_by(body, delimiter(boundary)) == parts);
    lemma_canonical_part_fields(hpre, fname, hpost, content);
    assert(fully_named(part)) by {
        let h = header_line(hpre, fname, hpost);
        let fpos = 2 + hpre.len() as int;
        assert(h[hpre.len() as int] == filename_marker()[0]);
        assert(part[fpos] == h[hpre.len() as int]);
        assert(part[fpos] == 0x66);
        assert(!is_space(part[fpos]));
        assert(!all_space(part));
        assert(part.len() >= 16);
        assert(part != seq![0x2du8, 0x2du8]);
    }
    assert(is_skipped(parts[0])) by {
        assert(all_space(Seq::<u8>::empty()));
    }
    assert(is_skipped(parts[2]));
    lemma_last_named_part_wins(
        parts,
        (Seq::<u8>::empty(), Seq::<u8>::empty()),
        1,
    );
    assert(mp_fold(parts, (Seq::<u8>::empty(), Seq::<u8>::empty())) == (fname, content));
}

/// Decodes a multipart body against a boundary token: splits on the
/// delimiter, walks the parts left to right letting later parts overwrite
/// earlier fields, and fails when the retained filename or content is empty.
pub fn decode_multipart(body: &[u8], boundary: &[u8]) -> (r: Result<UploadedPart, DecodeError>)
    ensures
        match r {
            Ok(part) => spec_multipart(body@, boundary@) == Some((part.filename@, part.content@)),
            Err(e) => spec_multipart(body@, boundary@) is None && e == DecodeError::InvalidUpload,
        },
{
    let mut delim: Vec<u8> = Vec::new();
    delim.push(0x2d);
    delim.push(0x2d);
    delim.extend_from_slice(boundary);
    proof {
        assert(delim@ =~= delimiter(boundary@));
    }
    let parts = split_slice(body, delim.as_slice());
    let dispo = "Content-Disposition: form-data".as_bytes();
    let dd = "--".as_bytes();
    proof {
        assert(dispo@ == dispo_marker());
        lemma_dispo_marker_props();
        reveal_strlit("--");
        let s = "--"@;
        assert(s.len() == 2);
        assert(vstd::utf8::is_ascii_chars(s));
        vstd::utf8::is_ascii_chars_encode_utf8(s);
        assert(dd@ =~= seq![0x2du8, 0x2du8]);
    }
    let mut name: Vec<u8> = Vec::new();
    let mut content: Vec<u8> = Vec::new();
    let n = parts.len();
    proof {
        assert(parts.deep_view().subrange(0, 0) =~= Seq::<Seq<u8>>::empty());
    }
    for i in 0..n
        invariant
            n == parts@.len(),
            dispo@ == dispo_marker(),
            dispo@.len() == 30,
            dd@ == seq![0x2du8, 0x2du8],
            parts.deep_view() == split_by(body@, delimiter(boundary@)),
            (name@, content@) == mp_fold(
                parts.deep_view().subrange(0, i as int),
                (Seq::<u8>::empty(), Seq::<u8>::empty()),
            ),
    {
        let p = &parts[i];
        let ghost pre = parts.deep_view().subrange(0, i as int);
        proof {
            assert(p@ == parts.deep_view()[i as int]);
            assert(parts.deep_view().subrange(0, i + 1) =~= pre.push(p@));
            lemma_mp_fold_push(pre, (Seq::<u8>::empty(), Seq::<u8>::empty()), p@);
        }
        let skipped = check_all_space(p.as_slice()) || slice_eq(p.as_slice(), dd);
        if !skipped {
            let has_dispo = find_sub(p.as_slice(), dispo).is_some();
            proof {
                lemma_has_sub_find(p@, dispo_marker());
            }
            if has_dispo {
                match extract_name(p.as_slice()) {
                    Some(nm) => {
                        name = nm;
                    },
                    None => {},
                }
                match extract_content(p.as_slice()) {
                    Some(c) => {
                        content = c;
                    },
                    None => {},
                }
            }
        }
    }
    proof {
        assert(parts.deep_view().subrange(0, n as int) =~= parts.deep_view());
    }
    let filename = to_text_or_empty(name);
    if filename.as_str().is_empty() || content.len() == 0 {
        Err(DecodeError::InvalidUpload)
    } else {
        Ok(UploadedPart { filename, content })
    }
}

} // verus!
