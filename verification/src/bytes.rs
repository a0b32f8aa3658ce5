//! Byte-sequence utilities: substring search, splitting, whitespace tests,
//! decimal formatting, and conversions between bytes and strings.
use vstd::prelude::*;

verus! {

use vstd::string::StringExecFns;
use vstd::utf8::{valid_utf8, decode_utf8};

/// True when `pat` occurs in `s` starting at index `i`.
pub open spec fn match_at(s: Seq<u8>, pat: Seq<u8>, i: int) -> bool {
    &&& 0 <= i
    &&& i + pat.len() <= s.len()
    &&& s.subrange(i, i + pat.len()) == pat
}

/// True when `pat` occurs somewhere in `s`.
pub open spec fn has_sub(s: Seq<u8>, pat: Seq<u8>) -> bool {
    exists|i: int| match_at(s, pat, i)
}

/// Index of the leftmost occurrence of `pat` in `s`, if any.
pub open spec fn find_first(s: Seq<u8>, pat: Seq<u8>) -> Option<int>
    decreases s.len(),
{
    if pat.len() == 0 {
        Some(0)
    } else if s.len() < pat.len() {
        None
    } else if match_at(s, pat, 0) {
        Some(0)
    } else {
        match find_first(s.drop_first(), pat) {
            Some(i) => Some(i + 1),
            None => None,
        }
    }
}

proof fn lemma_match_at_drop_first(s: Seq<u8>, pat: Seq<u8>, i: int)
    requires
        s.len() >= 1,
        0 <= i,
    ensures
        match_at(s.drop_first(), pat, i) <==> match_at(s, pat, i + 1),
{
    if i + 1 + pat.len() <= s.len() {
        assert(s.drop_first().subrange(i, i + pat.len()) =~= s.subrange(i + 1, i + 1 + pat.len()));
    }
}

/// `find_first` returns the leftmost occurrence: a found index is a match with
/// none before it, and `None` means there is no match at all.
pub proof fn lemma_find_first(s: Seq<u8>, pat: Seq<u8>)
    requires
        pat.len() > 0,
    ensures
        match find_first(s, pat) {
            Some(i) => match_at(s, pat, i) && forall|j: int| 0 <= j < i ==> !match_at(s, pat, j),
            None => forall|j: int| !match_at(s, pat, j),
        },
    decreases s.len(),
{
    if s.len() < pat.len() {
        assert(forall|j: int| !match_at(s, pat, j));
    } else if match_at(s, pat, 0) {
    } else {
        lemma_find_first(s.drop_first(), pat);
        assert forall|j: int| 0 <= j implies (match_at(s.drop_first(), pat, j) <==> match_at(
            s,
            pat,
            j + 1,
        )) by {
            lemma_match_at_drop_first(s, pat, j);
        }
        match find_first(s.drop_first(), pat) {
            Some(i) => {
                assert(match_at(s, pat, i + 1));
                assert forall|j: int| 0 <= j < i + 1 implies !match_at(s, pat, j) by {
                    if j > 0 {
                        assert(!match_at(s.drop_first(), pat, j - 1));
                    }
                }
            },
            None => {
                assert forall|j: int| !match_at(s, pat, j) by {
                    if j > 0 {
                        assert(!match_at(s.drop_first(), pat, j - 1));
                    }
                }
            },
        }
    }
}

/// If `i` is a match with no earlier match, it is what `find_first` returns.
pub proof fn lemma_find_first_is(s: Seq<u8>, pat: Seq<u8>, i: int)
    requires
        pat.len() > 0,
        match_at(s, pat, i),
        forall|j: int| 0 <= j < i ==> !match_at(s, pat, j),
    ensures
        find_first(s, pat) == Some(i),
{
    lemma_find_first(s, pat);
    match find_first(s, pat) {
        Some(k) => {
            if k < i {
                assert(!match_at(s, pat, k));
            } else if k > i {
                assert(!match_at(s, pat, i));
            }
        },
        None => {
            assert(!match_at(s, pat, i));
        },
    }
}

/// Compares two byte slices for equality of contents.
pub fn slice_eq(a: &[u8], b: &[u8]) -> (r: bool)
    ensures
        r == (a@ == b@),
{
    if a.len() != b.len() {
        assert(a@ != b@);
        return false;
    }
    let n = a.len();
    for i in 0..n
        invariant
            n == a@.len() == b@.len(),
            forall|j: int| 0 <= j < i ==> a@[j] == b@[j],
    {
        if a[i] != b[i] {
            return false;
        }
    }
    assert(a@ =~= b@);
    true
}

/// Leftmost occurrence of `pat` in `s`, by direct scan.
pub fn find_sub(s: &[u8], pat: &[u8]) -> (r: Option<usize>)
    requires
        pat@.len() > 0,
    ensures
        match r {
            Some(i) => find_first(s@, pat@) == Some(i as int),
            None => find_first(s@, pat@) is None,
        },
{
    if s.len() < pat.len() {
        proof {
            lemma_find_first(s@, pat@);
        }
        return None;
    }
    let last = s.len() - pat.len();
    let mut i: usize = 0;
    loop
        invariant
            pat@.len() > 0,
            last == s@.len() - pat@.len(),
            s@.len() <= usize::MAX,
            0 <= i <= last + 1,
            forall|j: int| 0 <= j < i ==> !match_at(s@, pat@, j),
        decreases last + 1 - i,
    {
        if i > last {
            proof {
                lemma_find_first(s@, pat@);
                match find_first(s@, pat@) {
                    Some(k) => {
                        assert(!match_at(s@, pat@, k));
                    },
                    None => {},
                }
            }
            return None;
        }
        if slice_eq(&s[i..i + pat.len()], pat) {
            proof {
                assert(s@.subrange(i as int, i + pat@.len()) == pat@);
                lemma_find_first_is(s@, pat@, i as int);
            }
            return Some(i);
        }
        i = i + 1;
    }
}

/// `s` split on every occurrence of `pat`, scanning left to right.
pub open spec fn split_by(s: Seq<u8>, pat: Seq<u8>) -> Seq<Seq<u8>>
    decreases s.len(),
{
    if pat.len() == 0 {
        seq![s]
    } else {
        let fo = find_first(s, pat);
        if fo is Some && 0 <= fo->Some_0 && fo->Some_0 + pat.len() <= s.len() {
            let i = fo->Some_0;
            seq![s.subrange(0, i)] + split_by(s.subrange(i + pat.len(), s.len() as int), pat)
        } else {
            seq![s]
        }
    }
}

/// Splitting always yields at least one piece.
pub proof fn lemma_split_by_len(s: Seq<u8>, pat: Seq<u8>)
    ensures
        split_by(s, pat).len() >= 1,
    decreases s.len(),
{
    if pat.len() != 0 {
        let fo = find_first(s, pat);
        if fo is Some && 0 <= fo->Some_0 && fo->Some_0 + pat.len() <= s.len() {
            lemma_split_by_len(s.subrange(fo->Some_0 + pat.len() as int, s.len() as int), pat);
        }
    }
}

/// `s` split on every occurrence of `pat`, as owned vectors.
pub fn split_slice(s: &[u8], pat: &[u8]) -> (r: Vec<Vec<u8>>)
    requires
        pat@.len() > 0,
    ensures
        r.deep_view() == split_by(s@, pat@),
{
    let mut r: Vec<Vec<u8>> = Vec::new();
    let mut pos: usize = 0;
    proof {
        assert(s@.subrange(0, s@.len() as int) =~= s@);
        assert(r.deep_view() + split_by(s@, pat@) =~~= split_by(s@, pat@));
    }
    loop
        invariant
            pat@.len() > 0,
            0 <= pos <= s@.len(),
            split_by(s@, pat@) =~~= r.deep_view() + split_by(
                s@.subrange(pos as int, s@.len() as int),
                pat@,
            ),
        decreases s@.len() - pos,
    {
        let rest = &s[pos..s.len()];
        match find_sub(rest, pat) {
            Some(i) => {
                proof {
                    lemma_find_first(rest@, pat@);
                }
                let ghost old_r = r.deep_view();
                let piece = vstd::slice::slice_to_vec(&rest[0..i]);
                r.push(piece);
                proof {
                    assert(r.deep_view() =~~= old_r.push(rest@.subrange(0, i as int)));
                    assert(split_by(rest@, pat@) == seq![rest@.subrange(0, i as int)] + split_by(
                        rest@.subrange(i + pat@.len(), rest@.len() as int),
                        pat@,
                    ));
                    assert(rest@.subrange(i + pat@.len(), rest@.len() as int) =~= s@.subrange(
                        pos + i + pat@.len(),
                        s@.len() as int,
                    ));
                    assert(r.deep_view() + split_by(
                        s@.subrange(pos + i + pat@.len(), s@.len() as int),
                        pat@,
                    ) =~~= old_r + split_by(rest@, pat@));
                }
                pos = pos + i + pat.len();
            },
            None => {
                let ghost old_r = r.deep_view();
                let piece = vstd::slice::slice_to_vec(rest);
                r.push(piece);
                proof {
                    assert(split_by(rest@, pat@) == seq![rest@]);
                    assert(r.deep_view() =~~= old_r.push(rest@));
                    assert(r.deep_view() =~~= old_r + split_by(rest@, pat@));
                }
                return r;
            },
        }
    }
}

/// The pieces joined back together with `sep` between them.
pub open spec fn join_by(parts: Seq<Seq<u8>>, sep: Seq<u8>) -> Seq<u8>
    decreases parts.len(),
{
    if parts.len() == 0 {
        Seq::empty()
    } else if parts.len() == 1 {
        parts[0]
    } else {
        parts[0] + sep + join_by(parts.drop_first(), sep)
    }
}

/// A sequence without the byte `c` has no occurrence of the pattern `[c]`.
proof fn lemma_single_byte_match(s: Seq<u8>, c: u8, i: int)
    requires
        0 <= i < s.len(),
    ensures
        match_at(s, seq![c], i) <==> s[i] == c,
{
    if s[i] == c {
        assert(s.subrange(i, i + 1) =~= seq![c]);
    } else {
        assert(s.subrange(i, i + 1)[0] == s[i]);
    }
}

/// Splitting on a byte undoes joining on it, when no piece contains the byte.
pub proof fn lemma_split_join(parts: Seq<Seq<u8>>, c: u8)
    requires
        parts.len() >= 1,
        forall|i: int, j: int|
            0 <= i < parts.len() && 0 <= j < parts[i].len() ==> #[trigger] parts[i][j] != c,
    ensures
        split_by(join_by(parts, seq![c]), seq![c]) == parts,
    decreases parts.len(),
{
    let sep = seq![c];
    let s = join_by(parts, sep);
    if parts.len() == 1 {
        assert(s == parts[0]);
        assert forall|i: int| !match_at(s, sep, i) by {
            if 0 <= i < s.len() {
                lemma_single_byte_match(s, c, i);
            }
        }
        lemma_find_first(s, sep);
        assert(find_first(s, sep) is None);
        assert(split_by(s, sep) =~= parts);
    } else {
        let p0 = parts[0];
        let rest = join_by(parts.drop_first(), sep);
        assert(s == p0 + sep + rest);
        let k = p0.len() as int;
        assert(s[k] == c);
        lemma_single_byte_match(s, c, k);
        assert forall|i: int| 0 <= i < k implies !match_at(s, sep, i) by {
            assert(s[i] == p0[i]);
            assert(parts[0][i] != c);
            lemma_single_byte_match(s, c, i);
        }
        lemma_find_first_is(s, sep, k);
        assert(s.subrange(0, k) =~= p0);
        assert(s.subrange(k + 1, s.len() as int) =~= rest);
        assert(split_by(s, sep) == seq![p0] + split_by(rest, sep));
        lemma_split_join(parts.drop_first(), c);
        assert(seq![p0] + parts.drop_first() =~= parts);
    }
}

/// ASCII whitespace, as `char::is_whitespace` classifies bytes below 0x80.
pub open spec fn is_space(b: u8) -> bool {
    b == 0x20 || (0x09 <= b && b <= 0x0d)
}

/// True when every byte of `s` is ASCII whitespace (an empty `s` included).
pub open spec fn all_space(s: Seq<u8>) -> bool {
    forall|i: int| 0 <= i < s.len() ==> is_space(#[trigger] s[i])
}

/// Runtime check for `all_space`.
pub fn check_all_space(s: &[u8]) -> (r: bool)
    ensures
        r == all_space(s@),
{
    let n = s.len();
    for i in 0..n
        invariant
            n == s@.len(),
            forall|j: int| 0 <= j < i ==> is_space(#[trigger] s@[j]),
    {
        let b = s[i];
        if !(b == 0x20 || (0x09 <= b && b <= 0x0d)) {
            return false;
        }
    }
    true
}

/// A line with one trailing carriage return removed, as `str::lines` treats
/// line terminators.
pub open spec fn strip_cr(l: Seq<u8>) -> Seq<u8> {
    if l.len() > 0 && l.last() == 0x0d {
        l.drop_last()
    } else {
        l
    }
}

/// The lines of `s`: pieces between newline bytes, each without a trailing
/// carriage return.
pub open spec fn lines_of(s: Seq<u8>) -> Seq<Seq<u8>> {
    split_by(s, seq![0x0au8]).map_values(|l: Seq<u8>| strip_cr(l))
}

/// The index of the first line that contains `pat`, if any.
pub open spec fn first_line_with(lines: Seq<Seq<u8>>, pat: Seq<u8>) -> Option<int>
    decreases lines.len(),
{
    if lines.len() == 0 {
        None
    } else if has_sub(lines[0], pat) {
        Some(0)
    } else {
        match first_line_with(lines.drop_first(), pat) {
            Some(i) => Some(i + 1),
            None => None,
        }
    }
}

/// What `first_line_with` finds: the first index whose line contains `pat`.
pub proof fn lemma_first_line_with(lines: Seq<Seq<u8>>, pat: Seq<u8>)
    ensures
        match first_line_with(lines, pat) {
            Some(i) => 0 <= i < lines.len() && has_sub(lines[i], pat) && forall|j: int|
                0 <= j < i ==> !has_sub(lines[j], pat),
            None => forall|j: int| 0 <= j < lines.len() ==> !has_sub(#[trigger] lines[j], pat),
        },
    decreases lines.len(),
{
    if lines.len() > 0 && !has_sub(lines[0], pat) {
        lemma_first_line_with(lines.drop_first(), pat);
        match first_line_with(lines.drop_first(), pat) {
            Some(i) => {
                assert(lines.drop_first()[i] == lines[i + 1]);
                assert forall|j: int| 0 <= j < i + 1 implies !has_sub(lines[j], pat) by {
                    if j > 0 {
                        assert(lines.drop_first()[j - 1] == lines[j]);
                    }
                }
            },
            None => {
                assert forall|j: int| 0 <= j < lines.len() implies !has_sub(
                    #[trigger] lines[j],
                    pat,
                ) by {
                    if j > 0 {
                        assert(lines.drop_first()[j - 1] == lines[j]);
                    }
                }
            },
        }
    }
}

/// True when `s` begins with `pre`.
pub open spec fn starts_with(s: Seq<u8>, pre: Seq<u8>) -> bool {
    match_at(s, pre, 0)
}

/// Runtime check for `starts_with`.
pub fn check_starts_with(s: &[u8], pre: &[u8]) -> (r: bool)
    ensures
        r == starts_with(s@, pre@),
{
    if s.len() < pre.len() {
        return false;
    }
    slice_eq(&s[0..pre.len()], pre)
}

/// The index of the first line that begins with `pre`, if any.
pub open spec fn first_line_starting(lines: Seq<Seq<u8>>, pre: Seq<u8>) -> Option<int>
    decreases lines.len(),
{
    if lines.len() == 0 {
        None
    } else if starts_with(lines[0], pre) {
        Some(0)
    } else {
        match first_line_starting(lines.drop_first(), pre) {
            Some(i) => Some(i + 1),
            None => None,
        }
    }
}

/// What `first_line_starting` finds: the first index whose line begins
/// with `pre`.
pub proof fn lemma_first_line_starting(lines: Seq<Seq<u8>>, pre: Seq<u8>)
    ensures
        match first_line_starting(lines, pre) {
            Some(i) => 0 <= i < lines.len() && starts_with(lines[i], pre) && forall|j: int|
                0 <= j < i ==> !starts_with(lines[j], pre),
            None => forall|j: int| 0 <= j < lines.len() ==> !starts_with(#[trigger] lines[j], pre),
        },
    decreases lines.len(),
{
    if lines.len() > 0 && !starts_with(lines[0], pre) {
        lemma_first_line_starting(lines.drop_first(), pre);
        match first_line_starting(lines.drop_first(), pre) {
            Some(i) => {
                assert(lines.drop_first()[i] == lines[i + 1]);
                assert forall|j: int| 0 <= j < i + 1 implies !starts_with(lines[j], pre) by {
                    if j > 0 {
                        assert(lines.drop_first()[j - 1] == lines[j]);
                    }
                }
            },
            None => {
                assert forall|j: int| 0 <= j < lines.len() implies !starts_with(
                    #[trigger] lines[j],
                    pre,
                ) by {
                    if j > 0 {
                        assert(lines.drop_first()[j - 1] == lines[j]);
                    }
                }
            },
        }
    }
}

/// `has_sub` holds exactly when `find_first` finds an index.
pub proof fn lemma_has_sub_find(s: Seq<u8>, pat: Seq<u8>)
    requires
        pat.len() > 0,
    ensures
        has_sub(s, pat) <==> find_first(s, pat) is Some,
{
    lemma_find_first(s, pat);
    if has_sub(s, pat) {
        let i = choose|i: int| match_at(s, pat, i);
        if find_first(s, pat) is None {
            assert(!match_at(s, pat, i));
        }
    }
}

/// The decimal digits of `n`, most significant first, as ASCII bytes.
pub open spec fn dec_digits(n: nat) -> Seq<u8>
    decreases n,
{
    if n < 10 {
        seq![(0x30 + n) as u8]
    } else {
        dec_digits(n / 10) + seq![(0x30 + n % 10) as u8]
    }
}

/// The numeric value denoted by a sequence of ASCII decimal digits.
pub open spec fn dec_value(s: Seq<u8>) -> nat
    decreases s.len(),
{
    if s.len() == 0 {
        0
    } else {
        dec_value(s.drop_last()) * 10 + (if 0x30 <= s.last() <= 0x39 {
            (s.last() - 0x30) as nat
        } else {
            0
        })
    }
}

/// Formatting a number and reading the digits back yields the number.
pub proof fn lemma_dec_digits_value(n: nat)
    ensures
        dec_value(dec_digits(n)) == n,
    decreases n,
{
    if n < 10 {
        let d = dec_digits(n);
        assert(d =~= seq![(0x30 + n) as u8]);
        assert(d.drop_last() =~= Seq::<u8>::empty());
        assert(dec_value(d.drop_last()) == 0);
        assert(d.last() == (0x30 + n) as u8);
        assert(0x30 <= d.last() <= 0x39);
        assert(dec_value(d) == 0 * 10 + n);
    } else {
        lemma_dec_digits_value(n / 10);
        let d = dec_digits(n);
        assert(d == dec_digits(n / 10) + seq![(0x30 + n % 10) as u8]);
        assert(d.drop_last() =~= dec_digits(n / 10));
        assert(d.len() == dec_digits(n / 10).len() + 1);
        assert(d.last() == (0x30 + n % 10) as u8);
        assert(0x30 <= d.last() <= 0x39);
        assert(dec_value(d) == (n / 10) * 10 + n % 10);
        assert((n / 10) * 10 + n % 10 == n) by (nonlinear_arith);
    }
}

/// Every formatted digit is an ASCII digit.
pub proof fn lemma_dec_digits_ascii(n: nat)
    ensures
        forall|i: int|
            0 <= i < dec_digits(n).len() ==> 0x30 <= #[trigger] dec_digits(n)[i] <= 0x39,
    decreases n,
{
    if n < 10 {
        assert(dec_digits(n) =~= seq![(0x30 + n) as u8]);
        assert(dec_digits(n)[0] == (0x30 + n) as u8);
    } else {
        lemma_dec_digits_ascii(n / 10);
        let prior = dec_digits(n / 10);
        assert(dec_digits(n) == prior + seq![(0x30 + n % 10) as u8]);
        assert forall|i: int| 0 <= i < dec_digits(n).len() implies 0x30 <= #[trigger] dec_digits(
            n,
        )[i] <= 0x39 by {
            if i < prior.len() {
                assert(dec_digits(n)[i] == prior[i]);
            } else {
                assert(dec_digits(n)[i] == (0x30 + n % 10) as u8);
            }
        }
    }
}

/// The decimal digits of `n` as bytes, at runtime.
pub fn u64_to_dec(n: u64) -> (r: Vec<u8>)
    ensures
        r@ == dec_digits(n as nat),
    decreases n,
{
    if n < 10 {
        let mut r: Vec<u8> = Vec::new();
        r.push(0x30 + (n as u8));
        proof {
            assert(r@ =~= dec_digits(n as nat));
        }
        r
    } else {
        let mut r = u64_to_dec(n / 10);
        r.push(0x30 + ((n % 10) as u8));
        proof {
            assert(r@ =~= dec_digits((n / 10) as nat) + seq![(0x30 + n % 10) as u8]);
        }
        r
    }
}

/// `s` with every occurrence of `pat` replaced by `rep`, scanning left to
/// right without rescanning what was substituted.
pub open spec fn replace_all(s: Seq<u8>, pat: Seq<u8>, rep: Seq<u8>) -> Seq<u8>
    decreases s.len(),
{
    if pat.len() == 0 {
        s
    } else {
        let fo = find_first(s, pat);
        if fo is Some && 0 <= fo->Some_0 && fo->Some_0 + pat.len() <= s.len() {
            let i = fo->Some_0;
            s.subrange(0, i) + rep + replace_all(s.subrange(i + pat.len(), s.len() as int), pat, rep)
        } else {
            s
        }
    }
}

/// Replaces every occurrence of `pat` in `s` by `rep`.
pub fn replace_slice(s: &[u8], pat: &[u8], rep: &[u8]) -> (r: Vec<u8>)
    requires
        pat@.len() > 0,
    ensures
        r@ == replace_all(s@, pat@, rep@),
{
    let mut r: Vec<u8> = Vec::new();
    let mut pos: usize = 0;
    proof {
        assert(s@.subrange(0, s@.len() as int) =~= s@);
    }
    loop
        invariant
            pat@.len() > 0,
            0 <= pos <= s@.len(),
            replace_all(s@, pat@, rep@) == r@ + replace_all(
                s@.subrange(pos as int, s@.len() as int),
                pat@,
                rep@,
            ),
        decreases s@.len() - pos,
    {
        let rest = &s[pos..s.len()];
        match find_sub(rest, pat) {
            Some(i) => {
                proof {
                    lemma_find_first(rest@, pat@);
                }
                let ghost old_r = r@;
                r.extend_from_slice(&rest[0..i]);
                r.extend_from_slice(rep);
                proof {
                    assert(replace_all(rest@, pat@, rep@) == rest@.subrange(0, i as int) + rep@
                        + replace_all(rest@.subrange(i + pat@.len(), rest@.len() as int), pat@, rep@));
                    assert(rest@.subrange(i + pat@.len(), rest@.len() as int) =~= s@.subrange(
                        pos + i + pat@.len(),
                        s@.len() as int,
                    ));
                    assert(r@ + replace_all(s@.subrange(pos + i + pat@.len(), s@.len() as int), pat@, rep@)
                        =~= old_r + replace_all(rest@, pat@, rep@));
                }
                pos = pos + i + pat.len();
            },
            None => {
                r.extend_from_slice(rest);
                proof {
                    assert(replace_all(rest@, pat@, rep@) == rest@);
                }
                return r;
            },
        }
    }
}

/// The decimal digits of `n` as text.
pub open spec fn dec_text(n: nat) -> Seq<char> {
    text_or_empty(dec_digits(n))
}

/// The decimal rendering of `n` as a string.
pub fn u64_to_string(n: u64) -> (r: String)
    ensures
        r@ == dec_text(n as nat),
{
    let d = u64_to_dec(n);
    proof {
        lemma_dec_digits_ascii(n as nat);
        lemma_ascii_decode(d@);
    }
    to_text_or_empty(d)
}

/// The decimal digits of an integer as text, a leading `-` included when it
/// is negative.
pub open spec fn dec_text_int(n: int) -> Seq<char> {
    if n < 0 {
        seq!['-'] + dec_text((-n) as nat)
    } else {
        dec_text(n as nat)
    }
}

/// The decimal rendering of a signed number as a string.
pub fn i64_to_string(n: i64) -> (r: String)
    ensures
        r@ == dec_text_int(n as int),
{
    if n >= 0 {
        u64_to_string(n as u64)
    } else {
        let m: u64 = ((-(n + 1)) as u64) + 1;
        proof {
            assert(m == (-(n as int)) as nat);
        }
        let mut r = String::new();
        r.append("-");
        let digits = u64_to_string(m);
        r.append(digits.as_str());
        proof {
            reveal_strlit("-");
            assert("-"@ =~= seq!['-']);
            assert(r@ =~= dec_text_int(n as int));
        }
        r
    }
}

/// All-ASCII byte sequences are valid UTF-8 and decode byte by byte.
pub proof fn lemma_ascii_decode(b: Seq<u8>)
    requires
        forall|i: int| 0 <= i < b.len() ==> #[trigger] b[i] < 0x80,
    ensures
        valid_utf8(b),
        decode_utf8(b) == Seq::new(b.len(), |i: int| b[i] as char),
    decreases b.len(),
{
    if b.len() == 0 {
        assert(valid_utf8(b));
        assert(decode_utf8(b) =~= Seq::new(b.len(), |i: int| b[i] as char));
    } else {
        let b0 = b[0];
        assert(b0 < 0x80);
        assert(vstd::utf8::is_leading_byte_width_1(b0));
        assert(vstd::utf8::length_of_first_scalar(b) == 1);
        let rest = vstd::utf8::pop_first_scalar(b);
        assert(rest =~= b.drop_first());
        lemma_ascii_decode(b.drop_first());
        assert(vstd::utf8::valid_first_scalar(b));
        assert(valid_utf8(b));
        assert(b0 & 0x7f == b0) by (bit_vector)
            requires
                b0 < 0x80,
        ;
        assert(vstd::utf8::decode_first_scalar(b) == b0 as u32);
        assert((b0 as u32) as char == b0 as char);
        assert(decode_utf8(b) == seq![b0 as char] + decode_utf8(b.drop_first()));
        assert(decode_utf8(b) =~= Seq::new(b.len(), |i: int| b[i] as char));
    }
}

/// Relies on `String::from_utf8`: returns the decoded string exactly when the
/// bytes are valid UTF-8, and rejects them otherwise.
#[verifier::external_body]
pub(crate) fn bytes_to_string(b: Vec<u8>) -> (r: Option<String>)
    ensures
        r is Some <==> valid_utf8(b@),
        r matches Some(s) ==> s@ == decode_utf8(b@),
{
    match String::from_utf8(b) {
        Ok(s) => Some(s),
        Err(_) => None,
    }
}

/// What `String::from_utf8_lossy` yields on arbitrary bytes: a function of the
/// bytes alone (invalid sequences become replacement characters).
pub uninterp spec fn lossy_chars(b: Seq<u8>) -> Seq<char>;

/// Relies on `String::from_utf8_lossy`: best-effort text decoding that leaves
/// valid UTF-8 input unchanged.
#[verifier::external_body]
pub(crate) fn bytes_to_string_lossy(b: &[u8]) -> (r: String)
    ensures
        r@ == lossy_chars(b@),
        valid_utf8(b@) ==> r@ == decode_utf8(b@),
{
    String::from_utf8_lossy(b).into_owned()
}

/// The text a byte sequence denotes: its UTF-8 decoding when valid, and the
/// empty text otherwise.
pub open spec fn text_or_empty(b: Seq<u8>) -> Seq<char> {
    if valid_utf8(b) {
        decode_utf8(b)
    } else {
        Seq::<char>::empty()
    }
}

/// Converts bytes to text, collapsing invalid UTF-8 to the empty string.
pub fn to_text_or_empty(b: Vec<u8>) -> (r: String)
    ensures
        r@ == text_or_empty(b@),
{
    match bytes_to_string(b) {
        Some(s) => s,
        None => String::new(),
    }
}

} // verus!
