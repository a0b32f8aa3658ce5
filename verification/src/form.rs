//! Decoding of `application/x-www-form-urlencoded` request bodies.
use vstd::prelude::*;

verus! {

use crate::bytes::{
    split_by, find_first, join_by, text_or_empty, split_slice, find_sub, slice_eq,
    to_text_or_empty, lemma_split_join, lemma_find_first,
};
use crate::percent::{
    percent_decoded, percent_encoded, percent_decode_bytes, lemma_percent_round_trip,
    lemma_percent_encoded_bytes, is_unreserved,
};
use vstd::utf8::encode_utf8;

/// Compares two strings for equality of their character sequences.
pub fn str_eq(a: &str, b: &str) -> (r: bool)
    ensures
        r == (a@ == b@),
{
    let r = slice_eq(a.as_bytes(), b.as_bytes());
    proof {
        if a@ != b@ {
            vstd::utf8::encode_utf8_decode_utf8(a@);
            vstd::utf8::encode_utf8_decode_utf8(b@);
        }
    }
    r
}

/// The `key=value` pair a body segment denotes: the bytes before the first
/// `=` and the bytes after it, or nothing when the segment has no `=`.
pub open spec fn segment_pair(seg: Seq<u8>) -> Option<(Seq<u8>, Seq<u8>)> {
    match find_first(seg, seq![0x3du8]) {
        Some(i) => Some((seg.subrange(0, i), seg.subrange(i + 1, seg.len() as int))),
        None => None,
    }
}

/// Form-field bytes with each unencoded `+` read as a space. This runs
/// before percent-decoding, so an escaped `%2B` still denotes a literal
/// `+`.
pub open spec fn plus_to_space(s: Seq<u8>) -> Seq<u8> {
    s.map_values(
        |b: u8|
            if b == 0x2b {
                0x20u8
            } else {
                b
            },
    )
}

/// Replaces each `+` by a space.
fn spaces_from_plus(s: &[u8]) -> (r: Vec<u8>)
    ensures
        r@ == plus_to_space(s@),
{
    let mut r: Vec<u8> = Vec::new();
    let n = s.len();
    for i in 0..n
        invariant
            n == s@.len(),
            r@.len() == i,
            forall|j: int|
                0 <= j < i ==> r@[j] == (if s@[j] == 0x2b {
                    0x20u8
                } else {
                    s@[j]
                }),
    {
        let b = s[i];
        r.push(
            if b == 0x2b {
                0x20
            } else {
                b
            },
        );
    }
    proof {
        assert(r@ =~= plus_to_space(s@));
    }
    r
}

/// The text a form field denotes: read unencoded `+` as a space,
/// percent-decode, then decode as UTF-8, collapsing invalid UTF-8 to the
/// empty string.
pub open spec fn decoded_text(b: Seq<u8>) -> Seq<char> {
    text_or_empty(percent_decoded(plus_to_space(b)))
}

/// The mapping denoted by a sequence of `key=value` segments; a later
/// binding of a key overrides an earlier one, and segments without `=`
/// are skipped.
pub open spec fn form_map_of(segs: Seq<Seq<u8>>) -> Map<Seq<char>, Seq<char>>
    decreases segs.len(),
{
    if segs.len() == 0 {
        Map::empty()
    } else {
        let m = form_map_of(segs.drop_last());
        match segment_pair(segs.last()) {
            Some(kv) => m.insert(decoded_text(kv.0), decoded_text(kv.1)),
            None => m,
        }
    }
}

/// The mapping denoted by a whole form body: its `&`-separated segments,
/// each read as a `key=value` pair.
pub open spec fn spec_parse_form(body: Seq<u8>) -> Map<Seq<char>, Seq<char>> {
    form_map_of(split_by(body, seq![0x26u8]))
}

/// An ordered collection of decoded form fields, read as a key-to-value
/// mapping in which the latest binding of a key wins.
pub struct FormData {
    pairs: Vec<(String, String)>,
}

/// The mapping denoted by a pair list, later bindings overriding earlier.
pub closed spec fn pairs_map(ps: Seq<(String, String)>) -> Map<Seq<char>, Seq<char>>
    decreases ps.len(),
{
    if ps.len() == 0 {
        Map::empty()
    } else {
        pairs_map(ps.drop_last()).insert(ps.last().0@, ps.last().1@)
    }
}

impl View for FormData {
    type V = Map<Seq<char>, Seq<char>>;

    closed spec fn view(&self) -> Map<Seq<char>, Seq<char>> {
        pairs_map(self.pairs@)
    }
}

proof fn lemma_pairs_map_contains(ps: Seq<(String, String)>, k: Seq<char>)
    ensures
        pairs_map(ps).contains_key(k) <==> exists|i: int| 0 <= i < ps.len() && ps[i].0@ == k,
    decreases ps.len(),
{
    if ps.len() > 0 {
        lemma_pairs_map_contains(ps.drop_last(), k);
        if pairs_map(ps).contains_key(k) {
            if ps.last().0@ != k {
                let i = choose|i: int| 0 <= i < ps.drop_last().len() && ps.drop_last()[i].0@ == k;
                assert(ps[i].0@ == k);
            }
        }
        if exists|i: int| 0 <= i < ps.len() && ps[i].0@ == k {
            let i = choose|i: int| 0 <= i < ps.len() && ps[i].0@ == k;
            if i < ps.len() - 1 {
                assert(ps.drop_last()[i].0@ == k);
            }
        }
    }
}

proof fn lemma_pairs_map_get(ps: Seq<(String, String)>, i: int)
    requires
        0 <= i < ps.len(),
        forall|j: int| i < j < ps.len() ==> ps[j].0@ != ps[i].0@,
    ensures
        pairs_map(ps).contains_key(ps[i].0@),
        pairs_map(ps)[ps[i].0@] == ps[i].1@,
    decreases ps.len(),
{
    if i == ps.len() - 1 {
    } else {
        assert(ps.drop_last()[i] == ps[i]);
        lemma_pairs_map_get(ps.drop_last(), i);
        assert(ps.last().0@ != ps[i].0@);
    }
}

impl FormData {
    /// An empty field collection.
    pub fn new() -> (r: FormData)
        ensures
            r@ == Map::<Seq<char>, Seq<char>>::empty(),
    {
        FormData { pairs: Vec::new() }
    }

    /// Binds `key` to `value`, overriding any earlier binding.
    pub fn insert(&mut self, key: String, value: String)
        ensures
            final(self)@ == old(self)@.insert(key@, value@),
    {
        let ghost old_ps = self.pairs@;
        self.pairs.push((key, value));
        proof {
            assert(self.pairs@.drop_last() =~= old_ps);
            assert(self.pairs@.last().0@ == key@);
        }
    }

    /// Looks a key up, returning the latest value bound to it.
    pub fn get<'a>(&'a self, key: &str) -> (r: Option<&'a String>)
        ensures
            match r {
                Some(v) => self@.contains_key(key@) && v@ == self@[key@],
                None => !self@.contains_key(key@),
            },
    {
        let mut i = self.pairs.len();
        loop
            invariant
                0 <= i <= self.pairs@.len(),
                forall|j: int| i <= j < self.pairs@.len() ==> self.pairs@[j].0@ != key@,
            decreases i,
        {
            if i == 0 {
                proof {
                    lemma_pairs_map_contains(self.pairs@, key@);
                }
                return None;
            }
            i = i - 1;
            if str_eq(self.pairs[i].0.as_str(), key) {
                proof {
                    lemma_pairs_map_get(self.pairs@, i as int);
                }
                return Some(&self.pairs[i].1);
            }
        }
    }
}

/// Decodes a form body given as raw bytes: split on `&`, split each segment
/// at its first `=`, read `+` as space and percent-decode both sides, and
/// let later keys override.
pub fn parse_form_bytes(body: &[u8]) -> (r: FormData)
    ensures
        r@ == spec_parse_form(body@),
{
    let mut amp: Vec<u8> = Vec::new();
    amp.push(0x26);
    let mut eq: Vec<u8> = Vec::new();
    eq.push(0x3d);
    proof {
        assert(amp@ =~= seq![0x26u8]);
        assert(eq@ =~= seq![0x3du8]);
    }
    let segs = split_slice(body, amp.as_slice());
    let mut r = FormData::new();
    let n = segs.len();
    proof {
        assert(segs.deep_view().subrange(0, 0) =~= Seq::<Seq<u8>>::empty());
    }
    for i in 0..n
        invariant
            n == segs@.len(),
            eq@ == seq![0x3du8],
            segs.deep_view() == split_by(body@, seq![0x26u8]),
            r@ == form_map_of(segs.deep_view().subrange(0, i as int)),
    {
        let seg = &segs[i];
        let ghost pre = segs.deep_view().subrange(0, i as int);
        let ghost cur = segs.deep_view().subrange(0, i + 1);
        proof {
            assert(cur.drop_last() =~= pre);
            assert(cur.last() == segs.deep_view()[i as int]);
            assert(seg@ == segs.deep_view()[i as int]);
        }
        match find_sub(seg.as_slice(), eq.as_slice()) {
            Some(p) => {
                let seg_len = seg.len();
                proof {
                    lemma_find_first(seg@, seq![0x3du8]);
                    assert(p < seg_len);
                }
                let ks = spaces_from_plus(&seg.as_slice()[0..p]);
                let kb = percent_decode_bytes(ks.as_slice());
                let key = to_text_or_empty(kb);
                let vs = spaces_from_plus(&seg.as_slice()[p + 1..seg_len]);
                let vb = percent_decode_bytes(vs.as_slice());
                let value = to_text_or_empty(vb);
                r.insert(key, value);
                proof {
                    assert(segment_pair(cur.last()) == Some(
                        (
                            seg@.subrange(0, p as int),
                            seg@.subrange((p + 1) as int, seg@.len() as int),
                        ),
                    ));
                    assert(r@ == form_map_of(cur));
                }
            },
            None => {
                proof {
                    assert(segment_pair(cur.last()) is None);
                    assert(r@ == form_map_of(cur));
                }
            },
        }
    }
    proof {
        assert(segs.deep_view().subrange(0, n as int) =~= segs.deep_view());
    }
    r
}

/// Decodes an `application/x-www-form-urlencoded` body into its field map.
pub fn parse_form_data(body: &str) -> (r: FormData)
    ensures
        r@ == spec_parse_form(encode_utf8(body@)),
{
    parse_form_bytes(body.as_bytes())
}

/// The byte segment `percent_encoded(k) ++ "=" ++ percent_encoded(v)`.
pub open spec fn encoded_pair(kv: (Seq<u8>, Seq<u8>)) -> Seq<u8> {
    percent_encoded(kv.0) + seq![0x3du8] + percent_encoded(kv.1)
}

/// A form body assembled from percent-encoded pairs joined by `&`.
pub open spec fn encoded_form_body(pairs: Seq<(Seq<u8>, Seq<u8>)>) -> Seq<u8> {
    join_by(pairs.map_values(|kv: (Seq<u8>, Seq<u8>)| encoded_pair(kv)), seq![0x26u8])
}

proof fn lemma_encoded_avoids(s: Seq<u8>, b: u8)
    requires
        !is_unreserved(b),
        b != 0x25,
        !(0x30 <= b <= 0x39),
        !(0x41 <= b <= 0x46),
    ensures
        forall|i: int| 0 <= i < percent_encoded(s).len() ==> #[trigger] percent_encoded(s)[i] != b,
{
    lemma_percent_encoded_bytes(s);
}

/// The encoder never emits a `+` (it escapes one as `%2B`), so reading `+`
/// as space leaves encoded text unchanged.
proof fn lemma_plus_free_encoded(s: Seq<u8>)
    ensures
        plus_to_space(percent_encoded(s)) == percent_encoded(s),
{
    lemma_encoded_avoids(s, 0x2b);
    assert(plus_to_space(percent_encoded(s)) =~= percent_encoded(s));
}

proof fn lemma_form_map_last_binding(segs: Seq<Seq<u8>>, i: int, k: Seq<char>, v: Seq<char>)
    requires
        0 <= i < segs.len(),
        segment_pair(segs[i]) matches Some(kv) && decoded_text(kv.0) == k && decoded_text(kv.1)
            == v,
        forall|j: int|
            i < j < segs.len() ==> match segment_pair(#[trigger] segs[j]) {
                Some(kv2) => decoded_text(kv2.0) != k,
                None => true,
            },
    ensures
        form_map_of(segs).contains_key(k),
        form_map_of(segs)[k] == v,
    decreases segs.len(),
{
    if i == segs.len() - 1 {
    } else {
        assert(segs.drop_last()[i] == segs[i]);
        assert forall|j: int|
            i < j < segs.drop_last().len() implies match segment_pair(
            #[trigger] segs.drop_last()[j],
        ) {
            Some(kv2) => decoded_text(kv2.0) != k,
            None => true,
        } by {
            assert(segs.drop_last()[j] == segs[j]);
        }
        lemma_form_map_last_binding(segs.drop_last(), i, k, v);
        assert(segs.last() == segs[segs.len() - 1]);
    }
}

/// Form decoding undoes form encoding: in a body assembled from
/// percent-encoded `key=value` pairs joined by `&`, each key not rebound by
/// a later pair maps to its own percent-decoded value.
pub proof fn lemma_form_round_trip(pairs: Seq<(Seq<u8>, Seq<u8>)>, i: int)
    requires
        pairs.len() >= 1,
        0 <= i < pairs.len(),
        forall|j: int|
            i < j < pairs.len() ==> text_or_empty(#[trigger] pairs[j].0) != text_or_empty(
                pairs[i].0,
            ),
    ensures
        spec_parse_form(encoded_form_body(pairs)).contains_key(text_or_empty(pairs[i].0)),
        spec_parse_form(encoded_form_body(pairs))[text_or_empty(pairs[i].0)] == text_or_empty(
            pairs[i].1,
        ),
{
    let segs = pairs.map_values(|kv: (Seq<u8>, Seq<u8>)| encoded_pair(kv));
    let body = join_by(segs, seq![0x26u8]);
    assert forall|a: int, b: int|
        0 <= a < segs.len() && 0 <= b < segs[a].len() implies #[trigger] segs[a][b] != 0x26u8 by {
        let kv = pairs[a];
        assert(segs[a] == encoded_pair(kv));
        lemma_encoded_avoids(kv.0, 0x26);
        lemma_encoded_avoids(kv.1, 0x26);
        let ek = percent_encoded(kv.0);
        let ev = percent_encoded(kv.1);
        if b < ek.len() {
            assert(segs[a][b] == ek[b]);
        } else if b == ek.len() {
            assert(segs[a][b] == 0x3du8);
        } else {
            assert(segs[a][b] == ev[b - ek.len() - 1]);
        }
    }
    lemma_split_join(segs, 0x26);
    assert(split_by(body, seq![0x26u8]) == segs);
    // Each segment splits back into its encoded key and value.
    assert forall|a: int| 0 <= a < segs.len() implies segment_pair(#[trigger] segs[a]) == Some(
        (percent_encoded(pairs[a].0), percent_encoded(pairs[a].1)),
    ) by {
        lemma_segment_pair_of_encoded(pairs[a]);
        assert(segs[a] == encoded_pair(pairs[a]));
    }
    assert forall|a: int| 0 <= a < segs.len() implies decoded_text(
        percent_encoded(#[trigger] pairs[a].0),
    ) == text_or_empty(pairs[a].0) && decoded_text(percent_encoded(pairs[a].1)) == text_or_empty(
        pairs[a].1,
    ) by {
        lemma_plus_free_encoded(pairs[a].0);
        lemma_plus_free_encoded(pairs[a].1);
        lemma_percent_round_trip(pairs[a].0);
        lemma_percent_round_trip(pairs[a].1);
    }
    lemma_form_map_last_binding(segs, i, text_or_empty(pairs[i].0), text_or_empty(pairs[i].1));
}

proof fn lemma_segment_pair_of_encoded(kv: (Seq<u8>, Seq<u8>))
    ensures
        segment_pair(encoded_pair(kv)) == Some((percent_encoded(kv.0), percent_encoded(kv.1))),
{
    let seg = encoded_pair(kv);
    let ek = percent_encoded(kv.0);
    let ev = percent_encoded(kv.1);
    let k = ek.len() as int;
    lemma_encoded_avoids(kv.0, 0x3d);
    assert(seg[k] == 0x3du8);
    assert(seg.subrange(k, k + 1) =~= seq![0x3du8]);
    assert forall|j: int| 0 <= j < k implies !crate::bytes::match_at(seg, seq![0x3du8], j) by {
        assert(seg[j] == ek[j]);
        assert(ek[j] != 0x3d);
        assert(seg.subrange(j, j + 1)[0] == seg[j]);
    }
    crate::bytes::lemma_find_first_is(seg, seq![0x3du8], k);
    assert(seg.subrange(0, k) =~= ek);
    assert(seg.subrange(k + 1, seg.len() as int) =~= ev);
}

} // verus!
