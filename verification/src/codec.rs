use vstd::prelude::*;
use crate::b64::{b64_decode, b64_decode_of, b64_encode, b64_of, is_b64_byte};
use crate::errors::SbError;
use crate::markers::{end_marker, end_marker_vec, lemma_marker_facts, start_marker,
    start_marker_vec};
use crate::search::{contains_at, find_last, lemma_find_last_props, lemma_find_last_some,
    rfind, subvec};
use crate::wrap::{is_eol, lemma_strip_wrap, lemma_wrap_preserves, strip_eol, strip_newlines,
    wrap_long_line, wrap_spec};

verus! {

/// The framed form: opening sentinel, wrapped payload, closing sentinel.
pub open spec fn frame_spec(w: Seq<u8>) -> Seq<u8> {
    start_marker() + w + end_marker()
}

/// What marker search and line-unwrapping yield on `text`: the contiguous
/// base-64 payload between the last occurrence of each sentinel, or the
/// error decode reports.
pub open spec fn spec_extract(text: Seq<u8>) -> Result<Seq<u8>, SbError> {
    match find_last(text, start_marker()) {
        Option::None => Result::Err(SbError::StartMarkerMissing),
        Option::Some(s) => match find_last(text, end_marker()) {
            Option::None => Result::Err(SbError::EndMarkerMissing),
            Option::Some(e) => if e < s + start_marker().len() {
                Result::Err(SbError::EndMarkerBeforeStart)
            } else {
                Result::Ok(strip_eol(text.subrange(s + start_marker().len(), e)))
            },
        },
    }
}

/// Find the sentinels in `text` and return the line-unwrapped base-64
/// payload that sits between them.
pub fn extract_payload(text: &Vec<u8>) -> (r: Result<Vec<u8>, SbError>)
    ensures
        match r {
            Ok(v) => spec_extract(text@) matches Ok(s) && v@ == s,
            Err(e) => spec_extract(text@) == Err::<Seq<u8>, SbError>(e),
        },
{
    let sm = start_marker_vec();
    let em = end_marker_vec();
    let p0 = match rfind(text, &sm) {
        Option::Some(i) => i,
        Option::None => {
            return Err(SbError::StartMarkerMissing);
        },
    };
    let p1 = match rfind(text, &em) {
        Option::Some(i) => i,
        Option::None => {
            return Err(SbError::EndMarkerMissing);
        },
    };
    let n = text.len();
    proof {
        lemma_find_last_props(text@, sm@);
        lemma_find_last_props(text@, em@);
        assert(p0 + sm@.len() <= n);
        assert(p1 + em@.len() <= n);
    }
    let payload_start = p0 + sm.len();
    if p1 < payload_start {
        return Err(SbError::EndMarkerBeforeStart);
    }
    let inner = subvec(text, payload_start, p1);
    let payload = strip_newlines(&inner);
    Ok(payload)
}

/// Base-64 encode `data`, wrap the text to 76 columns, and frame it with
/// the two sentinels.
pub fn base64_encode(data: &Vec<u8>) -> (r: Vec<u8>)
    requires
        ((data@.len() + 2) as int / 3) * 4 <= usize::MAX as int,
    ensures
        r@ == frame_spec(wrap_spec(b64_of(data@))),
        forall|i: int| 0 <= i < b64_of(data@).len() ==> is_b64_byte(b64_of(data@)[i]),
        b64_decode_of(b64_of(data@)) == Some(data@),
{
    let b64 = b64_encode(data);
    let mut wrapped = wrap_long_line(&b64);
    let mut r = start_marker_vec();
    r.append(&mut wrapped);
    let mut em = end_marker_vec();
    r.append(&mut em);
    proof {
        assert(r@ =~= frame_spec(wrap_spec(b64_of(data@))));
    }
    r
}

/// Locate the framed block in `txt` and base-64 decode the payload
/// between the sentinels.
pub fn base64_decode(txt: &Vec<u8>) -> (r: Result<Vec<u8>, SbError>)
    ensures
        match spec_extract(txt@) {
            Ok(s) => match b64_decode_of(s) {
                Option::Some(blob) => r matches Ok(v) && v@ == blob,
                Option::None => r == Err::<Vec<u8>, SbError>(SbError::Base64DecodingFailed),
            },
            Err(e) => r == Err::<Vec<u8>, SbError>(e),
        },
{
    let payload = match extract_payload(txt) {
        Ok(p) => p,
        Err(e) => {
            return Err(e);
        },
    };
    match b64_decode(&payload) {
        Ok(v) => Ok(v),
        Err(_) => Err(SbError::Base64DecodingFailed),
    }
}

/// Marker search on a framed text flanked by foreign material: as long
/// as nothing after the frame holds a caret or an at-sign byte, the last
/// occurrence of each sentinel is the frame's own, and extraction
/// recovers the payload exactly.
pub proof fn lemma_extract_framed(pre: Seq<u8>, s: Seq<u8>, post: Seq<u8>)
    requires
        forall|i: int| 0 <= i < s.len() ==> is_b64_byte(s[i]),
        forall|i: int| 0 <= i < post.len() ==> post[i] != 94 && post[i] != 64,
    ensures
        spec_extract(pre + frame_spec(wrap_spec(s)) + post) == Ok::<Seq<u8>, SbError>(s),
{
    lemma_marker_facts();
    let w = wrap_spec(s);
    let t = pre + frame_spec(w) + post;
    let a = pre.len() as int;
    let e = a + 35 + w.len();
    lemma_wrap_preserves(s, |b: u8| is_b64_byte(b) || b == 10);
    assert(t.len() == a + 35 + w.len() + 37 + post.len());
    assert forall|k: int| a + 35 <= k < e implies t[k] == w[k - (a + 35)] by {}
    assert forall|k: int| e <= k < e + 37 implies t[k] == end_marker()[k - e] by {}
    assert forall|k: int| e + 37 <= k < t.len() implies t[k] == post[k - (e + 37)] by {}
    assert(t.subrange(a, a + 35) =~= start_marker());
    assert(t.subrange(e, e + 37) =~= end_marker());
    assert(contains_at(t, start_marker(), a));
    assert(contains_at(t, end_marker(), e));
    assert forall|j: int| a < j implies !contains_at(t, start_marker(), j) by {
        if contains_at(t, start_marker(), j) {
            assert(t.subrange(j, j + 35)[34] == t[j + 34]);
            assert(t[j + 34] == 94);
            let k = j + 34;
            assert(a + 35 <= k < t.len());
            if k < e {
                assert(t[k] == w[k - (a + 35)]);
                assert(is_b64_byte(w[k - (a + 35)]) || w[k - (a + 35)] == 10);
                assert(false);
            } else if k < e + 37 {
                assert(t[k] == end_marker()[k - e]);
                assert(false);
            } else {
                assert(t[k] == post[k - (e + 37)]);
                assert(false);
            }
        }
    }
    assert forall|j: int| e < j implies !contains_at(t, end_marker(), j) by {
        if contains_at(t, end_marker(), j) {
            assert(t.subrange(j, j + 37)[36] == t[j + 36]);
            assert(t[j + 36] == 64);
            let k = j + 36;
            assert(e + 37 <= k < t.len());
            assert(t[k] == post[k - (e + 37)]);
            assert(false);
        }
    }
    lemma_find_last_some(t, start_marker(), a);
    lemma_find_last_some(t, end_marker(), e);
    assert(t.subrange(a + 35, e) =~= w);
    lemma_strip_wrap(s);
}

/// Every byte of a framed, wrapped base-64 text is ASCII.
pub proof fn lemma_frame_ascii(s: Seq<u8>)
    requires
        forall|i: int| 0 <= i < s.len() ==> is_b64_byte(s[i]),
    ensures
        forall|i: int|
            0 <= i < frame_spec(wrap_spec(s)).len() ==> #[trigger] frame_spec(wrap_spec(s))[i]
                < 128,
{
    lemma_marker_facts();
    let w = wrap_spec(s);
    let t = frame_spec(w);
    assert(forall|i: int| 0 <= i < s.len() ==> s[i] < 128);
    lemma_wrap_preserves(s, |b: u8| b < 128);
    assert forall|i: int| 0 <= i < t.len() implies #[trigger] t[i] < 128 by {
        if i < 35 {
            assert(t[i] == start_marker()[i]);
        } else if i < 35 + w.len() {
            assert(t[i] == w[i - 35]);
        } else {
            assert(t[i] == end_marker()[i - 35 - w.len()]);
        }
    }
}

/// Round-trip law at the text layer: extracting from a framed, wrapped
/// base-64 payload returns exactly that payload.
pub proof fn lemma_frame_round_trip(s: Seq<u8>)
    requires
        forall|i: int| 0 <= i < s.len() ==> is_b64_byte(s[i]),
    ensures
        spec_extract(frame_spec(wrap_spec(s))) == Ok::<Seq<u8>, SbError>(s),
{
    lemma_extract_framed(Seq::empty(), s, Seq::empty());
    assert(Seq::empty() + frame_spec(wrap_spec(s)) + Seq::empty() =~= frame_spec(
        wrap_spec(s),
    ));
}

/// Marker-search idempotence law: foreign text before the frame, and
/// foreign text after it that holds no caret or at-sign byte, leave the
/// extracted payload unchanged.
pub proof fn lemma_noise_tolerance(pre: Seq<u8>, s: Seq<u8>, post: Seq<u8>)
    requires
        forall|i: int| 0 <= i < s.len() ==> is_b64_byte(s[i]),
        forall|i: int| 0 <= i < post.len() ==> post[i] != 94 && post[i] != 64,
    ensures
        spec_extract(pre + frame_spec(wrap_spec(s)) + post) == spec_extract(frame_spec(
            wrap_spec(s),
        )),
{
    lemma_extract_framed(pre, s, post);
    lemma_frame_round_trip(s);
}

} // verus!
