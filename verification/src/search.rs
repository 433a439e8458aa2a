use vstd::prelude::*;

verus! {

/// `pat` occurs in `text` starting at index `i`.
pub open spec fn contains_at(text: Seq<u8>, pat: Seq<u8>, i: int) -> bool {
    &&& 0 <= i
    &&& i + pat.len() <= text.len()
    &&& text.subrange(i, i + pat.len() as int) == pat
}

/// Index of the last occurrence of `pat` in `text` that starts at or below `hi`.
pub open spec fn find_last_at(text: Seq<u8>, pat: Seq<u8>, hi: int) -> Option<int>
    decreases hi + 1,
{
    if hi < 0 {
        None
    } else if contains_at(text, pat, hi) {
        Some(hi)
    } else {
        find_last_at(text, pat, hi - 1)
    }
}

/// Index of the last occurrence of `pat` anywhere in `text`.
pub open spec fn find_last(text: Seq<u8>, pat: Seq<u8>) -> Option<int> {
    find_last_at(text, pat, text.len() - pat.len())
}

/// What `find_last_at` returns: the largest occurrence at or below `hi`,
/// or `None` when there is none.
pub proof fn lemma_find_last_at_props(text: Seq<u8>, pat: Seq<u8>, hi: int)
    ensures
        match find_last_at(text, pat, hi) {
            Some(i) => contains_at(text, pat, i) && i <= hi && forall|j: int|
                i < j <= hi ==> !contains_at(text, pat, j),
            None => forall|j: int| j <= hi ==> !contains_at(text, pat, j),
        },
    decreases hi + 1,
{
    if hi < 0 {
    } else if contains_at(text, pat, hi) {
    } else {
        lemma_find_last_at_props(text, pat, hi - 1);
    }
}

/// If `i` is an occurrence and nothing above it up to `hi` is, then
/// `find_last_at` returns exactly `i`.
pub proof fn lemma_find_last_at_some(text: Seq<u8>, pat: Seq<u8>, hi: int, i: int)
    requires
        contains_at(text, pat, i),
        i <= hi,
        forall|j: int| i < j <= hi ==> !contains_at(text, pat, j),
    ensures
        find_last_at(text, pat, hi) == Some(i),
    decreases hi + 1,
{
    if hi == i {
    } else {
        lemma_find_last_at_some(text, pat, hi - 1, i);
    }
}

/// `find_last` returns the largest occurrence of `pat` in `text`, if any.
pub proof fn lemma_find_last_props(text: Seq<u8>, pat: Seq<u8>)
    ensures
        match find_last(text, pat) {
            Some(i) => contains_at(text, pat, i) && forall|j: int|
                i < j ==> !contains_at(text, pat, j),
            None => forall|j: int| !contains_at(text, pat, j),
        },
{
    lemma_find_last_at_props(text, pat, text.len() - pat.len());
}

/// If `i` is an occurrence of `pat` and nothing above it is, `find_last`
/// returns exactly `i`.
pub proof fn lemma_find_last_some(text: Seq<u8>, pat: Seq<u8>, i: int)
    requires
        contains_at(text, pat, i),
        forall|j: int| i < j ==> !contains_at(text, pat, j),
    ensures
        find_last(text, pat) == Some(i),
{
    lemma_find_last_at_some(text, pat, text.len() - pat.len(), i);
}

/// Whether `pat` occurs in `text` starting exactly at index `i`.
fn matches_at(text: &Vec<u8>, pat: &Vec<u8>, i: usize) -> (r: bool)
    requires
        i + pat@.len() <= text@.len(),
    ensures
        r == contains_at(text@, pat@, i as int),
{
    let ghost sub = text@.subrange(i as int, i + pat@.len() as int);
    let pn = pat.len();
    let tn = text.len();
    let mut k: usize = 0;
    while k < pn
        invariant
            pn == pat@.len(),
            tn == text@.len(),
            i + pat@.len() <= text@.len(),
            k <= pat@.len(),
            sub == text@.subrange(i as int, i + pat@.len() as int),
            forall|m: int| 0 <= m < k ==> text@[i + m] == pat@[m],
        decreases pat@.len() - k,
    {
        if text[i + k] != pat[k] {
            proof {
                assert(sub[k as int] == text@[i + k]);
            }
            return false;
        }
        k = k + 1;
    }
    proof {
        assert(sub =~= pat@);
    }
    true
}

/// Index of the last occurrence of `pat` in `text`, scanning from the end.
pub fn rfind(text: &Vec<u8>, pat: &Vec<u8>) -> (r: Option<usize>)
    ensures
        match r {
            Some(i) => find_last(text@, pat@) == Some(i as int),
            None => find_last(text@, pat@) is None,
        },
{
    if pat.len() > text.len() {
        proof {
            lemma_find_last_props(text@, pat@);
        }
        return None;
    }
    if pat.len() == 0 {
        proof {
            assert(text@.subrange(text@.len() as int, text@.len() as int) =~= pat@);
            lemma_find_last_some(text@, pat@, text@.len() as int);
        }
        return Some(text.len());
    }
    let mut i: usize = text.len() - pat.len() + 1;
    while i > 0
        invariant
            pat@.len() <= text@.len(),
            i <= text@.len() - pat@.len() + 1,
            forall|j: int| i <= j ==> !contains_at(text@, pat@, j),
        decreases i,
    {
        i = i - 1;
        if matches_at(text, pat, i) {
            proof {
                lemma_find_last_some(text@, pat@, i as int);
            }
            return Some(i);
        }
    }
    proof {
        lemma_find_last_props(text@, pat@);
    }
    None
}

/// Copy of `v[a..b]` as a fresh vector.
pub fn subvec(v: &Vec<u8>, a: usize, b: usize) -> (r: Vec<u8>)
    requires
        a <= b <= v@.len(),
    ensures
        r@ == v@.subrange(a as int, b as int),
{
    let mut r: Vec<u8> = Vec::new();
    let mut k: usize = a;
    while k < b
        invariant
            a <= k <= b <= v@.len(),
            r@ == v@.subrange(a as int, k as int),
        decreases b - k,
    {
        r.push(v[k]);
        k = k + 1;
        proof {
            assert(v@.subrange(a as int, k as int) =~= v@.subrange(a as int, k - 1).push(
                v@[k - 1],
            ));
        }
    }
    r
}

} // verus!
