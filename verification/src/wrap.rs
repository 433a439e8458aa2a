use vstd::prelude::*;
use crate::search::subvec;

verus! {

/// Column width of the wrapped base-64 payload, as in MIME base-64.
pub const WRAP_COLS: usize = 76;

/// A line-separator byte: newline or carriage return.
pub open spec fn is_eol(b: u8) -> bool {
    b == 10 || b == 13
}

/// The text cut into newline-terminated lines of 76 bytes; the final
/// line holds the remainder.
pub open spec fn wrap_spec(s: Seq<u8>) -> Seq<u8>
    decreases s.len(),
{
    if s.len() < 76 {
        s.push(10)
    } else {
        s.take(76).push(10) + wrap_spec(s.skip(76))
    }
}

/// The text with all newline and carriage-return bytes removed.
pub open spec fn strip_eol(s: Seq<u8>) -> Seq<u8>
    decreases s.len(),
{
    if s.len() == 0 {
        s
    } else if is_eol(s.last()) {
        strip_eol(s.drop_last())
    } else {
        strip_eol(s.drop_last()).push(s.last())
    }
}

/// Removing line separators distributes over concatenation.
pub proof fn lemma_strip_eol_concat(a: Seq<u8>, b: Seq<u8>)
    ensures
        strip_eol(a + b) == strip_eol(a) + strip_eol(b),
    decreases b.len(),
{
    if b.len() == 0 {
        assert(a + b =~= a);
        assert(strip_eol(a) + strip_eol(b) =~= strip_eol(a));
    } else {
        lemma_strip_eol_concat(a, b.drop_last());
        assert((a + b).drop_last() =~= a + b.drop_last());
        assert((a + b).last() == b.last());
        if !is_eol(b.last()) {
            assert(strip_eol(a) + strip_eol(b.drop_last()).push(b.last()) =~= (strip_eol(a)
                + strip_eol(b.drop_last())).push(b.last()));
        }
    }
}

/// A text with no line separators is unchanged by `strip_eol`.
pub proof fn lemma_strip_eol_id(s: Seq<u8>)
    requires
        forall|i: int| 0 <= i < s.len() ==> !is_eol(s[i]),
    ensures
        strip_eol(s) == s,
    decreases s.len(),
{
    if s.len() > 0 {
        assert(forall|i: int| 0 <= i < s.drop_last().len() ==> s.drop_last()[i] == s[i]);
        lemma_strip_eol_id(s.drop_last());
        assert(strip_eol(s.drop_last()).push(s.last()) =~= s);
    }
}

/// Stripping line separators undoes the line wrap exactly.
pub proof fn lemma_strip_wrap(s: Seq<u8>)
    requires
        forall|i: int| 0 <= i < s.len() ==> !is_eol(s[i]),
    ensures
        strip_eol(wrap_spec(s)) == s,
    decreases s.len(),
{
    if s.len() < 76 {
        assert(s.push(10).last() == 10);
        assert(s.push(10).drop_last() =~= s);
        lemma_strip_eol_id(s);
    } else {
        let head = s.take(76).push(10);
        let tail = s.skip(76);
        assert(forall|i: int| 0 <= i < s.take(76).len() ==> s.take(76)[i] == s[i]);
        assert(forall|i: int| 0 <= i < tail.len() ==> tail[i] == s[i + 76]);
        lemma_strip_wrap(tail);
        lemma_strip_eol_concat(head, wrap_spec(tail));
        assert(head.drop_last() =~= s.take(76));
        lemma_strip_eol_id(s.take(76));
        assert(strip_eol(wrap_spec(s)) =~= s.take(76) + tail);
        assert(s.take(76) + s.skip(76) =~= s);
    }
}

/// Every byte of the wrapped text satisfies `pred` if every byte of the
/// input and the newline byte do.
pub proof fn lemma_wrap_preserves(s: Seq<u8>, pred: spec_fn(u8) -> bool)
    requires
        forall|i: int| 0 <= i < s.len() ==> pred(s[i]),
        pred(10),
    ensures
        forall|i: int| 0 <= i < wrap_spec(s).len() ==> pred(wrap_spec(s)[i]),
    decreases s.len(),
{
    if s.len() < 76 {
    } else {
        let tail = s.skip(76);
        assert(forall|i: int| 0 <= i < tail.len() ==> tail[i] == s[i + 76]);
        lemma_wrap_preserves(tail, pred);
        assert forall|i: int| 0 <= i < wrap_spec(s).len() implies pred(wrap_spec(s)[i]) by {
            let head = s.take(76).push(10);
            if i < head.len() {
                assert(wrap_spec(s)[i] == head[i]);
            } else {
                assert(wrap_spec(s)[i] == wrap_spec(tail)[i - head.len()]);
            }
        }
    }
}

/// The text split at newline bytes; a trailing newline yields a trailing
/// empty line.
pub open spec fn split_lines(s: Seq<u8>) -> Seq<Seq<u8>>
    decreases s.len(),
{
    if s.len() == 0 {
        seq![Seq::empty()]
    } else {
        let rest = split_lines(s.drop_first());
        if s.first() == 10 {
            seq![Seq::<u8>::empty()] + rest
        } else {
            seq![seq![s.first()] + rest.first()] + rest.drop_first()
        }
    }
}

/// A split always yields at least one line.
pub proof fn lemma_split_lines_nonempty(s: Seq<u8>)
    ensures
        split_lines(s).len() >= 1,
    decreases s.len(),
{
    if s.len() > 0 {
        lemma_split_lines_nonempty(s.drop_first());
    }
}

/// Splitting `a + newline + b` when `a` holds no newline gives the line
/// `a` followed by the lines of `b`.
pub proof fn lemma_split_lines_concat(a: Seq<u8>, b: Seq<u8>)
    requires
        forall|i: int| 0 <= i < a.len() ==> a[i] != 10,
    ensures
        split_lines(a + seq![10u8] + b) == seq![a] + split_lines(b),
    decreases a.len(),
{
    lemma_split_lines_nonempty(b);
    let s = a + seq![10u8] + b;
    if a.len() == 0 {
        assert(s.first() == 10);
        assert(s.drop_first() =~= b);
        assert(a =~= Seq::<u8>::empty());
        assert(seq![Seq::<u8>::empty()] + split_lines(b) =~~= seq![a] + split_lines(b));
    } else {
        let a2 = a.drop_first();
        assert(forall|i: int| 0 <= i < a2.len() ==> a2[i] == a[i + 1]);
        lemma_split_lines_concat(a2, b);
        assert(s.first() == a.first());
        assert(s.first() != 10);
        assert(s.drop_first() =~= a2 + seq![10u8] + b);
        let rest = split_lines(s.drop_first());
        assert(rest == seq![a2] + split_lines(b));
        lemma_split_lines_nonempty(s.drop_first());
        assert(rest.first() == a2);
        assert(rest.drop_first() =~= split_lines(b));
        assert(seq![a.first()] + a2 =~= a);
        assert(split_lines(s) =~= seq![a] + split_lines(b));
    }
}

/// The lines the wrapper produces: full 76-byte chunks and the remainder.
pub open spec fn chunk_lines(s: Seq<u8>) -> Seq<Seq<u8>>
    decreases s.len(),
{
    if s.len() < 76 {
        seq![s]
    } else {
        seq![s.take(76)] + chunk_lines(s.skip(76))
    }
}

/// Splitting the wrapped text yields exactly the 76-byte chunks, plus the
/// empty line after the final newline.
pub proof fn lemma_split_wrap(s: Seq<u8>)
    requires
        forall|i: int| 0 <= i < s.len() ==> s[i] != 10,
    ensures
        split_lines(wrap_spec(s)) == chunk_lines(s) + seq![Seq::<u8>::empty()],
    decreases s.len(),
{
    if s.len() < 76 {
        assert(wrap_spec(s) =~= s + seq![10u8] + Seq::<u8>::empty());
        lemma_split_lines_concat(s, Seq::empty());
        assert(split_lines(Seq::<u8>::empty()) == seq![Seq::<u8>::empty()]);
        assert(chunk_lines(s) + seq![Seq::<u8>::empty()] =~= seq![s] + seq![Seq::<
            u8,
        >::empty()]);
    } else {
        let head = s.take(76);
        let tail = s.skip(76);
        assert(forall|i: int| 0 <= i < head.len() ==> head[i] == s[i]);
        assert(forall|i: int| 0 <= i < tail.len() ==> tail[i] == s[i + 76]);
        lemma_split_wrap(tail);
        assert(wrap_spec(s) =~= head + seq![10u8] + wrap_spec(tail));
        lemma_split_lines_concat(head, wrap_spec(tail));
        assert(seq![head] + (chunk_lines(tail) + seq![Seq::<u8>::empty()]) =~= (seq![head]
            + chunk_lines(tail)) + seq![Seq::<u8>::empty()]);
    }
}

/// Line-wrap law: every line of the wrapped payload is exactly 76 bytes,
/// except the remainder line, which is followed only by the empty line
/// that the final newline produces.
pub proof fn lemma_wrap_line_lengths(s: Seq<u8>)
    requires
        forall|i: int| 0 <= i < s.len() ==> s[i] != 10,
    ensures
        ({
            let lines = split_lines(wrap_spec(s));
            &&& lines.len() == s.len() / 76 + 2
            &&& forall|i: int| 0 <= i < lines.len() - 2 ==> #[trigger] lines[i].len() == 76
            &&& lines[lines.len() - 2].len() == s.len() % 76
            &&& lines[lines.len() - 1].len() == 0
        }),
    decreases s.len(),
{
    lemma_split_wrap(s);
    lemma_chunk_line_lengths(s);
}

/// Chunking law: all chunks are 76 bytes long except the final remainder.
pub proof fn lemma_chunk_line_lengths(s: Seq<u8>)
    ensures
        ({
            let chunks = chunk_lines(s);
            &&& chunks.len() == s.len() / 76 + 1
            &&& forall|i: int| 0 <= i < chunks.len() - 1 ==> #[trigger] chunks[i].len() == 76
            &&& chunks[chunks.len() - 1].len() == s.len() % 76
        }),
    decreases s.len(),
{
    if s.len() < 76 {
    } else {
        let tail = s.skip(76);
        lemma_chunk_line_lengths(tail);
        let chunks = chunk_lines(s);
        assert forall|i: int| 0 <= i < chunks.len() - 1 implies #[trigger] chunks[i].len()
            == 76 by {
            if i > 0 {
                assert(chunks[i] == chunk_lines(tail)[i - 1]);
            }
        }
    }
}

/// Wrap the base-64 text into newline-terminated lines of 76 bytes; the
/// final line holds the remainder.
pub fn wrap_long_line(txt: &Vec<u8>) -> (r: Vec<u8>)
    ensures
        r@ == wrap_spec(txt@),
{
    let n = txt.len();
    let mut r: Vec<u8> = Vec::new();
    let mut i: usize = 0;
    proof {
        assert(txt@.skip(0) =~= txt@);
        assert(r@ + wrap_spec(txt@.skip(0)) =~= wrap_spec(txt@));
    }
    while n - i >= WRAP_COLS
        invariant
            i <= n,
            n == txt@.len(),
            wrap_spec(txt@) == r@ + wrap_spec(txt@.skip(i as int)),
        decreases n - i,
    {
        let ghost pending = txt@.skip(i as int);
        let mut chunk = subvec(txt, i, i + WRAP_COLS);
        r.append(&mut chunk);
        r.push(10);
        proof {
            assert(pending.take(76) =~= txt@.subrange(i as int, i + 76));
            assert(pending.skip(76) =~= txt@.skip(i + 76));
            assert(wrap_spec(pending) == pending.take(76).push(10) + wrap_spec(
                pending.skip(76),
            ));
            assert(r@ =~= (r@ + wrap_spec(txt@.skip(i + 76))).take(r@.len() as int));
            assert(r@ + wrap_spec(txt@.skip(i + 76)) =~= wrap_spec(txt@));
        }
        i = i + WRAP_COLS;
    }
    let ghost pending = txt@.skip(i as int);
    let mut chunk = subvec(txt, i, n);
    r.append(&mut chunk);
    r.push(10);
    proof {
        assert(pending =~= txt@.subrange(i as int, n as int));
        assert(wrap_spec(pending) == pending.push(10));
        assert(r@ =~= wrap_spec(txt@));
    }
    r
}

/// Remove every newline and carriage-return byte from the text.
pub fn strip_newlines(txt: &Vec<u8>) -> (r: Vec<u8>)
    ensures
        r@ == strip_eol(txt@),
{
    let n = txt.len();
    let mut r: Vec<u8> = Vec::new();
    let mut i: usize = 0;
    while i < n
        invariant
            i <= n,
            n == txt@.len(),
            r@ == strip_eol(txt@.take(i as int)),
        decreases n - i,
    {
        let b = txt[i];
        if b != 10 && b != 13 {
            r.push(b);
        }
        i = i + 1;
        proof {
            assert(txt@.take(i as int).drop_last() =~= txt@.take(i - 1));
            assert(txt@.take(i as int).last() == txt@[i - 1]);
        }
    }
    proof {
        assert(txt@.take(n as int) =~= txt@);
    }
    r
}

} // verus!
