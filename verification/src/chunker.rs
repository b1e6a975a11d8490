//! Splitting extracted text into bounded, order-preserving chunks.
//!
//! A chunk is a group of at most `max_words` consecutive words of the
//! input, joined by single spaces.  Chunking is a pure function of the
//! input text and the bound, so it is deterministic across runs.

use vstd::prelude::*;

verus! {

/// ASCII whitespace, the word separator for chunking.
pub open spec fn is_space(b: u8) -> bool {
    b == 32 || b == 9 || b == 10 || b == 13
}

/// The words of `s`: maximal runs of non-whitespace bytes, in order.
pub open spec fn spec_words(s: Seq<u8>) -> Seq<Seq<u8>>
    decreases s.len(),
{
    if s.len() == 0 {
        Seq::empty()
    } else {
        let rest = spec_words(s.drop_last());
        let b = s.last();
        if is_space(b) {
            rest
        } else if s.len() >= 2 && !is_space(s[s.len() - 2]) {
            rest.update(rest.len() - 1, rest.last().push(b))
        } else {
            rest.push(seq![b])
        }
    }
}

/// The words of a group joined by single spaces.
pub open spec fn spec_join(ws: Seq<Seq<u8>>) -> Seq<u8>
    decreases ws.len(),
{
    if ws.len() == 0 {
        Seq::empty()
    } else if ws.len() == 1 {
        ws[0]
    } else {
        spec_join(ws.drop_last()) + seq![32u8] + ws.last()
    }
}

/// The chunk texts for a word sequence: consecutive groups of at most
/// `m` words, each joined by single spaces.
pub open spec fn spec_chunk_texts(ws: Seq<Seq<u8>>, m: int) -> Seq<Seq<u8>>
    decreases ws.len(),
{
    if m <= 0 || ws.len() == 0 {
        Seq::empty()
    } else if ws.len() <= m {
        seq![spec_join(ws)]
    } else {
        seq![spec_join(ws.take(m))] + spec_chunk_texts(ws.skip(m), m)
    }
}

/// The chunk texts of `s` under word bound `m`.
pub open spec fn spec_chunks(s: Seq<u8>, m: int) -> Seq<Seq<u8>> {
    spec_chunk_texts(spec_words(s), m)
}

/// If the last byte of `s` is not whitespace, `s` has at least one word.
proof fn lemma_words_nonempty(s: Seq<u8>)
    requires
        s.len() > 0,
        !is_space(s.last()),
    ensures
        spec_words(s).len() > 0,
    decreases s.len(),
{
    if s.len() >= 2 && !is_space(s[s.len() - 2]) {
        lemma_words_nonempty(s.drop_last());
    }
}

/// Chunking is deterministic and idempotent across runs: the chunk
/// sequence is a function of the text and the word bound alone, so any
/// two results of chunking the same input under the same bound are
/// equal.
pub proof fn lemma_chunk_deterministic(
    text: Seq<u8>,
    max_words: int,
    r1: Seq<Seq<u8>>,
    r2: Seq<Seq<u8>>,
)
    requires
        r1 == spec_chunks(text, max_words),
        r2 == spec_chunks(text, max_words),
    ensures
        r1 == r2,
{
}

/// Empty input yields no chunks.
pub proof fn lemma_chunk_empty(max_words: int)
    ensures
        spec_chunks(Seq::empty(), max_words) == Seq::<Seq<u8>>::empty(),
{
    assert(spec_words(Seq::empty()) =~= Seq::<Seq<u8>>::empty());
}

fn is_space_byte(b: u8) -> (r: bool)
    ensures
        r == is_space(b),
{
    b == 32 || b == 9 || b == 10 || b == 13
}

/// Splits `text` into its words, in order.
pub fn split_words(text: &[u8]) -> (r: Vec<Vec<u8>>)
    ensures
        r.deep_view() == spec_words(text@),
{
    let n = text.len();
    let mut out: Vec<Vec<u8>> = Vec::new();
    let mut i: usize = 0;
    while i < n
        invariant
            i <= n,
            n == text@.len(),
            out.deep_view() == spec_words(text@.take(i as int)),
        decreases n - i,
    {
        let b = text[i];
        proof {
            assert(text@.take(i + 1).drop_last() =~= text@.take(i as int));
            assert(text@.take(i + 1).last() == text@[i as int]);
        }
        if !is_space_byte(b) {
            if i == 0 || is_space_byte(text[i - 1]) {
                let mut w: Vec<u8> = Vec::new();
                w.push(b);
                out.push(w);
                proof {
                    assert(out.deep_view() =~~= spec_words(text@.take(i + 1)));
                }
            } else {
                proof {
                    assert(text@.take(i as int).last() == text@[i - 1]);
                    lemma_words_nonempty(text@.take(i as int));
                }
                let mut w = match out.pop() {
                    Some(w) => w,
                    None => Vec::new(),
                };
                w.push(b);
                out.push(w);
                proof {
                    let rest = spec_words(text@.take(i as int));
                    assert(out.deep_view() =~~= rest.update(
                        rest.len() - 1,
                        rest.last().push(b),
                    ));
                }
            }
        } else {
            proof {
                assert(out.deep_view() =~~= spec_words(text@.take(i + 1)));
            }
        }
        i = i + 1;
    }
    proof {
        assert(text@.take(n as int) =~= text@);
    }
    out
}

/// Appends the bytes of `w` to `t`.
fn push_bytes(t: &mut Vec<u8>, w: &Vec<u8>)
    ensures
        final(t)@ == old(t)@ + w@,
{
    let mut k: usize = 0;
    while k < w.len()
        invariant
            k <= w.len(),
            t@ == old(t)@ + w@.take(k as int),
        decreases w.len() - k,
    {
        t.push(w[k]);
        proof {
            assert(old(t)@ + w@.take(k as int) + seq![w@[k as int]] =~= old(t)@ + w@.take(
                k + 1,
            ));
        }
        k = k + 1;
    }
    proof {
        assert(old(t)@ + w@.take(w@.len() as int) =~= old(t)@ + w@);
    }
}

/// Splits `text` on whitespace and groups the words into chunks of at
/// most `max_words` words each, preserving order; a chunk's text is its
/// words joined by single spaces.  Empty or all-whitespace input yields
/// no chunks.  The result is a pure function of `(text, max_words)`.
pub fn chunk(text: &[u8], max_words: usize) -> (r: Vec<Vec<u8>>)
    requires
        max_words >= 1,
    ensures
        r.deep_view() == spec_chunks(text@, max_words as int),
{
    let words = split_words(text);
    let ghost ws = words.deep_view();
    let n = words.len();
    let mut out: Vec<Vec<u8>> = Vec::new();
    let mut a: usize = 0;
    proof {
        assert(ws.skip(0) =~= ws);
    }
    while a < n
        invariant
            a <= n,
            n == words@.len(),
            max_words >= 1,
            ws == words.deep_view(),
            ws.len() == n,
            spec_chunks(text@, max_words as int) == out.deep_view() + spec_chunk_texts(
                ws.skip(a as int),
                max_words as int,
            ),
        decreases n - a,
    {
        let end = if n - a < max_words {
            n
        } else {
            a + max_words
        };
        let mut t: Vec<u8> = Vec::new();
        let mut j: usize = a;
        while j < end
            invariant
                a <= j <= end <= n,
                n == words@.len(),
                ws == words.deep_view(),
                ws.len() == n,
                j > a ==> t@ == spec_join(ws.subrange(a as int, j as int)),
                j == a ==> t@ == Seq::<u8>::empty(),
            decreases end - j,
        {
            if j > a {
                t.push(32);
            }
            push_bytes(&mut t, &words[j]);
            proof {
                let sub1 = ws.subrange(a as int, j + 1);
                assert(sub1.drop_last() =~= ws.subrange(a as int, j as int));
                assert(words@[j as int]@ == ws[j as int]);
                if j == a {
                    assert(t@ =~= spec_join(sub1));
                } else {
                    assert(t@ =~= spec_join(sub1.drop_last()) + seq![32u8] + sub1.last());
                }
            }
            j = j + 1;
        }
        let ghost out_pre = out.deep_view();
        let ghost m = max_words as int;
        let ghost rest_texts = spec_chunk_texts(ws.skip(end as int), m);
        out.push(t);
        proof {
            let tail = ws.skip(a as int);
            assert(tail.len() == n - a);
            if end == n {
                assert(tail =~= ws.subrange(a as int, end as int));
                assert(ws.skip(end as int).len() == 0);
                assert(spec_chunk_texts(tail, m) =~= seq![spec_join(tail)] + rest_texts);
            } else {
                assert(tail.take(m) =~= ws.subrange(a as int, end as int));
                assert(tail.skip(m) =~= ws.skip(end as int));
                assert(spec_chunk_texts(tail, m) == seq![spec_join(tail.take(m))]
                    + rest_texts);
            }
            assert(out.deep_view() =~~= out_pre.push(t@));
            assert(out_pre + (seq![t@] + rest_texts) =~= out_pre.push(t@) + rest_texts);
        }
        a = end;
    }
    proof {
        assert(ws.skip(n as int).len() == 0);
        assert(out.deep_view() + spec_chunk_texts(ws.skip(n as int), max_words as int)
            =~= out.deep_view());
    }
    out
}

} // verus!
