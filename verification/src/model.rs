//! The mathematical model of a vocabulary.
//!
//! A vocabulary is a sequence of symbol spans, indexed by token id: the span
//! at index `i` is the exact symbol sequence that token `i` stands for.
//! Encoding is specified here as greedy, left-to-right, longest-registered-
//! prefix segmentation; decoding as concatenation of the recorded spans.

use vstd::prelude::*;

verus! {

/// A vocabulary model: the element at index `i` is the symbol span that
/// token id `i` stands for.
pub type Vocab = Seq<Seq<u32>>;

/// The token id associated with span `s`: the most recent registration of
/// `s` wins. `None` when `s` was never registered.
pub open spec fn span_id(vocab: Vocab, s: Seq<u32>) -> Option<int>
    decreases vocab.len(),
{
    if vocab.len() == 0 {
        None
    } else if vocab.last() == s {
        Some(vocab.len() - 1)
    } else {
        span_id(vocab.drop_last(), s)
    }
}

/// A registered id points at exactly its span; an unregistered span occurs
/// nowhere in the vocabulary.
pub proof fn lemma_span_id(vocab: Vocab, s: Seq<u32>)
    ensures
        span_id(vocab, s) is Some ==> {
            let i = span_id(vocab, s).unwrap();
            0 <= i < vocab.len() && vocab[i] == s
        },
        span_id(vocab, s) is None ==> forall|i: int| 0 <= i < vocab.len() ==> vocab[i] != s,
    decreases vocab.len(),
{
    if vocab.len() > 0 && vocab.last() != s {
        lemma_span_id(vocab.drop_last(), s);
        assert forall|i: int| 0 <= i < vocab.len() && span_id(vocab, s) is None implies vocab[i]
            != s by {
            if i < vocab.len() - 1 {
                assert(vocab.drop_last()[i] == vocab[i]);
            }
        }
    }
}

/// A span is registered exactly when the vocabulary contains it.
pub proof fn lemma_span_id_contains(vocab: Vocab, s: Seq<u32>)
    ensures
        span_id(vocab, s) is Some <==> vocab.contains(s),
{
    lemma_span_id(vocab, s);
    if vocab.contains(s) && span_id(vocab, s) is None {
        let i = choose|i: int| 0 <= i < vocab.len() && vocab[i] == s;
        assert(vocab[i] == s);
    }
}

/// Registering one more span changes `span_id` only at that span.
pub proof fn lemma_span_id_push(vocab: Vocab, t: Seq<u32>, s: Seq<u32>)
    ensures
        span_id(vocab.push(t), s) == if s == t {
            Some(vocab.len() as int)
        } else {
            span_id(vocab, s)
        },
{
    assert(vocab.push(t).drop_last() =~= vocab);
    assert(vocab.push(t).last() == t);
}

/// The greatest length `l` with `1 <= l <= bound` such that the prefix
/// `input[from .. from + l]` is a registered span; `None` if there is none.
pub open spec fn best_len_upto(vocab: Vocab, input: Seq<u32>, from: int, bound: int) -> Option<
    int,
>
    decreases bound,
{
    if bound < 1 {
        None
    } else if span_id(vocab, input.subrange(from, from + bound)) is Some {
        Some(bound)
    } else {
        best_len_upto(vocab, input, from, bound - 1)
    }
}

/// What `best_len_upto` returns: the longest registered prefix length, with
/// every longer prefix (up to the bound) unregistered.
pub proof fn lemma_best_len_upto(vocab: Vocab, input: Seq<u32>, from: int, bound: int)
    ensures
        match best_len_upto(vocab, input, from, bound) {
            Some(l) => 1 <= l <= bound && span_id(vocab, input.subrange(from, from + l)) is Some
                && forall|k: int|
                l < k <= bound ==> #[trigger] span_id(vocab, input.subrange(from, from + k)) is None,
            None => forall|k: int|
                1 <= k <= bound ==> #[trigger] span_id(vocab, input.subrange(from, from + k)) is None,
        },
    decreases bound,
{
    if bound >= 1 {
        lemma_best_len_upto(vocab, input, from, bound - 1);
    }
}

/// One greedy step at `from`: the longest registered prefix of
/// `input[from..]`, as `(token id, consumed length)`.
pub open spec fn step_spec(vocab: Vocab, input: Seq<u32>, from: int) -> Option<(int, int)> {
    match best_len_upto(vocab, input, from, input.len() - from) {
        None => None,
        Some(l) => Some((span_id(vocab, input.subrange(from, from + l)).unwrap(), l)),
    }
}

/// Greedy left-to-right segmentation of `input[from..]` into token ids;
/// `None` when some position admits no registered prefix.
pub open spec fn encode_spec(vocab: Vocab, input: Seq<u32>, from: int) -> Option<Seq<int>>
    decreases input.len() - from,
        via encode_spec_decreases
{
    if from < 0 || from >= input.len() {
        Some(Seq::empty())
    } else {
        match step_spec(vocab, input, from) {
            None => None,
            Some(step) => match encode_spec(vocab, input, from + step.1) {
                None => None,
                Some(rest) => Some(seq![step.0] + rest),
            },
        }
    }
}

#[via_fn]
proof fn encode_spec_decreases(vocab: Vocab, input: Seq<u32>, from: int) {
    if 0 <= from < input.len() {
        lemma_best_len_upto(vocab, input, from, input.len() - from);
    }
}

/// Concatenation of the spans recorded for each id; `None` on an id outside
/// the table.
pub open spec fn decode_spec(vocab: Vocab, ids: Seq<int>) -> Option<Seq<u32>>
    decreases ids.len(),
{
    if ids.len() == 0 {
        Some(Seq::empty())
    } else if 0 <= ids.first() < vocab.len() {
        match decode_spec(vocab, ids.drop_first()) {
            None => None,
            Some(rest) => Some(vocab[ids.first()] + rest),
        }
    } else {
        None
    }
}

/// The ids of an executable token buffer, as unbounded integers.
pub open spec fn ids_view(ids: Seq<usize>) -> Seq<int> {
    ids.map_values(|i: usize| i as int)
}

/// The distinct symbols of `s`, in first-occurrence order.
pub open spec fn dedup_spec(s: Seq<u32>) -> Seq<u32>
    decreases s.len(),
{
    if s.len() == 0 {
        Seq::empty()
    } else {
        let rest = dedup_spec(s.drop_last());
        if s.drop_last().contains(s.last()) {
            rest
        } else {
            rest.push(s.last())
        }
    }
}

/// Deduplication keeps exactly the symbols of the input, each once.
pub proof fn lemma_dedup_spec(s: Seq<u32>)
    ensures
        forall|c: u32| s.contains(c) <==> dedup_spec(s).contains(c),
        forall|i: int, j: int|
            0 <= i < j < dedup_spec(s).len() ==> dedup_spec(s)[i] != dedup_spec(s)[j],
    decreases s.len(),
{
    if s.len() > 0 {
        lemma_dedup_spec(s.drop_last());
        assert forall|c: u32| s.contains(c) implies dedup_spec(s).contains(c) by {
            let i = choose|i: int| 0 <= i < s.len() && s[i] == c;
            if i < s.len() - 1 {
                assert(s.drop_last()[i] == c);
                assert(s.drop_last().contains(c));
                let j = choose|j: int|
                    0 <= j < dedup_spec(s.drop_last()).len() && dedup_spec(s.drop_last())[j] == c;
                assert(dedup_spec(s)[j] == c);
            } else {
                if s.drop_last().contains(c) {
                    let j = choose|j: int|
                        0 <= j < dedup_spec(s.drop_last()).len() && dedup_spec(s.drop_last())[j]
                            == c;
                    assert(dedup_spec(s)[j] == c);
                } else {
                    assert(dedup_spec(s).last() == c);
                }
            }
        }
        assert forall|c: u32| dedup_spec(s).contains(c) implies s.contains(c) by {
            let j = choose|j: int| 0 <= j < dedup_spec(s).len() && dedup_spec(s)[j] == c;
            if j < dedup_spec(s.drop_last()).len() {
                assert(dedup_spec(s.drop_last())[j] == c);
                assert(dedup_spec(s.drop_last()).contains(c));
                assert(s.drop_last().contains(c));
                let i = choose|i: int| 0 <= i < s.drop_last().len() && s.drop_last()[i] == c;
                assert(s.drop_last()[i] == s[i]);
                assert(s[i] == c);
            } else {
                assert(dedup_spec(s).last() == c);
                assert(s.last() == c);
            }
        }
    }
}


/// The span at index `j` is the concatenation of two strictly earlier spans.
pub open spec fn span_composed_at(vocab: Vocab, j: int) -> bool {
    exists|x: int, y: int| 0 <= x < j && 0 <= y < j && vocab[j] == #[trigger] vocab[x].add(vocab[y])
}

/// Every span from position `from` on is the concatenation of two strictly
/// earlier spans of the vocabulary.
pub open spec fn spans_composed(vocab: Vocab, from: int) -> bool {
    forall|j: int| from <= j < vocab.len() ==> #[trigger] span_composed_at(vocab, j)
}

/// Pushing a span that concatenates two existing spans keeps the vocabulary
/// composed.
pub proof fn lemma_spans_composed_push(vocab: Vocab, span: Seq<u32>, from: int)
    requires
        spans_composed(vocab, from),
        exists|x: int, y: int|
            0 <= x < vocab.len() && 0 <= y < vocab.len() && span == #[trigger] vocab[x].add(
                vocab[y],
            ),
    ensures
        spans_composed(vocab.push(span), from),
{
    assert forall|j: int| from <= j < vocab.push(span).len() implies #[trigger] span_composed_at(
        vocab.push(span),
        j,
    ) by {
        if j < vocab.len() {
            assert(span_composed_at(vocab, j));
            let (x, y) = choose|x: int, y: int|
                0 <= x < j && 0 <= y < j && vocab[j] == #[trigger] vocab[x].add(vocab[y]);
            assert(vocab.push(span)[j] == vocab[j]);
            assert(vocab.push(span)[x] == vocab[x] && vocab.push(span)[y] == vocab[y]);
            assert(vocab.push(span)[j] == vocab.push(span)[x].add(vocab.push(span)[y]));
        } else {
            let (x, y) = choose|x: int, y: int|
                0 <= x < vocab.len() && 0 <= y < vocab.len() && span == #[trigger] vocab[x].add(
                    vocab[y],
                );
            assert(vocab.push(span)[j] == span);
            assert(vocab.push(span)[x] == vocab[x] && vocab.push(span)[y] == vocab[y]);
            assert(vocab.push(span)[j] == vocab.push(span)[x].add(vocab.push(span)[y]));
        }
    }
}


/// Number of adjacent occurrences of the id pair `(a, b)` in `ids`.
pub open spec fn pair_count_ids(ids: Seq<int>, a: int, b: int) -> nat
    decreases ids.len(),
{
    if ids.len() < 2 {
        0
    } else {
        let rest = pair_count_ids(ids.drop_last(), a, b);
        if ids[ids.len() - 2] == a && ids[ids.len() - 1] == b {
            rest + 1
        } else {
            rest
        }
    }
}

/// Appending one id adds exactly the pair it forms with the previous last.
pub proof fn lemma_pair_count_push(ids: Seq<int>, x: int, a: int, b: int)
    ensures
        pair_count_ids(ids.push(x), a, b) == pair_count_ids(ids, a, b) + (
        if ids.len() >= 1 && ids.last() == a && x == b {
            1nat
        } else {
            0nat
        }),
{
    assert(ids.push(x).drop_last() =~= ids);
}

/// A pair occurs at most once per id emitted.
pub proof fn lemma_pair_count_bound(ids: Seq<int>, a: int, b: int)
    ensures
        pair_count_ids(ids, a, b) <= ids.len(),
    decreases ids.len(),
{
    if ids.len() >= 2 {
        lemma_pair_count_bound(ids.drop_last(), a, b);
    }
}

/// Number of adjacent `(a, b)` segment pairs in the greedy segmentation of
/// `chunk`; zero when the chunk cannot be segmented.
pub open spec fn chunk_pair_count(vocab: Vocab, chunk: Seq<u32>, a: int, b: int) -> nat {
    match encode_spec(vocab, chunk, 0) {
        Some(ids) => pair_count_ids(ids, a, b),
        None => 0,
    }
}

/// Total count of the adjacent pair `(a, b)` over all chunks.
pub open spec fn chunks_pair_count(vocab: Vocab, chunks: Seq<Seq<u32>>, a: int, b: int) -> nat
    decreases chunks.len(),
{
    if chunks.len() == 0 {
        0
    } else {
        chunks_pair_count(vocab, chunks.drop_last(), a, b) + chunk_pair_count(
            vocab,
            chunks.last(),
            a,
            b,
        )
    }
}

/// A greedy segmentation emits at most one id per input symbol.
pub proof fn lemma_encode_len(vocab: Vocab, input: Seq<u32>, from: int)
    requires
        0 <= from <= input.len(),
    ensures
        encode_spec(vocab, input, from) matches Some(ids) ==> ids.len() <= input.len() - from,
    decreases input.len() - from,
{
    if 0 <= from < input.len() {
        match step_spec(vocab, input, from) {
            None => {}
            Some(step) => {
                lemma_best_len_upto(vocab, input, from, input.len() - from);
                lemma_encode_len(vocab, input, from + step.1);
            }
        }
    }
}

/// The total symbol count of a chunk list.
pub open spec fn total_chunk_len(chunks: Seq<Seq<u32>>) -> nat
    decreases chunks.len(),
{
    if chunks.len() == 0 {
        0
    } else {
        total_chunk_len(chunks.drop_last()) + chunks.last().len()
    }
}

/// Pair counts are bounded by the total symbol count.
pub proof fn lemma_chunks_pair_count_bound(vocab: Vocab, chunks: Seq<Seq<u32>>, a: int, b: int)
    ensures
        chunks_pair_count(vocab, chunks, a, b) <= total_chunk_len(chunks),
    decreases chunks.len(),
{
    if chunks.len() > 0 {
        lemma_chunks_pair_count_bound(vocab, chunks.drop_last(), a, b);
        let c = chunks.last();
        match encode_spec(vocab, c, 0) {
            Some(ids) => {
                lemma_pair_count_bound(ids, a, b);
                lemma_encode_len(vocab, c, 0);
            }
            None => {}
        }
    }
}

/// A prefix of the chunk list never has more symbols than the whole list.
pub proof fn lemma_total_chunk_len_take(chunks: Seq<Seq<u32>>, n: int)
    requires
        0 <= n <= chunks.len(),
    ensures
        total_chunk_len(chunks.take(n)) <= total_chunk_len(chunks),
    decreases chunks.len() - n,
{
    if n < chunks.len() {
        lemma_total_chunk_len_take(chunks, n + 1);
        assert(chunks.take(n + 1).drop_last() =~= chunks.take(n));
        assert(chunks.take(n + 1).last() == chunks[n]);
    } else {
        assert(chunks.take(n) =~= chunks);
    }
}

/// Counting one more chunk adds exactly that chunk's pair counts.
pub proof fn lemma_chunks_pair_count_take(
    vocab: Vocab,
    chunks: Seq<Seq<u32>>,
    n: int,
    a: int,
    b: int,
)
    requires
        0 <= n < chunks.len(),
    ensures
        chunks_pair_count(vocab, chunks.take(n + 1), a, b) == chunks_pair_count(
            vocab,
            chunks.take(n),
            a,
            b,
        ) + chunk_pair_count(vocab, chunks[n], a, b),
{
    assert(chunks.take(n + 1).drop_last() =~= chunks.take(n));
    assert(chunks.take(n + 1).last() == chunks[n]);
}

/// `(a, b)` is a merge candidate: both ids exist, the pair occurs in some
/// chunk's segmentation, and its concatenated span is not yet registered.
pub open spec fn is_candidate(vocab: Vocab, chunks: Seq<Seq<u32>>, a: int, b: int) -> bool {
    &&& 0 <= a < vocab.len()
    &&& 0 <= b < vocab.len()
    &&& chunks_pair_count(vocab, chunks, a, b) >= 1
    &&& span_id(vocab, vocab[a].add(vocab[b])) is None
}

/// Strict preference between counted pairs: higher count first, then the
/// smaller left id, then the smaller right id. A total order on distinct
/// pairs, so merge winners are unique.
pub open spec fn pair_better(c1: nat, a1: int, b1: int, c2: nat, a2: int, b2: int) -> bool {
    c1 > c2 || (c1 == c2 && (a1 < a2 || (a1 == a2 && b1 < b2)))
}

/// `(a, b)` is the merge winner: a candidate that no other candidate beats.
pub open spec fn is_winner(vocab: Vocab, chunks: Seq<Seq<u32>>, a: int, b: int) -> bool {
    &&& is_candidate(vocab, chunks, a, b)
    &&& forall|a2: int, b2: int|
        #[trigger] is_candidate(vocab, chunks, a2, b2) ==> (a2 == a && b2 == b) || pair_better(
            chunks_pair_count(vocab, chunks, a, b),
            a,
            b,
            chunks_pair_count(vocab, chunks, a2, b2),
            a2,
            b2,
        )
}

/// At most one pair wins a round.
pub proof fn lemma_winner_unique(
    vocab: Vocab,
    chunks: Seq<Seq<u32>>,
    a1: int,
    b1: int,
    a2: int,
    b2: int,
)
    requires
        is_winner(vocab, chunks, a1, b1),
        is_winner(vocab, chunks, a2, b2),
    ensures
        a1 == a2 && b1 == b2,
{
    if a1 != a2 || b1 != b2 {
        assert(is_candidate(vocab, chunks, a1, b1));
        assert(is_candidate(vocab, chunks, a2, b2));
    }
}

/// The span at index `j` was the merge winner for the vocabulary formed by
/// the first `j` tokens.
pub open spec fn round_won(vocab: Vocab, chunks: Seq<Seq<u32>>, j: int) -> bool {
    exists|a: int, b: int|
        #[trigger] is_winner(vocab.take(j), chunks, a, b) && vocab[j] == vocab.take(j)[a].add(
            vocab.take(j)[b],
        )
}

/// The chunk list as plain symbol sequences.
pub open spec fn chunks_view(cs: Seq<Vec<u32>>) -> Seq<Seq<u32>> {
    cs.map_values(|c: Vec<u32>| c@)
}

/// One single-symbol span per alphabet symbol.
pub open spec fn singleton_spans(alphabet: Seq<u32>) -> Vocab {
    alphabet.map_values(|c: u32| seq![c])
}

/// Pairwise distinct spans: no token repeats another token's span.
pub open spec fn spans_distinct(vocab: Vocab) -> bool {
    forall|i: int, j: int| 0 <= i < j < vocab.len() ==> vocab[i] != vocab[j]
}

} // verus!
