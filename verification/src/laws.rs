//! Laws of the encoder/decoder pair, stated over the vocabulary model.

use vstd::prelude::*;

use crate::model::{
    best_len_upto, decode_spec, encode_spec, is_winner, lemma_best_len_upto, lemma_span_id,
    lemma_winner_unique, round_won, span_id, Vocab,
};

verus! {

/// Round trip from an arbitrary start position: encoding succeeds and
/// decoding the ids returns exactly the encoded suffix.
proof fn lemma_round_trip_from(vocab: Vocab, x: Seq<u32>, from: int)
    requires
        0 <= from <= x.len(),
        forall|i: int| 0 <= i < x.len() ==> #[trigger] span_id(vocab, seq![x[i]]) is Some,
    ensures
        encode_spec(vocab, x, from) is Some,
        decode_spec(vocab, encode_spec(vocab, x, from).unwrap()) == Some(
            x.subrange(from, x.len() as int),
        ),
    decreases x.len() - from,
{
    if from >= x.len() {
        assert(encode_spec(vocab, x, from) == Some(Seq::<int>::empty()));
        assert(x.subrange(from, x.len() as int) =~= Seq::<u32>::empty());
    } else {
        let bound = x.len() - from;
        lemma_best_len_upto(vocab, x, from, bound);
        assert(x.subrange(from, from + 1) =~= seq![x[from]]);
        match best_len_upto(vocab, x, from, bound) {
            None => {
                assert(span_id(vocab, x.subrange(from, from + 1)) is None);
                assert(span_id(vocab, seq![x[from]]) is Some);
                assert(false);
            }
            Some(l) => {
                let sub = x.subrange(from, from + l);
                let id = span_id(vocab, sub).unwrap();
                lemma_span_id(vocab, sub);
                assert(0 <= id < vocab.len() && vocab[id] == sub);
                lemma_round_trip_from(vocab, x, from + l);
                let rest = encode_spec(vocab, x, from + l).unwrap();
                let ids = seq![id] + rest;
                assert(encode_spec(vocab, x, from) == Some(ids));
                assert(ids.len() == 1 + rest.len());
                assert(ids.first() == id);
                assert(ids.drop_first() =~= rest);
                let tail = decode_spec(vocab, rest).unwrap();
                assert(decode_spec(vocab, ids) == Some(vocab[id] + tail));
                assert(sub + x.subrange(from + l, x.len() as int) =~= x.subrange(
                    from,
                    x.len() as int,
                ));
            }
        }
    }
}

/// Round trip: for every symbol sequence composed solely of symbols that are
/// registered as single-symbol tokens, encoding succeeds and decoding the
/// encoding returns the input unchanged.
pub proof fn lemma_round_trip(vocab: Vocab, x: Seq<u32>)
    requires
        forall|i: int| 0 <= i < x.len() ==> #[trigger] span_id(vocab, seq![x[i]]) is Some,
    ensures
        encode_spec(vocab, x, 0) is Some,
        decode_spec(vocab, encode_spec(vocab, x, 0).unwrap()) == Some(x),
{
    lemma_round_trip_from(vocab, x, 0);
    assert(x.subrange(0, x.len() as int) =~= x);
}

/// Round trip through a built vocabulary: a successful build registers every
/// corpus symbol as a singleton token, so any text drawn from the corpus's
/// symbols encodes successfully and decodes back to itself.
pub proof fn lemma_build_round_trip(vocab: Vocab, corpus: Seq<u32>, x: Seq<u32>)
    requires
        forall|i: int| 0 <= i < corpus.len() ==> #[trigger] span_id(vocab, seq![corpus[i]]) is Some,
        forall|i: int| 0 <= i < x.len() ==> corpus.contains(#[trigger] x[i]),
    ensures
        encode_spec(vocab, x, 0) is Some,
        decode_spec(vocab, encode_spec(vocab, x, 0).unwrap()) == Some(x),
{
    assert forall|i: int| 0 <= i < x.len() implies #[trigger] span_id(vocab, seq![x[i]]) is Some by {
        let j = choose|j: int| 0 <= j < corpus.len() && corpus[j] == x[i];
        assert(span_id(vocab, seq![corpus[j]]) is Some);
    }
    lemma_round_trip(vocab, x);
}

/// Idempotent re-encode: encoding the decoded form of an encoding gives the
/// original encoding, `encode(decode(encode(x))) == encode(x)`.
pub proof fn lemma_reencode_idempotent(vocab: Vocab, x: Seq<u32>)
    requires
        forall|i: int| 0 <= i < x.len() ==> #[trigger] span_id(vocab, seq![x[i]]) is Some,
    ensures
        encode_spec(vocab, x, 0) is Some,
        decode_spec(vocab, encode_spec(vocab, x, 0).unwrap()) == Some(x),
        encode_spec(
            vocab,
            decode_spec(vocab, encode_spec(vocab, x, 0).unwrap()).unwrap(),
            0,
        ) == encode_spec(vocab, x, 0),
{
    lemma_round_trip(vocab, x);
}

/// Two vocabularies that agree on a base prefix and whose every later span
/// won its round over the same chunks agree on every prefix.
proof fn lemma_rounds_deterministic_prefix(
    v1: Vocab,
    v2: Vocab,
    chunks: Seq<Seq<u32>>,
    n: int,
    j: int,
)
    requires
        0 <= n <= j <= v1.len(),
        j <= v2.len(),
        v1.take(n) == v2.take(n),
        forall|i: int| n <= i < v1.len() ==> #[trigger] round_won(v1, chunks, i),
        forall|i: int| n <= i < v2.len() ==> #[trigger] round_won(v2, chunks, i),
    ensures
        v1.take(j) == v2.take(j),
    decreases j - n,
{
    if j > n {
        lemma_rounds_deterministic_prefix(v1, v2, chunks, n, j - 1);
        assert(round_won(v1, chunks, j - 1));
        assert(round_won(v2, chunks, j - 1));
        let (a1, b1) = choose|a1: int, b1: int|
            #[trigger] is_winner(v1.take(j - 1), chunks, a1, b1) && v1[j - 1] == v1.take(j - 1)[
            a1
        ].add(v1.take(j - 1)[b1]);
        let (a2, b2) = choose|a2: int, b2: int|
            #[trigger] is_winner(v2.take(j - 1), chunks, a2, b2) && v2[j - 1] == v2.take(j - 1)[
            a2
        ].add(v2.take(j - 1)[b2]);
        assert(v1.take(j - 1) == v2.take(j - 1));
        lemma_winner_unique(v1.take(j - 1), chunks, a1, b1, a2, b2);
        assert(v1[j - 1] == v2[j - 1]);
        assert(v1.take(j) =~= v1.take(j - 1).push(v1[j - 1]));
        assert(v2.take(j) =~= v2.take(j - 1).push(v2[j - 1]));
    }
}

/// Parallel/sequential equivalence: a vocabulary build is a pure function
/// of its inputs. Any two equal-sized vocabularies that start from the same
/// singleton alphabet and whose every merge won its round over the same
/// chunk list are identical — in particular, a sequential build over the
/// corpus and a parallel build over the corpus as its single chunk, since
/// both builders' contracts pin exactly these facts.
pub proof fn lemma_parallel_sequential_equivalence(
    v1: Vocab,
    v2: Vocab,
    chunks: Seq<Seq<u32>>,
    base: Vocab,
)
    requires
        v1.len() == v2.len(),
        base.len() <= v1.len(),
        v1.take(base.len() as int) == base,
        v2.take(base.len() as int) == base,
        forall|j: int| base.len() <= j < v1.len() ==> #[trigger] round_won(v1, chunks, j),
        forall|j: int| base.len() <= j < v2.len() ==> #[trigger] round_won(v2, chunks, j),
    ensures
        v1 == v2,
{
    lemma_rounds_deterministic_prefix(v1, v2, chunks, base.len() as int, v1.len() as int);
    assert(v1.take(v1.len() as int) =~= v1);
    assert(v2.take(v2.len() as int) =~= v2);
    assert(v1.take(v1.len() as int) == v2.take(v2.len() as int));
}

} // verus!
