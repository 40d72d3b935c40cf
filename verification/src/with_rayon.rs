//! The data-parallel vocabulary builder: the same merge loop as the
//! sequential builder, but the corpus comes pre-partitioned into chunks and
//! a base alphabet is supplied separately. Each round's frequency counting
//! runs per chunk in parallel (map phase); the local tables are then summed
//! (reduce phase) and the single winning merge is registered by the
//! coordinating thread (mutate phase). Workers hold only read access to the
//! shared tokenizer, so the phases never race.

use vstd::prelude::*;

use rayon::iter::{IntoParallelRefIterator, ParallelIterator};

use crate::builder::{
    chunks_covered, count_chunk_table, extract_alphabet, lemma_covered_push, merge_counts,
    register_alphabet, select_and_register, table_count, table_wf,
};
use crate::laws::lemma_round_trip;
use crate::model::{
    chunks_pair_count, chunks_view, dedup_spec, encode_spec, is_candidate,
    lemma_chunks_pair_count_bound, lemma_chunks_pair_count_take, lemma_dedup_spec,
    lemma_span_id_contains, lemma_total_chunk_len_take, round_won, singleton_spans, span_id,
    spans_composed, spans_distinct, total_chunk_len, Vocab,
};
use crate::tokenizer::Tokenizer;
use crate::TokenizerError;

verus! {

/// Relies on rayon's `par_iter().map(..).collect()` over a vector: the
/// indexed parallel iterator preserves length and order, so the result has
/// one entry per chunk, in chunk order, each being a value that
/// `count_chunk_table` can return for that chunk under this tokenizer.
#[verifier::external_body]
fn par_chunk_counts(t: &Tokenizer, inputs: &Vec<Vec<u32>>) -> (r: Vec<
    Result<Vec<Vec<(usize, usize)>>, TokenizerError>,
>)
    requires
        t.wf(),
    ensures
        r@.len() == inputs@.len(),
        forall|i: int|
            0 <= i < r@.len() ==> call_ensures(
                count_chunk_table,
                (t, &inputs@[i]),
                #[trigger] r@[i],
            ),
{
    inputs.par_iter().map(|chunk| count_chunk_table(t, chunk)).collect()
}

/// The parallel merge rounds: per round, a parallel map counts each chunk,
/// a sequential reduce sums the local tables, and the highest-count
/// unregistered concatenation (ties to the smaller id pair) is registered
/// under the next id. Completed rounds stay committed even when a later
/// round fails.
fn par_build_rounds(t: &mut Tokenizer, inputs: &Vec<Vec<u32>>, target: usize) -> (r: Result<
    (),
    TokenizerError,
>)
    requires
        old(t).wf(),
        spans_distinct(old(t)@),
        total_chunk_len(chunks_view(inputs@)) <= usize::MAX,
    ensures
        final(t).wf(),
        spans_distinct(final(t)@),
        old(t)@.len() <= final(t)@.len(),
        final(t)@.take(old(t)@.len() as int) == old(t)@,
        forall|j: int|
            old(t)@.len() <= j < final(t)@.len() ==> (#[trigger] final(t)@[j]).len() >= 2,
        spans_composed(final(t)@, old(t)@.len() as int),
        forall|j: int|
            old(t)@.len() <= j < final(t)@.len() ==> #[trigger] round_won(
                final(t)@,
                chunks_view(inputs@),
                j,
            ),
        old(t)@.len() >= target ==> *final(t) == *old(t),
        match r {
            Ok(()) => final(t)@.len() == if old(t)@.len() >= target {
                old(t)@.len() as int
            } else {
                target as int
            },
            Err(e) => {
                &&& (e == TokenizerError::UnknownSymbol || e == TokenizerError::UnreachableTarget)
                &&& final(t)@.len() < target
                &&& (e == TokenizerError::UnknownSymbol ==> !chunks_covered(old(t)@, inputs@) && (
                exists|ci: int|
                    0 <= ci < inputs@.len() && #[trigger] encode_spec(
                        final(t)@,
                        inputs@[ci]@,
                        0,
                    ) is None))
                &&& (e == TokenizerError::UnreachableTarget ==> (forall|a: int, b: int|
                    !(#[trigger] is_candidate(final(t)@, chunks_view(inputs@), a, b))) && (
                forall|ci: int|
                    0 <= ci < inputs@.len() ==> #[trigger] encode_spec(
                        final(t)@,
                        inputs@[ci]@,
                        0,
                    ) is Some))
            },
        },
{
    let ghost cv = chunks_view(inputs@);
    proof {
        assert(t@.take(old(t)@.len() as int) =~= old(t)@);
    }
    while t.lookup.len() < target
        invariant
            t.wf(),
            spans_distinct(t@),
            old(t)@.len() <= t@.len(),
            t@.take(old(t)@.len() as int) == old(t)@,
            forall|j: int| old(t)@.len() <= j < t@.len() ==> (#[trigger] t@[j]).len() >= 2,
            spans_composed(t@, old(t)@.len() as int),
            forall|j: int| old(t)@.len() <= j < t@.len() ==> #[trigger] round_won(t@, cv, j),
            old(t)@.len() >= target || t@.len() <= target,
            old(t)@.len() >= target ==> *t == *old(t),
            t@.len() == t.lookup@.len(),
            chunks_covered(old(t)@, inputs@) ==> chunks_covered(t@, inputs@),
            cv == chunks_view(inputs@),
            total_chunk_len(cv) <= usize::MAX,
        decreases target - t@.len(),
    {
        let results = par_chunk_counts(t, inputs);
        let mut counts: Vec<Vec<(usize, usize)>> = Vec::new();
        let mut i: usize = 0;
        while i < t.lookup.len()
            invariant
                counts@.len() == i,
                i <= t.lookup@.len(),
                forall|x: int| 0 <= x < i ==> (#[trigger] counts@[x])@.len() == 0,
            decreases t.lookup@.len() - i,
        {
            counts.push(Vec::new());
            i += 1;
        }
        proof {
            assert(t@.len() == t.lookup@.len());
            assert(cv.take(0) =~= Seq::<Seq<u32>>::empty());
            assert forall|x: int, y: int|
                #[trigger] table_count(counts@, x, y) == chunks_pair_count(
                t@,
                cv.take(0),
                x,
                y,
            ) by {
                if 0 <= x < counts@.len() {
                    assert(counts@[x]@.len() == 0);
                }
            }
        }
        let mut ci: usize = 0;
        while ci < results.len()
            invariant
                t.wf(),
                spans_distinct(t@),
                old(t)@.len() <= t@.len(),
                t@.len() < target,
                t@.len() == t.lookup@.len(),
                t@.take(old(t)@.len() as int) == old(t)@,
                forall|j: int| old(t)@.len() <= j < t@.len() ==> (#[trigger] t@[j]).len() >= 2,
                spans_composed(t@, old(t)@.len() as int),
                forall|j: int| old(t)@.len() <= j < t@.len() ==> #[trigger] round_won(t@, cv, j),
                chunks_covered(old(t)@, inputs@) ==> chunks_covered(t@, inputs@),
                cv == chunks_view(inputs@),
                total_chunk_len(cv) <= usize::MAX,
                ci <= results@.len(),
                results@.len() == inputs@.len(),
                counts@.len() == t@.len(),
                table_wf(counts@),
                forall|x: int, y: int|
                    #[trigger] table_count(counts@, x, y) == chunks_pair_count(
                        t@,
                        cv.take(ci as int),
                        x,
                        y,
                    ),
                forall|c2: int|
                    0 <= c2 < ci ==> #[trigger] encode_spec(t@, inputs@[c2]@, 0) is Some,
                forall|j: int|
                    0 <= j < results@.len() ==> call_ensures(
                        count_chunk_table,
                        (&*t, &inputs@[j]),
                        #[trigger] results@[j],
                    ),
            decreases results@.len() - ci,
        {
            match &results[ci] {
                Ok(tab) => {
                    proof {
                        assert(cv[ci as int] == inputs@[ci as int]@);
                        assert(tab@.len() == t@.len());
                        assert forall|x: int, y: int|
                            #[trigger] table_count(counts@, x, y) + table_count(tab@, x, y)
                                <= usize::MAX by {
                            lemma_chunks_pair_count_take(t@, cv, ci as int, x, y);
                            lemma_chunks_pair_count_bound(t@, cv.take(ci + 1), x, y);
                            lemma_total_chunk_len_take(cv, ci + 1);
                        }
                    }
                    merge_counts(&mut counts, tab);
                    proof {
                        assert forall|x: int, y: int|
                            #[trigger] table_count(counts@, x, y) == chunks_pair_count(
                            t@,
                            cv.take(ci + 1),
                            x,
                            y,
                        ) by {
                            lemma_chunks_pair_count_take(t@, cv, ci as int, x, y);
                        }
                    }
                }
                Err(_) => {
                    proof {
                        let chunk = inputs@[ci as int];
                        if chunks_covered(old(t)@, inputs@) {
                            assert(chunks_covered(t@, inputs@));
                            assert forall|k: int|
                                0 <= k < chunk@.len() implies #[trigger] span_id(
                                t@,
                                seq![chunk@[k]],
                            ) is Some by {
                                assert(span_id(t@, seq![inputs@[ci as int]@[k]]) is Some);
                            }
                            lemma_round_trip(t@, chunk@);
                            assert(false);
                        }
                        assert(encode_spec(t@, inputs@[ci as int]@, 0) is None);
                    }
                    return Err(TokenizerError::UnknownSymbol);
                }
            }
            ci += 1;
        }
        proof {
            assert(cv.take(inputs@.len() as int) =~= cv);
        }
        let ghost pre_round = t@;
        match select_and_register(t, &counts, Ghost(cv), Ghost(old(t)@.len() as int)) {
            Err(e) => {
                proof {
                    assert forall|c2: int|
                        0 <= c2 < inputs@.len() implies #[trigger] encode_spec(
                        t@,
                        inputs@[c2]@,
                        0,
                    ) is Some by {}
                }
                return Err(e);
            }
            Ok(()) => {
                proof {
                    assert forall|i: int| 0 <= i < old(t)@.len() implies t@[i] == old(t)@[i] by {
                        assert(t@.take(pre_round.len() as int)[i] == pre_round[i]);
                        assert(pre_round.take(old(t)@.len() as int)[i] == old(t)@[i]);
                    }
                    assert(t@.take(old(t)@.len() as int) =~= old(t)@);
                    if chunks_covered(old(t)@, inputs@) {
                        assert(t@ =~= pre_round.push(t@[pre_round.len() as int]));
                        lemma_covered_push(pre_round, t@[pre_round.len() as int], inputs@);
                    }
                }
            }
        }
    }
    Ok(())
}

/// Builds a vocabulary of `target_vocabulary_size` tokens from the
/// pre-partitioned chunks, seeding the singleton tokens from
/// `base_vocabulary` (in first-occurrence order of its distinct symbols)
/// rather than re-deriving them from the chunks. Fails with `UnknownSymbol`
/// when a chunk holds a symbol outside the base alphabet, and with
/// `UnreachableTarget` when no further merge can reach the target.
pub fn parallel_generate_with_base_vocabulary(
    inputs: Vec<Vec<u32>>,
    base_vocabulary: Vec<u32>,
    target_vocabulary_size: usize,
) -> (r: Result<Tokenizer, TokenizerError>)
    requires
        total_chunk_len(chunks_view(inputs@)) <= usize::MAX,
    ensures
        match r {
            Ok(t) => {
                let alpha = dedup_spec(base_vocabulary@);
                &&& t.wf()
                &&& spans_distinct(t@)
                &&& t@.len() == if alpha.len() >= target_vocabulary_size {
                    alpha.len() as int
                } else {
                    target_vocabulary_size as int
                }
                &&& t@.take(alpha.len() as int) == singleton_spans(alpha)
                &&& forall|j: int|
                    dedup_spec(base_vocabulary@).len() <= j < t@.len() ==> (#[trigger] t@[j]).len()
                        >= 2
                &&& spans_composed(t@, dedup_spec(base_vocabulary@).len() as int)
                &&& (t@.len() == 0 ==> t.children@.len() == 0)
                &&& forall|i: int|
                    0 <= i < base_vocabulary@.len() ==> #[trigger] span_id(
                        t@,
                        seq![base_vocabulary@[i]],
                    ) is Some
                &&& forall|j: int|
                    dedup_spec(base_vocabulary@).len() <= j < t@.len() ==> #[trigger] round_won(
                        t@,
                        chunks_view(inputs@),
                        j,
                    )
            },
            Err(e) => {
                ||| (e == TokenizerError::UnreachableTarget && dedup_spec(base_vocabulary@).len()
                    < target_vocabulary_size && (exists|v: Vocab|
                    {
                        &&& dedup_spec(base_vocabulary@).len() <= v.len() < target_vocabulary_size
                        &&& v.take(dedup_spec(base_vocabulary@).len() as int) == singleton_spans(
                            dedup_spec(base_vocabulary@),
                        )
                        &&& spans_distinct(v)
                        &&& spans_composed(v, dedup_spec(base_vocabulary@).len() as int)
                        &&& (forall|j: int|
                            dedup_spec(base_vocabulary@).len() <= j < v.len()
                                ==> #[trigger] round_won(v, chunks_view(inputs@), j))
                        &&& (forall|ci: int|
                            0 <= ci < inputs@.len() ==> (#[trigger] encode_spec(
                                v,
                                inputs@[ci]@,
                                0,
                            )) is Some)
                        &&& (forall|a: int, b: int|
                            !(#[trigger] is_candidate(v, chunks_view(inputs@), a, b)))
                    }))
                ||| (e == TokenizerError::UnknownSymbol && !chunks_covered(
                    singleton_spans(dedup_spec(base_vocabulary@)),
                    inputs@,
                ) && (exists|v: Vocab|
                    {
                        &&& dedup_spec(base_vocabulary@).len() <= v.len()
                        &&& v.take(dedup_spec(base_vocabulary@).len() as int) == singleton_spans(
                            dedup_spec(base_vocabulary@),
                        )
                        &&& spans_distinct(v)
                        &&& spans_composed(v, dedup_spec(base_vocabulary@).len() as int)
                        &&& (forall|j: int|
                            dedup_spec(base_vocabulary@).len() <= j < v.len()
                                ==> #[trigger] round_won(v, chunks_view(inputs@), j))
                        &&& (exists|ci: int|
                            0 <= ci < inputs@.len() && (#[trigger] encode_spec(
                                v,
                                inputs@[ci]@,
                                0,
                            )) is None)
                    }))
            },
        },
{
    let mut tokenizer = Tokenizer::default();
    let alphabet = extract_alphabet(&base_vocabulary);
    register_alphabet(&mut tokenizer, &alphabet);
    let ghost alpha = dedup_spec(base_vocabulary@);
    proof {
        lemma_dedup_spec(base_vocabulary@);
        assert(spans_distinct(tokenizer@)) by {
            assert forall|x: int, y: int| 0 <= x < y < tokenizer@.len() implies tokenizer@[x]
                != tokenizer@[y] by {
                assert(tokenizer@[x] == seq![alpha[x]]);
                assert(tokenizer@[y] == seq![alpha[y]]);
                assert(alpha[x] != alpha[y]);
                assert(seq![alpha[x]][0] == alpha[x]);
            }
        }
    }
    let ghost start = tokenizer@;
    match par_build_rounds(&mut tokenizer, &inputs, target_vocabulary_size) {
        Ok(()) => {
            proof {
                assert(tokenizer@.take(alpha.len() as int) == singleton_spans(alpha));
                if tokenizer@.len() == 0 {
                    assert(alpha.len() == 0);
                    assert(tokenizer.children@.len() == 0);
                }
                assert forall|i: int|
                    0 <= i < base_vocabulary@.len() implies #[trigger] span_id(
                    tokenizer@,
                    seq![base_vocabulary@[i]],
                ) is Some by {
                    let c = base_vocabulary@[i];
                    assert(base_vocabulary@.contains(c));
                    assert(alpha.contains(c));
                    let j = choose|j: int| 0 <= j < alpha.len() && alpha[j] == c;
                    assert(tokenizer@.take(alpha.len() as int)[j] == tokenizer@[j]);
                    assert(singleton_spans(alpha)[j] == seq![alpha[j]]);
                    assert(tokenizer@[j] == seq![c]);
                    assert(tokenizer@.contains(seq![c]));
                    lemma_span_id_contains(tokenizer@, seq![c]);
                }
            }
            Ok(tokenizer)
        }
        Err(e) => {
            proof {
                assert(start.len() == alpha.len());
                let v = tokenizer@;
                if e == TokenizerError::UnreachableTarget {
                    assert(forall|ci: int|
                        0 <= ci < inputs@.len() ==> (#[trigger] encode_spec(
                            v,
                            inputs@[ci]@,
                            0,
                        )) is Some);
                } else {
                    assert(exists|ci: int|
                        0 <= ci < inputs@.len() && (#[trigger] encode_spec(
                            v,
                            inputs@[ci]@,
                            0,
                        )) is None);
                }
            }
            Err(e)
        }
    }
}

} // verus!
