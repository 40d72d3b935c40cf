//! The sequential vocabulary builder: grows a tokenizer from the corpus's
//! alphabet to a target vocabulary size, one merge per round.
//!
//! Each round re-segments the corpus with the current tokenizer, counts
//! every adjacent pair of emitted segments (keyed by the two token ids, which
//! under one fixed tokenizer determine the concatenated span), and registers
//! the concatenation with the highest count among those not yet registered.
//! Ties are broken deterministically towards the smaller `(left id,
//! right id)` pair, so two runs over the same corpus build the same
//! vocabulary. The final segment of a chunk has no right neighbour; its span
//! is itself a registered token, so it can never become a merge winner and
//! is not counted.

use vstd::prelude::*;

use crate::laws::lemma_round_trip;
use crate::model::{
    chunk_pair_count, chunks_pair_count, chunks_view, dedup_spec, encode_spec, is_candidate,
    is_winner, lemma_chunks_pair_count_bound, lemma_chunks_pair_count_take, lemma_dedup_spec,
    lemma_pair_count_bound, lemma_pair_count_push, lemma_span_id_contains, lemma_span_id_push,
    lemma_spans_composed_push, lemma_total_chunk_len_take, pair_better, pair_count_ids, round_won,
    singleton_spans, span_id, spans_composed, spans_distinct, total_chunk_len, Vocab,
};
use crate::tokenizer::{copy_symbols, Tokenizer};
use crate::TokenizerError;

verus! {

/// Whether `v` contains the symbol `x`.
fn contains_symbol(v: &Vec<u32>, x: u32) -> (r: bool)
    ensures
        r == v@.contains(x),
{
    let mut i: usize = 0;
    while i < v.len()
        invariant
            i <= v@.len(),
            forall|j: int| 0 <= j < i ==> v@[j] != x,
        decreases v@.len() - i,
    {
        if v[i] == x {
            proof {
                assert(v@[i as int] == x);
            }
            return true;
        }
        i += 1;
    }
    proof {
        if v@.contains(x) {
            let j = choose|j: int| 0 <= j < v@.len() && v@[j] == x;
            assert(v@[j] != x);
        }
    }
    false
}

/// The distinct symbols of the corpus, in first-occurrence order.
pub(crate) fn extract_alphabet(input: &Vec<u32>) -> (r: Vec<u32>)
    ensures
        r@ == dedup_spec(input@),
{
    let mut r: Vec<u32> = Vec::new();
    let mut i: usize = 0;
    proof {
        assert(input@.take(0) =~= Seq::<u32>::empty());
    }
    while i < input.len()
        invariant
            i <= input@.len(),
            r@ == dedup_spec(input@.take(i as int)),
        decreases input@.len() - i,
    {
        let c = input[i];
        proof {
            assert(input@.take(i + 1).drop_last() =~= input@.take(i as int));
            assert(input@.take(i + 1).last() == c);
            lemma_dedup_spec(input@.take(i as int));
        }
        if !contains_symbol(&r, c) {
            r.push(c);
        }
        i += 1;
    }
    proof {
        assert(input@.take(input@.len() as int) =~= input@);
    }
    r
}

/// Registers every alphabet symbol as a singleton token, ids assigned in
/// alphabet order starting at 0.
pub(crate) fn register_alphabet(t: &mut Tokenizer, alphabet: &Vec<u32>)
    requires
        old(t).wf(),
        old(t)@.len() == 0,
    ensures
        final(t).wf(),
        final(t)@ == singleton_spans(alphabet@),
        alphabet@.len() == 0 ==> *final(t) == *old(t),
{
    let mut i: usize = 0;
    proof {
        assert(t@ =~= singleton_spans(alphabet@.take(0)));
    }
    while i < alphabet.len()
        invariant
            t.wf(),
            i <= alphabet@.len(),
            t@ == singleton_spans(alphabet@.take(i as int)),
            alphabet@.len() == 0 ==> *t == *old(t),
        decreases alphabet@.len() - i,
    {
        let single: Vec<u32> = vec![alphabet[i]];
        proof {
            assert(single@ =~= seq![alphabet@[i as int]]);
            assert(t@.len() == alphabet@.take(i as int).len());
        }
        t.register(&single, i);
        proof {
            assert(singleton_spans(alphabet@.take(i + 1)) =~= singleton_spans(
                alphabet@.take(i as int),
            ).push(seq![alphabet@[i as int]]));
        }
        i += 1;
    }
    proof {
        assert(alphabet@.take(alphabet@.len() as int) =~= alphabet@);
    }
}

/// Total count recorded for right id `b` in one table row.
pub open spec fn row_count(row: Seq<(usize, usize)>, b: int) -> nat
    decreases row.len(),
{
    if row.len() == 0 {
        0
    } else {
        let rest = row_count(row.drop_last(), b);
        if row.last().0 as int == b {
            rest + (row.last().1 as nat)
        } else {
            rest
        }
    }
}

/// Count recorded for the pair `(a, b)` in a frequency table.
pub open spec fn table_count(tab: Seq<Vec<(usize, usize)>>, a: int, b: int) -> nat {
    if 0 <= a < tab.len() {
        row_count(tab[a]@, b)
    } else {
        0
    }
}

/// A row holds at most one entry per right id.
pub open spec fn row_distinct(row: Seq<(usize, usize)>) -> bool {
    forall|i: int, j: int| 0 <= i < j < row.len() ==> row[i].0 != row[j].0
}

/// Every row of the table is duplicate-free.
pub open spec fn table_wf(tab: Seq<Vec<(usize, usize)>>) -> bool {
    forall|a: int| 0 <= a < tab.len() ==> row_distinct((#[trigger] tab[a])@)
}

/// A row without an entry for `b` counts zero for it.
proof fn lemma_row_count_absent(row: Seq<(usize, usize)>, b: int)
    requires
        forall|i: int| 0 <= i < row.len() ==> (#[trigger] row[i]).0 as int != b,
    ensures
        row_count(row, b) == 0,
    decreases row.len(),
{
    if row.len() > 0 {
        assert forall|i: int|
            0 <= i < row.drop_last().len() implies (#[trigger] row.drop_last()[i]).0 as int
            != b by {
            assert(row.drop_last()[i] == row[i]);
        }
        lemma_row_count_absent(row.drop_last(), b);
    }
}

/// If the count for `b` is positive, some entry carries `b`.
proof fn lemma_row_count_present(row: Seq<(usize, usize)>, b: int)
    requires
        row_count(row, b) >= 1,
    ensures
        exists|k: int| 0 <= k < row.len() && (#[trigger] row[k]).0 as int == b,
{
    if forall|i: int| 0 <= i < row.len() ==> (#[trigger] row[i]).0 as int != b {
        lemma_row_count_absent(row, b);
    }
}

/// Under row distinctness, an entry's value is the whole row's count for
/// its key.
proof fn lemma_row_count_entry(row: Seq<(usize, usize)>, k: int)
    requires
        row_distinct(row),
        0 <= k < row.len(),
    ensures
        row_count(row, row[k].0 as int) == row[k].1,
    decreases row.len(),
{
    if k == row.len() - 1 {
        assert forall|i: int|
            0 <= i < row.drop_last().len() implies (#[trigger] row.drop_last()[i]).0 as int != row[
            k
        ].0 as int by {
            assert(row.drop_last()[i] == row[i]);
            assert(row[i].0 != row[k].0);
        }
        lemma_row_count_absent(row.drop_last(), row[k].0 as int);
    } else {
        assert(row[k].0 != row.last().0);
        assert forall|i: int, j: int|
            0 <= i < j < row.drop_last().len() implies row.drop_last()[i].0 != row.drop_last()[
            j
        ].0 by {
            assert(row.drop_last()[i] == row[i] && row.drop_last()[j] == row[j]);
        }
        assert(row.drop_last()[k] == row[k]);
        lemma_row_count_entry(row.drop_last(), k);
    }
}

/// Replacing one entry trades its old value for the new one, key by key.
proof fn lemma_row_count_update(row: Seq<(usize, usize)>, k: int, e: (usize, usize), b: int)
    requires
        0 <= k < row.len(),
    ensures
        row_count(row.update(k, e), b) + (if row[k].0 as int == b {
            row[k].1 as nat
        } else {
            0nat
        }) == row_count(row, b) + (if e.0 as int == b {
            e.1 as nat
        } else {
            0nat
        }),
    decreases row.len(),
{
    if k == row.len() - 1 {
        assert(row.update(k, e).drop_last() =~= row.drop_last());
        assert(row.update(k, e).last() == e);
    } else {
        assert(row.update(k, e).drop_last() =~= row.drop_last().update(k, e));
        assert(row.update(k, e).last() == row.last());
        assert(row.drop_last()[k] == row[k]);
        lemma_row_count_update(row.drop_last(), k, e, b);
    }
}

/// Appending an entry adds its value to its key's count.
proof fn lemma_row_count_push(row: Seq<(usize, usize)>, e: (usize, usize), b: int)
    ensures
        row_count(row.push(e), b) == row_count(row, b) + (if e.0 as int == b {
            e.1 as nat
        } else {
            0nat
        }),
{
    assert(row.push(e).drop_last() =~= row);
}

/// Adds `c` to the count recorded for the adjacent pair `(a, b)`, creating
/// the entry if the pair is new. Every other count is unchanged.
pub(crate) fn bump_pair(counts: &mut Vec<Vec<(usize, usize)>>, a: usize, b: usize, c: usize)
    requires
        a < old(counts)@.len(),
        table_wf(old(counts)@),
        table_count(old(counts)@, a as int, b as int) + c <= usize::MAX,
    ensures
        final(counts)@.len() == old(counts)@.len(),
        table_wf(final(counts)@),
        forall|x: int, y: int|
            #[trigger] table_count(final(counts)@, x, y) == table_count(old(counts)@, x, y) + (
            if x == a && y == b {
                c as nat
            } else {
                0nat
            }),
{
    let row_len = counts[a].len();
    let mut k: usize = 0;
    let mut pos: usize = row_len;
    while k < row_len
        invariant
            a < counts@.len(),
            row_len == counts@[a as int]@.len(),
            if pos == row_len {
                forall|j: int| 0 <= j < k ==> (#[trigger] counts@[a as int]@[j]).0 != b
            } else {
                pos < k <= row_len && counts@[a as int]@[pos as int].0 == b
            },
        decreases row_len - k,
    {
        if pos == row_len && counts[a][k].0 == b {
            pos = k;
        }
        k += 1;
    }
    let ghost old_tab = counts@;
    let ghost old_row = counts@[a as int]@;
    if pos < row_len {
        proof {
            lemma_row_count_entry(old_row, pos as int);
        }
        let cur = counts[a][pos].1;
        let renewed = cur + c;
        let row = &mut counts[a];
        row[pos] = (b, renewed);
        proof {
            assert(counts@ =~= old_tab.update(a as int, counts@[a as int]));
            assert(counts@[a as int]@ =~= old_row.update(pos as int, (b, renewed)));
            assert forall|x: int, y: int|
                #[trigger] table_count(counts@, x, y) == table_count(old_tab, x, y) + (if x == a
                && y == b {
                c as nat
            } else {
                0nat
            }) by {
                if x == a {
                    lemma_row_count_update(old_row, pos as int, (b, renewed), y);
                } else if 0 <= x < counts@.len() {
                    assert(counts@[x] == old_tab[x]);
                }
            }
            assert forall|x: int| 0 <= x < counts@.len() implies row_distinct(
                (#[trigger] counts@[x])@,
            ) by {
                if x == a {
                    assert forall|i: int, j: int|
                        0 <= i < j < counts@[x]@.len() implies counts@[x]@[i].0 != counts@[x]@[
                        j
                    ].0 by {
                        assert(old_row[i].0 == counts@[x]@[i].0 || i == pos);
                        assert(old_row[j].0 == counts@[x]@[j].0 || j == pos);
                        assert(old_row[i].0 != old_row[j].0);
                        assert(old_row[pos as int].0 == b);
                    }
                } else {
                    assert(counts@[x] == old_tab[x]);
                }
            }
        }
    } else {
        proof {
            lemma_row_count_absent(old_row, b as int);
        }
        let row = &mut counts[a];
        row.push((b, c));
        proof {
            assert(counts@ =~= old_tab.update(a as int, counts@[a as int]));
            assert(counts@[a as int]@ =~= old_row.push((b, c)));
            assert forall|x: int, y: int|
                #[trigger] table_count(counts@, x, y) == table_count(old_tab, x, y) + (if x == a
                && y == b {
                c as nat
            } else {
                0nat
            }) by {
                if x == a {
                    lemma_row_count_push(old_row, (b, c), y);
                } else if 0 <= x < counts@.len() {
                    assert(counts@[x] == old_tab[x]);
                }
            }
            assert forall|x: int| 0 <= x < counts@.len() implies row_distinct(
                (#[trigger] counts@[x])@,
            ) by {
                if x == a {
                    assert forall|i: int, j: int|
                        0 <= i < j < counts@[x]@.len() implies counts@[x]@[i].0 != counts@[x]@[
                        j
                    ].0 by {
                        if j < old_row.len() {
                            assert(old_row[i].0 != old_row[j].0);
                        } else {
                            assert(counts@[x]@[i] == old_row[i]);
                            assert(counts@[x]@[j].0 == b);
                        }
                    }
                } else {
                    assert(counts@[x] == old_tab[x]);
                }
            }
        }
    }
}

/// Sums one local pair table into the accumulator (reduce phase): every
/// count grows by the local table's count, key by key.
pub(crate) fn merge_counts(acc: &mut Vec<Vec<(usize, usize)>>, part: &Vec<Vec<(usize, usize)>>)
    requires
        table_wf(old(acc)@),
        part@.len() <= old(acc)@.len(),
        forall|x: int, y: int|
            #[trigger] table_count(old(acc)@, x, y) + table_count(part@, x, y) <= usize::MAX,
    ensures
        final(acc)@.len() == old(acc)@.len(),
        table_wf(final(acc)@),
        forall|x: int, y: int|
            #[trigger] table_count(final(acc)@, x, y) == table_count(old(acc)@, x, y)
                + table_count(part@, x, y),
{
    let mut a: usize = 0;
    while a < part.len()
        invariant
            table_wf(acc@),
            acc@.len() == old(acc)@.len(),
            part@.len() <= acc@.len(),
            a <= part@.len(),
            forall|x: int, y: int|
                #[trigger] table_count(old(acc)@, x, y) + table_count(part@, x, y) <= usize::MAX,
            forall|x: int, y: int|
                #[trigger] table_count(acc@, x, y) == table_count(old(acc)@, x, y) + (if x < a {
                    table_count(part@, x, y)
                } else {
                    0nat
                }),
        decreases part@.len() - a,
    {
        let row_len = part[a].len();
        let mut k: usize = 0;
        proof {
            assert(part@[a as int]@.take(0) =~= Seq::<(usize, usize)>::empty());
        }
        while k < row_len
            invariant
                table_wf(acc@),
                acc@.len() == old(acc)@.len(),
                part@.len() <= acc@.len(),
                a < part@.len(),
                k <= row_len,
                row_len == part@[a as int]@.len(),
                forall|x: int, y: int|
                    #[trigger] table_count(old(acc)@, x, y) + table_count(part@, x, y)
                        <= usize::MAX,
                forall|x: int, y: int|
                    #[trigger] table_count(acc@, x, y) == table_count(old(acc)@, x, y) + (if x
                        < a {
                        table_count(part@, x, y)
                    } else if x == a {
                        row_count(part@[a as int]@.take(k as int), y)
                    } else {
                        0nat
                    }),
            decreases row_len - k,
        {
            let pair = part[a][k];
            proof {
                let row = part@[a as int]@;
                assert(row.take(k + 1) =~= row.take(k as int).push(row[k as int]));
                lemma_row_count_push(row.take(k as int), row[k as int], pair.0 as int);
                assert forall|y: int|
                    row_count(row.take(k as int), y) <= row_count(row, y) by {
                    lemma_row_count_take_le(row, k as int, y);
                }
                lemma_row_count_take_le(row, k + 1, pair.0 as int);
                assert(row[k as int] == pair);
                assert(table_count(acc@, a as int, pair.0 as int) + pair.1 <= usize::MAX);
            }
            bump_pair(acc, a, pair.0, pair.1);
            proof {
                let row = part@[a as int]@;
                assert forall|x: int, y: int|
                    #[trigger] table_count(acc@, x, y) == table_count(old(acc)@, x, y) + (if x
                        < a {
                        table_count(part@, x, y)
                    } else if x == a {
                        row_count(row.take(k + 1), y)
                    } else {
                        0nat
                    }) by {
                    lemma_row_count_push(row.take(k as int), row[k as int], y);
                }
            }
            k += 1;
        }
        proof {
            assert(part@[a as int]@.take(row_len as int) =~= part@[a as int]@);
        }
        a += 1;
    }
}

/// Counts never shrink when entries are dropped from the end of a row.
proof fn lemma_row_count_take_le(row: Seq<(usize, usize)>, k: int, b: int)
    requires
        0 <= k <= row.len(),
    ensures
        row_count(row.take(k), b) <= row_count(row, b),
    decreases row.len() - k,
{
    if k < row.len() {
        lemma_row_count_take_le(row, k + 1, b);
        assert(row.take(k + 1).drop_last() =~= row.take(k));
        assert(row.take(k + 1).last() == row[k]);
    } else {
        assert(row.take(k) =~= row);
    }
}

/// The concatenation of two symbol spans.
/// The concatenation of two symbol spans.
fn concat_spans(x: &Vec<u32>, y: &Vec<u32>) -> (r: Vec<u32>)
    ensures
        r@ == x@ + y@,
{
    let mut r = copy_symbols(x);
    let mut i: usize = 0;
    proof {
        assert(x@ + y@.take(0) =~= x@);
    }
    while i < y.len()
        invariant
            i <= y@.len(),
            r@ == x@ + y@.take(i as int),
        decreases y@.len() - i,
    {
        r.push(y[i]);
        proof {
            assert(y@.take(i + 1) =~= y@.take(i as int).push(y@[i as int]));
            assert(x@ + y@.take(i + 1) =~= (x@ + y@.take(i as int)).push(y@[i as int]));
        }
        i += 1;
    }
    proof {
        assert(y@.take(y@.len() as int) =~= y@);
    }
    r
}

/// Counts one chunk's adjacent segment pairs into a fresh table sized to
/// the current vocabulary: entry `(a, b)` of the result records how often
/// segment `a` was directly followed by segment `b` in the chunk's greedy
/// segmentation. Fails with `UnknownSymbol` exactly when the chunk cannot
/// be segmented.
pub(crate) fn count_chunk_table(t: &Tokenizer, chunk: &Vec<u32>) -> (r: Result<
    Vec<Vec<(usize, usize)>>,
    TokenizerError,
>)
    requires
        t.wf(),
    ensures
        match r {
            Ok(tab) => {
                &&& tab@.len() == t@.len()
                &&& table_wf(tab@)
                &&& encode_spec(t@, chunk@, 0) is Some
                &&& forall|x: int, y: int|
                    #[trigger] table_count(tab@, x, y) == chunk_pair_count(t@, chunk@, x, y)
            },
            Err(e) => e == TokenizerError::UnknownSymbol && encode_spec(t@, chunk@, 0) is None,
        },
{
    let mut counts: Vec<Vec<(usize, usize)>> = Vec::new();
    let mut i: usize = 0;
    while i < t.lookup.len()
        invariant
            counts@.len() == i,
            i <= t.lookup@.len(),
            forall|x: int| 0 <= x < i ==> (#[trigger] counts@[x])@.len() == 0,
        decreases t.lookup@.len() - i,
    {
        counts.push(Vec::new());
        i += 1;
    }
    proof {
        assert(t@.len() == t.lookup@.len());
        assert forall|x: int, y: int| #[trigger] table_count(counts@, x, y) == 0nat by {
            if 0 <= x < counts@.len() {
                assert(counts@[x]@.len() == 0);
            }
        }
        vstd::std_specs::vec::axiom_spec_len(chunk);
    }
    let mut pointer: usize = 0;
    let mut prev: Option<usize> = None;
    let ghost mut emitted: Seq<int> = Seq::empty();
    while pointer < chunk.len()
        invariant
            t.wf(),
            counts@.len() == t@.len(),
            table_wf(counts@),
            pointer <= chunk@.len(),
            chunk@.len() <= usize::MAX,
            emitted.len() <= pointer,
            encode_spec(t@, chunk@, 0) == (match encode_spec(t@, chunk@, pointer as int) {
                Some(rest) => Some(emitted + rest),
                None => None::<Seq<int>>,
            }),
            match prev {
                Some(a) => a < t@.len() && emitted.len() >= 1 && emitted.last() == a as int,
                None => emitted.len() == 0,
            },
            forall|x: int, y: int|
                #[trigger] table_count(counts@, x, y) == pair_count_ids(emitted, x, y),
        decreases chunk@.len() - pointer,
    {
        match t.tokenize_item_no_write(chunk, pointer) {
            None => {
                proof {
                    assert(encode_spec(t@, chunk@, pointer as int) is None);
                }
                return Err(TokenizerError::UnknownSymbol);
            }
            Some(p) => {
                match prev {
                    Some(a) => {
                        proof {
                            lemma_pair_count_bound(emitted, a as int, p.0 as int);
                        }
                        bump_pair(&mut counts, a, p.0, 1);
                    }
                    None => {}
                }
                proof {
                    let refreshed = emitted.push(p.0 as int);
                    match encode_spec(t@, chunk@, p.1 as int) {
                        Some(rest) => {
                            assert(emitted + (seq![p.0 as int] + rest) =~= refreshed + rest);
                        }
                        None => {}
                    }
                    assert forall|x: int, y: int|
                        #[trigger] table_count(counts@, x, y) == pair_count_ids(
                        refreshed,
                        x,
                        y,
                    ) by {
                        lemma_pair_count_push(emitted, p.0 as int, x, y);
                    }
                    emitted = refreshed;
                }
                prev = Some(p.0);
                pointer = p.1;
            }
        }
    }
    proof {
        assert(encode_spec(t@, chunk@, pointer as int) == Some(Seq::<int>::empty()));
        assert(emitted + Seq::<int>::empty() =~= emitted);
        assert(encode_spec(t@, chunk@, 0) == Some(emitted));
    }
    Ok(counts)
}

/// The pair `(x, y)` lies in the scanned part of the table: a row before
/// `a`, or an entry before position `k` of row `a`.
spec fn pair_scanned(tab: Seq<Vec<(usize, usize)>>, x: int, y: int, a: int, k: int) -> bool {
    0 <= x < tab.len() && (x < a || (x == a && exists|kk: int|
        0 <= kk < k && kk < tab[x]@.len() && (#[trigger] tab[x]@[kk]).0 as int == y))
}

/// Selects the merge winner: among every counted pair whose concatenated
/// span is not yet registered, the one with the highest count; ties go to
/// the smaller `(left id, right id)` pair. Returns the concatenated span,
/// or `None` exactly when no such candidate exists.
pub(crate) fn select_winner(
    t: &Tokenizer,
    counts: &Vec<Vec<(usize, usize)>>,
    Ghost(chunks): Ghost<Seq<Seq<u32>>>,
) -> (r: Option<Vec<u32>>)
    requires
        t.wf(),
        counts@.len() == t@.len(),
        table_wf(counts@),
        forall|x: int, y: int|
            #[trigger] table_count(counts@, x, y) == chunks_pair_count(t@, chunks, x, y),
    ensures
        match r {
            Some(s) => {
                &&& s@.len() >= 2
                &&& span_id(t@, s@) is None
                &&& exists|a: int, b: int|
                    #[trigger] is_winner(t@, chunks, a, b) && s@ == t@[a].add(t@[b])
            },
            None => forall|a: int, b: int| !(#[trigger] is_candidate(t@, chunks, a, b)),
        },
{
    let mut best: Option<Vec<u32>> = None;
    let mut best_count: usize = 0;
    let mut best_a: usize = 0;
    let mut best_b: usize = 0;
    let mut a: usize = 0;
    while a < counts.len()
        invariant
            t.wf(),
            counts@.len() == t@.len(),
            table_wf(counts@),
            forall|x: int, y: int|
                #[trigger] table_count(counts@, x, y) == chunks_pair_count(t@, chunks, x, y),
            a <= counts@.len(),
            match best {
                Some(s) => {
                    &&& is_candidate(t@, chunks, best_a as int, best_b as int)
                    &&& best_count == chunks_pair_count(t@, chunks, best_a as int, best_b as int)
                    &&& s@ == t@[best_a as int].add(t@[best_b as int])
                    &&& s@.len() >= 2
                    &&& span_id(t@, s@) is None
                    &&& forall|x: int, y: int|
                        #[trigger] is_candidate(t@, chunks, x, y) && pair_scanned(
                            counts@,
                            x,
                            y,
                            a as int,
                            0,
                        ) ==> (x == best_a && y == best_b) || pair_better(
                            best_count as nat,
                            best_a as int,
                            best_b as int,
                            chunks_pair_count(t@, chunks, x, y),
                            x,
                            y,
                        )
                },
                None => forall|x: int, y: int|
                    !(#[trigger] is_candidate(t@, chunks, x, y) && pair_scanned(
                        counts@,
                        x,
                        y,
                        a as int,
                        0,
                    )),
            },
        decreases counts@.len() - a,
    {
        proof {
            assert(t@.len() == t.lookup@.len());
        }
        let row_len = counts[a].len();
        let mut k: usize = 0;
        while k < row_len
            invariant
                t.wf(),
                counts@.len() == t@.len(),
                t@.len() == t.lookup@.len(),
                table_wf(counts@),
                forall|x: int, y: int|
                    #[trigger] table_count(counts@, x, y) == chunks_pair_count(t@, chunks, x, y),
                a < counts@.len(),
                k <= row_len,
                row_len == counts@[a as int]@.len(),
                match best {
                    Some(s) => {
                        &&& is_candidate(t@, chunks, best_a as int, best_b as int)
                        &&& best_count == chunks_pair_count(
                            t@,
                            chunks,
                            best_a as int,
                            best_b as int,
                        )
                        &&& s@ == t@[best_a as int].add(t@[best_b as int])
                        &&& s@.len() >= 2
                        &&& span_id(t@, s@) is None
                        &&& forall|x: int, y: int|
                            #[trigger] is_candidate(t@, chunks, x, y) && pair_scanned(
                                counts@,
                                x,
                                y,
                                a as int,
                                k as int,
                            ) ==> (x == best_a && y == best_b) || pair_better(
                                best_count as nat,
                                best_a as int,
                                best_b as int,
                                chunks_pair_count(t@, chunks, x, y),
                                x,
                                y,
                            )
                    },
                    None => forall|x: int, y: int|
                        !(#[trigger] is_candidate(t@, chunks, x, y) && pair_scanned(
                            counts@,
                            x,
                            y,
                            a as int,
                            k as int,
                        )),
                },
            decreases row_len - k,
        {
            let pair = counts[a][k];
            let b = pair.0;
            let c = pair.1;
            proof {
                assert(counts@[a as int]@[k as int] == pair);
                lemma_row_count_entry(counts@[a as int]@, k as int);
                assert(table_count(counts@, a as int, b as int) == row_count(
                    counts@[a as int]@,
                    b as int,
                ));
                assert(c == chunks_pair_count(t@, chunks, a as int, b as int));
            }
            let in_range = b < t.lookup.len();
            let is_better = match &best {
                None => true,
                Some(_) => c > best_count || (c == best_count && ((a < best_a) || (a == best_a
                    && b < best_b))),
            };
            if in_range && c >= 1 && is_better {
                let span = concat_spans(&t.lookup[a], &t.lookup[b]);
                proof {
                    assert(t@[a as int] == t.lookup@[a as int]@);
                    assert(t@[b as int] == t.lookup@[b as int]@);
                    assert(span@ == t@[a as int].add(t@[b as int]));
                    assert(t@[a as int].len() >= 1 && t@[b as int].len() >= 1);
                }
                if !t.contains_span(&span) {
                    best = Some(span);
                    best_count = c;
                    best_a = a;
                    best_b = b;
                }
            }
            proof {
                assert forall|x: int, y: int|
                    pair_scanned(counts@, x, y, a as int, k + 1) && !pair_scanned(
                        counts@,
                        x,
                        y,
                        a as int,
                        k as int,
                    ) implies x == a as int && y == b as int by {
                    let kk = choose|kk: int|
                        0 <= kk < k + 1 && kk < counts@[x]@.len() && (#[trigger] counts@[x]@[
                            kk
                        ]).0 as int == y;
                    assert(kk == k);
                }
            }
            k += 1;
        }
        proof {
            assert forall|x: int, y: int|
                is_candidate(t@, chunks, x, y) && pair_scanned(
                    counts@,
                    x,
                    y,
                    a + 1,
                    0,
                ) implies pair_scanned(counts@, x, y, a as int, row_len as int) by {
                if x == a {
                    assert(table_count(counts@, x, y) >= 1);
                    lemma_row_count_present(counts@[x]@, y);
                }
            }
        }
        a += 1;
    }
    proof {
        match &best {
            Some(s) => {
                assert forall|x: int, y: int|
                    #[trigger] is_candidate(t@, chunks, x, y) implies (x == best_a && y == best_b)
                        || pair_better(
                        best_count as nat,
                        best_a as int,
                        best_b as int,
                        chunks_pair_count(t@, chunks, x, y),
                        x,
                        y,
                    ) by {
                    assert(pair_scanned(counts@, x, y, a as int, 0));
                }
                assert(is_winner(t@, chunks, best_a as int, best_b as int));
            }
            None => {
                assert forall|x: int, y: int| !(#[trigger] is_candidate(t@, chunks, x, y)) by {
                    if is_candidate(t@, chunks, x, y) {
                        assert(pair_scanned(counts@, x, y, a as int, 0));
                    }
                }
            }
        }
    }
    best
}

/// Every symbol of every chunk is registered as a single-symbol token.
pub open spec fn chunks_covered(vocab: Vocab, chunks: Seq<Vec<u32>>) -> bool {
    forall|ci: int, k: int|
        0 <= ci < chunks.len() && 0 <= k < chunks[ci]@.len() ==> #[trigger] span_id(
            vocab,
            seq![chunks[ci]@[k]],
        ) is Some
}

/// Registering one more token never unregisters a covered symbol.
pub(crate) proof fn lemma_covered_push(vocab: Vocab, t: Seq<u32>, chunks: Seq<Vec<u32>>)
    requires
        chunks_covered(vocab, chunks),
    ensures
        chunks_covered(vocab.push(t), chunks),
{
    assert forall|ci: int, k: int|
        0 <= ci < chunks.len() && 0 <= k < chunks[ci]@.len() implies #[trigger] span_id(
        vocab.push(t),
        seq![chunks[ci]@[k]],
    ) is Some by {
        lemma_span_id_push(vocab, t, seq![chunks[ci]@[k]]);
        assert(span_id(vocab, seq![chunks[ci]@[k]]) is Some);
    }
}

/// This round's select-and-mutate phases, shared by both builders: selects
/// the winner among the counted pairs and registers it under the next id.
/// On success exactly one token — the round winner — is appended.
pub(crate) fn select_and_register(
    t: &mut Tokenizer,
    counts: &Vec<Vec<(usize, usize)>>,
    Ghost(cv): Ghost<Seq<Seq<u32>>>,
    Ghost(base): Ghost<int>,
) -> (r: Result<(), TokenizerError>)
    requires
        old(t).wf(),
        spans_distinct(old(t)@),
        0 <= base <= old(t)@.len(),
        forall|j: int| base <= j < old(t)@.len() ==> (#[trigger] old(t)@[j]).len() >= 2,
        spans_composed(old(t)@, base),
        forall|j: int| base <= j < old(t)@.len() ==> #[trigger] round_won(old(t)@, cv, j),
        counts@.len() == old(t)@.len(),
        table_wf(counts@),
        forall|x: int, y: int|
            #[trigger] table_count(counts@, x, y) == chunks_pair_count(old(t)@, cv, x, y),
    ensures
        final(t).wf(),
        spans_distinct(final(t)@),
        final(t)@.take(old(t)@.len() as int) == old(t)@,
        forall|j: int| base <= j < final(t)@.len() ==> (#[trigger] final(t)@[j]).len() >= 2,
        spans_composed(final(t)@, base),
        forall|j: int| base <= j < final(t)@.len() ==> #[trigger] round_won(final(t)@, cv, j),
        match r {
            Ok(()) => final(t)@.len() == old(t)@.len() + 1,
            Err(e) => {
                &&& e == TokenizerError::UnreachableTarget
                &&& *final(t) == *old(t)
                &&& forall|a: int, b: int| !(#[trigger] is_candidate(old(t)@, cv, a, b))
            },
        },
{
    match select_winner(t, counts, Ghost(cv)) {
        None => {
            proof {
                assert(t@.take(old(t)@.len() as int) =~= old(t)@);
            }
            Err(TokenizerError::UnreachableTarget)
        }
        Some(span) => {
            let ghost before = t@;
            let id = t.lookup.len();
            proof {
                assert(t@.len() == t.lookup@.len());
                lemma_span_id_contains(before, span@);
            }
            t.register(&span, id);
            proof {
                assert(t@ == before.push(span@));
                assert(t@.take(before.len() as int) =~= before);
                assert(spans_distinct(t@)) by {
                    assert forall|x: int, y: int| 0 <= x < y < t@.len() implies t@[x] != t@[y] by {
                        if y < before.len() {
                            assert(before[x] != before[y]);
                        } else {
                            assert(t@[x] == before[x]);
                            assert(t@[y] == span@);
                            if before[x] == span@ {
                                assert(before.contains(span@));
                            }
                        }
                    }
                }
                assert forall|j: int| base <= j < t@.len() implies (#[trigger] t@[j]).len()
                    >= 2 by {
                    if j < before.len() {
                        assert(t@[j] == before[j]);
                    } else {
                        assert(t@[j] == span@);
                    }
                }
                lemma_spans_composed_push(before, span@, base);
                assert forall|j: int| base <= j < t@.len() implies #[trigger] round_won(
                    t@,
                    cv,
                    j,
                ) by {
                    if j < before.len() {
                        assert(round_won(before, cv, j));
                        let (aa, bb) = choose|aa: int, bb: int|
                            #[trigger] is_winner(before.take(j), cv, aa, bb) && before[j]
                                == before.take(j)[aa].add(before.take(j)[bb]);
                        assert(t@.take(j) =~= before.take(j));
                        assert(t@[j] == before[j]);
                        assert(is_winner(t@.take(j), cv, aa, bb) && t@[j] == t@.take(j)[aa].add(
                            t@.take(j)[bb],
                        ));
                    } else {
                        let (aa, bb) = choose|aa: int, bb: int|
                            #[trigger] is_winner(before, cv, aa, bb) && span@ == before[aa].add(
                            before[bb]);
                        assert(t@.take(j) =~= before);
                        assert(t@[j] == span@);
                        assert(is_winner(t@.take(j), cv, aa, bb) && t@[j] == t@.take(j)[aa].add(
                            t@.take(j)[bb],
                        ));
                    }
                }
            }
            Ok(())
        }
    }
}

/// Runs merge rounds until the vocabulary reaches `target` tokens. Each
/// round counts adjacent segment pairs over all chunks, selects the highest-
/// count unregistered concatenation (ties to the smaller id pair), and
/// registers it under the next id, so ids grow contiguously past the ids
/// already assigned. Completed rounds stay committed even when a later
/// round fails.
pub(crate) fn build_rounds(
    t: &mut Tokenizer,
    chunks: &Vec<Vec<u32>>,
    target: usize,
) -> (r: Result<(), TokenizerError>)
    requires
        old(t).wf(),
        spans_distinct(old(t)@),
        total_chunk_len(chunks_view(chunks@)) <= usize::MAX,
    ensures
        final(t).wf(),
        spans_distinct(final(t)@),
        old(t)@.len() <= final(t)@.len(),
        final(t)@.take(old(t)@.len() as int) == old(t)@,
        forall|j: int|
            old(t)@.len() <= j < final(t)@.len() ==> (#[trigger] final(t)@[j]).len() >= 2,
        spans_composed(final(t)@, old(t)@.len() as int),
        forall|j: int|
            old(t)@.len() <= j < final(t)@.len() ==> #[trigger] round_won(
                final(t)@,
                chunks_view(chunks@),
                j,
            ),
        old(t)@.len() >= target ==> *final(t) == *old(t),
        match r {
            Ok(()) => final(t)@.len() == if old(t)@.len() >= target {
                old(t)@.len() as int
            } else {
                target as int
            },
            Err(e) => {
                &&& (e == TokenizerError::UnknownSymbol || e == TokenizerError::UnreachableTarget)
                &&& final(t)@.len() < target
                &&& (e == TokenizerError::UnknownSymbol ==> !chunks_covered(old(t)@, chunks@) && (
                exists|ci: int|
                    0 <= ci < chunks@.len() && #[trigger] encode_spec(
                        final(t)@,
                        chunks@[ci]@,
                        0,
                    ) is None))
                &&& (e == TokenizerError::UnreachableTarget ==> (forall|a: int, b: int|
                    !(#[trigger] is_candidate(final(t)@, chunks_view(chunks@), a, b))) && (
                forall|ci: int|
                    0 <= ci < chunks@.len() ==> #[trigger] encode_spec(
                        final(t)@,
                        chunks@[ci]@,
                        0,
                    ) is Some))
            },
        },
{
    let ghost cv = chunks_view(chunks@);
    proof {
        assert(t@.take(old(t)@.len() as int) =~= old(t)@);
    }
    while t.lookup.len() < target
        invariant
            t.wf(),
            spans_distinct(t@),
            old(t)@.len() <= t@.len(),
            t@.take(old(t)@.len() as int) == old(t)@,
            forall|j: int| old(t)@.len() <= j < t@.len() ==> (#[trigger] t@[j]).len() >= 2,
            spans_composed(t@, old(t)@.len() as int),
            forall|j: int|
                old(t)@.len() <= j < t@.len() ==> #[trigger] round_won(t@, cv, j),
            old(t)@.len() >= target || t@.len() <= target,
            old(t)@.len() >= target ==> *t == *old(t),
            t@.len() == t.lookup@.len(),
            chunks_covered(old(t)@, chunks@) ==> chunks_covered(t@, chunks@),
            cv == chunks_view(chunks@),
            total_chunk_len(cv) <= usize::MAX,
        decreases target - t@.len(),
    {
        let mut counts: Vec<Vec<(usize, usize)>> = Vec::new();
        let mut i: usize = 0;
        while i < t.lookup.len()
            invariant
                counts@.len() == i,
                i <= t.lookup@.len(),
                forall|x: int| 0 <= x < i ==> (#[trigger] counts@[x])@.len() == 0,
            decreases t.lookup@.len() - i,
        {
            counts.push(Vec::new());
            i += 1;
        }
        proof {
            assert(t@.len() == t.lookup@.len());
            assert(cv.take(0) =~= Seq::<Seq<u32>>::empty());
            assert forall|x: int, y: int|
                #[trigger] table_count(counts@, x, y) == chunks_pair_count(
                t@,
                cv.take(0),
                x,
                y,
            ) by {
                if 0 <= x < counts@.len() {
                    assert(counts@[x]@.len() == 0);
                }
            }
        }
        let mut ci: usize = 0;
        while ci < chunks.len()
            invariant
                t.wf(),
                spans_distinct(t@),
                old(t)@.len() <= t@.len(),
                t@.len() < target,
                t@.len() == t.lookup@.len(),
                t@.take(old(t)@.len() as int) == old(t)@,
                forall|j: int| old(t)@.len() <= j < t@.len() ==> (#[trigger] t@[j]).len() >= 2,
                spans_composed(t@, old(t)@.len() as int),
                forall|j: int|
                    old(t)@.len() <= j < t@.len() ==> #[trigger] round_won(t@, cv, j),
                chunks_covered(old(t)@, chunks@) ==> chunks_covered(t@, chunks@),
                cv == chunks_view(chunks@),
                total_chunk_len(cv) <= usize::MAX,
                ci <= chunks@.len(),
                counts@.len() == t@.len(),
                table_wf(counts@),
                forall|x: int, y: int|
                    #[trigger] table_count(counts@, x, y) == chunks_pair_count(
                        t@,
                        cv.take(ci as int),
                        x,
                        y,
                    ),
                forall|c2: int|
                    0 <= c2 < ci ==> #[trigger] encode_spec(t@, chunks@[c2]@, 0) is Some,
            decreases chunks@.len() - ci,
        {
            let chunk = &chunks[ci];
            proof {
                assert(cv[ci as int] == chunk@);
            }
            match count_chunk_table(t, chunk) {
                Err(_) => {
                    proof {
                        if chunks_covered(old(t)@, chunks@) {
                            assert(chunks_covered(t@, chunks@));
                            assert forall|k: int|
                                0 <= k < chunk@.len() implies #[trigger] span_id(
                                t@,
                                seq![chunk@[k]],
                            ) is Some by {
                                assert(chunks@[ci as int]@ == chunk@);
                                assert(span_id(t@, seq![chunks@[ci as int]@[k]]) is Some);
                            }
                            lemma_round_trip(t@, chunk@);
                            assert(false);
                        }
                        assert(encode_spec(t@, chunks@[ci as int]@, 0) is None);
                    }
                    return Err(TokenizerError::UnknownSymbol);
                }
                Ok(tab) => {
                    proof {
                        assert forall|x: int, y: int|
                            #[trigger] table_count(counts@, x, y) + table_count(tab@, x, y)
                                <= usize::MAX by {
                            lemma_chunks_pair_count_take(t@, cv, ci as int, x, y);
                            lemma_chunks_pair_count_bound(t@, cv.take(ci + 1), x, y);
                            lemma_total_chunk_len_take(cv, ci + 1);
                        }
                    }
                    merge_counts(&mut counts, &tab);
                    proof {
                        assert forall|x: int, y: int|
                            #[trigger] table_count(counts@, x, y) == chunks_pair_count(
                            t@,
                            cv.take(ci + 1),
                            x,
                            y,
                        ) by {
                            lemma_chunks_pair_count_take(t@, cv, ci as int, x, y);
                        }
                    }
                }
            }
            ci += 1;
        }
        proof {
            assert(cv.take(chunks@.len() as int) =~= cv);
        }
        let ghost pre_round = t@;
        match select_and_register(t, &counts, Ghost(cv), Ghost(old(t)@.len() as int)) {
            Err(e) => {
                proof {
                    assert forall|c2: int|
                        0 <= c2 < chunks@.len() implies #[trigger] encode_spec(
                        t@,
                        chunks@[c2]@,
                        0,
                    ) is Some by {}
                }
                return Err(e);
            }
            Ok(()) => {
                proof {
                    assert forall|i: int| 0 <= i < old(t)@.len() implies t@[i] == old(t)@[i] by {
                        assert(t@.take(pre_round.len() as int)[i] == pre_round[i]);
                        assert(pre_round.take(old(t)@.len() as int)[i] == old(t)@[i]);
                    }
                    assert(t@.take(old(t)@.len() as int) =~= old(t)@);
                    if chunks_covered(old(t)@, chunks@) {
                        assert(t@ =~= pre_round.push(t@[pre_round.len() as int]));
                        lemma_covered_push(pre_round, t@[pre_round.len() as int], chunks@);
                    }
                }
            }
        }
    }
    Ok(())
}

/// Builds a vocabulary of `target_vocabulary_size` tokens from the corpus.
/// The distinct corpus symbols become singleton tokens with ids assigned in
/// first-occurrence order; merge rounds then add one multi-symbol token each
/// until the target is reached. When the target exceeds what the corpus can
/// offer, the build fails with `UnreachableTarget`; a target at or below the
/// alphabet size returns the singleton vocabulary unchanged.
pub fn generate(input: &Vec<u32>, target_vocabulary_size: usize) -> (r: Result<
    Tokenizer,
    TokenizerError,
>)
    ensures
        match r {
            Ok(t) => {
                let alpha = dedup_spec(input@);
                &&& t.wf()
                &&& spans_distinct(t@)
                &&& t@.len() == if alpha.len() >= target_vocabulary_size {
                    alpha.len() as int
                } else {
                    target_vocabulary_size as int
                }
                &&& t@.take(alpha.len() as int) == singleton_spans(alpha)
                &&& forall|j: int|
                    dedup_spec(input@).len() <= j < t@.len() ==> (#[trigger] t@[j]).len() >= 2
                &&& spans_composed(t@, dedup_spec(input@).len() as int)
                &&& (t@.len() == 0 ==> t.children@.len() == 0)
                &&& forall|i: int|
                    0 <= i < input@.len() ==> #[trigger] span_id(t@, seq![input@[i]]) is Some
                &&& forall|j: int|
                    dedup_spec(input@).len() <= j < t@.len() ==> #[trigger] round_won(
                        t@,
                        seq![input@],
                        j,
                    )
            },
            Err(e) => {
                &&& e == TokenizerError::UnreachableTarget
                &&& dedup_spec(input@).len() < target_vocabulary_size
                &&& exists|v: Vocab|
                    {
                        &&& dedup_spec(input@).len() <= v.len() < target_vocabulary_size
                        &&& v.take(dedup_spec(input@).len() as int) == singleton_spans(
                            dedup_spec(input@),
                        )
                        &&& spans_distinct(v)
                        &&& spans_composed(v, dedup_spec(input@).len() as int)
                        &&& (forall|j: int|
                            dedup_spec(input@).len() <= j < v.len() ==> #[trigger] round_won(
                                v,
                                seq![input@],
                                j,
                            ))
                        &&& (#[trigger] encode_spec(v, input@, 0)) is Some
                        &&& (forall|a: int, b: int|
                            !(#[trigger] is_candidate(v, seq![input@], a, b)))
                    }
            },
        },
{
    let mut tokenizer = Tokenizer::default();
    let alphabet = extract_alphabet(input);
    register_alphabet(&mut tokenizer, &alphabet);
    let ghost alpha = dedup_spec(input@);
    proof {
        lemma_dedup_spec(input@);
        assert(spans_distinct(tokenizer@)) by {
            assert forall|x: int, y: int| 0 <= x < y < tokenizer@.len() implies tokenizer@[x]
                != tokenizer@[y] by {
                assert(tokenizer@[x] == seq![alpha[x]]);
                assert(tokenizer@[y] == seq![alpha[y]]);
                assert(alpha[x] != alpha[y]);
                assert(seq![alpha[x]][0] == alpha[x]);
            }
        }
    }
    let mut chunks: Vec<Vec<u32>> = Vec::new();
    chunks.push(copy_symbols(input));
    proof {
        assert(chunks@[0]@ == input@);
        assert(chunks_covered(tokenizer@, chunks@)) by {
            assert forall|ci: int, k: int|
                0 <= ci < chunks@.len() && 0 <= k < chunks@[ci]@.len() implies #[trigger] span_id(
                tokenizer@,
                seq![chunks@[ci]@[k]],
            ) is Some by {
                let c = chunks@[ci]@[k];
                assert(input@[k] == c);
                assert(input@.contains(c));
                assert(alpha.contains(c));
                let j = choose|j: int| 0 <= j < alpha.len() && alpha[j] == c;
                assert(tokenizer@[j] == seq![alpha[j]]);
                assert(tokenizer@.contains(seq![c]));
                lemma_span_id_contains(tokenizer@, seq![c]);
            }
        }
    }
    let ghost start = tokenizer@;
    proof {
        vstd::std_specs::vec::axiom_spec_len(input);
        assert(chunks_view(chunks@).len() == 1);
        assert(chunks_view(chunks@)[0] == chunks@[0]@);
        assert(chunks_view(chunks@) =~= seq![input@]);
        assert(chunks_view(chunks@).take(0) =~= Seq::<Seq<u32>>::empty());
        assert(total_chunk_len(chunks_view(chunks@)) == input@.len()) by {
            assert(chunks_view(chunks@).drop_last() =~= Seq::<Seq<u32>>::empty());
            assert(chunks_view(chunks@).last() == input@);
            assert(total_chunk_len(Seq::<Seq<u32>>::empty()) == 0);
        }
    }
    match build_rounds(&mut tokenizer, &chunks, target_vocabulary_size) {
        Ok(()) => {
            proof {
                assert(tokenizer@.take(alpha.len() as int) == singleton_spans(alpha));
                assert(chunks_view(chunks@) == seq![input@]);
                if tokenizer@.len() == 0 {
                    assert(alpha.len() == 0);
                    assert(tokenizer.children@.len() == 0);
                }
                assert forall|i: int|
                    0 <= i < input@.len() implies #[trigger] span_id(
                    tokenizer@,
                    seq![input@[i]],
                ) is Some by {
                    let c = input@[i];
                    assert(input@.contains(c));
                    assert(alpha.contains(c));
                    let j = choose|j: int| 0 <= j < alpha.len() && alpha[j] == c;
                    assert(tokenizer@.take(alpha.len() as int)[j] == tokenizer@[j]);
                    assert(tokenizer@[j] == seq![c]);
                    assert(tokenizer@.contains(seq![c]));
                    lemma_span_id_contains(tokenizer@, seq![c]);
                }
            }
            Ok(tokenizer)
        }
        Err(e) => {
            proof {
                assert(e != TokenizerError::UnknownSymbol);
                assert(start.len() == alpha.len());
                assert(chunks_view(chunks@) == seq![input@]);
                let v = tokenizer@;
                assert(encode_spec(v, input@, 0) is Some) by {
                    assert(chunks@[0]@ == input@);
                }
                assert(forall|j: int|
                    alpha.len() <= j < v.len() ==> #[trigger] round_won(v, seq![input@], j));
                assert(forall|a: int, b: int| !(#[trigger] is_candidate(v, seq![input@], a, b)));
            }
            Err(e)
        }
    }
}

} // verus!
