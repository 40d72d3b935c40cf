//! The tokenizer: a forest of trie roots (one per first symbol) together
//! with the lookup table from token id to the exact symbol span that token
//! stands for. The lookup table is the sole source of truth for decoding;
//! it is updated at every registration, keeping encode and decode mutually
//! inverse.

use vstd::prelude::*;

use crate::TokenizerError;
use crate::model::{
    best_len_upto, decode_spec, encode_spec, ids_view, lemma_best_len_upto, lemma_span_id,
    lemma_span_id_push, span_id, step_spec, Vocab,
};
use crate::node::{
    kids_all_wf, kids_at, kids_distinct, kids_has, lemma_cons_eq, lemma_kids_all_wf_build,
    lemma_kids_all_wf_index, lemma_kids_at, lemma_walk_best, Node,
};

verus! {

/// The token id registered for path `s` in the root forest.
pub open spec fn forest_get(roots: Seq<Node>, s: Seq<u32>) -> Option<int> {
    if s.len() == 0 {
        None
    } else if kids_has(roots, s[0]) {
        kids_at(roots, s[0]).get_at(s.drop_first())
    } else {
        None
    }
}

/// The forest-level greedy walk: dispatch on the root matching `input[from]`
/// and walk down from it.
pub open spec fn forest_walk(roots: Seq<Node>, input: Seq<u32>, from: int) -> Option<(int, int)> {
    if from < input.len() && kids_has(roots, input[from]) {
        kids_at(roots, input[from]).walk_best(input, from + 1)
    } else {
        None
    }
}

/// Under the link invariant, one forest-level walk step finds exactly the
/// longest registered prefix of `input[from..]`, id and length included.
pub proof fn lemma_forest_step(roots: Seq<Node>, vocab: Vocab, input: Seq<u32>, from: int)
    requires
        kids_distinct(roots),
        kids_all_wf(roots),
        forall|s: Seq<u32>| #[trigger] forest_get(roots, s) == span_id(vocab, s),
        0 <= from < input.len(),
    ensures
        match forest_walk(roots, input, from) {
            Some(r) => {
                &&& from < r.1 <= input.len()
                &&& step_spec(vocab, input, from) == Some((r.0, r.1 - from))
                &&& 0 <= r.0 < vocab.len()
            },
            None => step_spec(vocab, input, from) is None,
        },
{
    let bound = input.len() - from;
    lemma_best_len_upto(vocab, input, from, bound);
    if kids_has(roots, input[from]) {
        let i = choose|i: int| 0 <= i < roots.len() && roots[i].byte_value == input[from];
        lemma_kids_at(roots, i, input[from]);
        lemma_kids_all_wf_index(roots, i);
        let c = kids_at(roots, input[from]);
        assert(c.wf());
        lemma_walk_best(c, input, from + 1);
        assert forall|l: int| 1 <= l <= bound implies #[trigger] span_id(
            vocab,
            input.subrange(from, from + l),
        ) == c.get_at(input.subrange(from + 1, from + l)) by {
            let s = input.subrange(from, from + l);
            assert(s.len() == l >= 1);
            assert(s[0] == input[from]);
            assert(s.drop_first() =~= input.subrange(from + 1, from + l));
            assert(forest_get(roots, s) == c.get_at(s.drop_first()));
        }
        match c.walk_best(input, from + 1) {
            Some(r) => {
                let lstar = r.1 - from;
                assert(1 <= lstar <= bound);
                assert(input.subrange(from + 1, from + lstar) == input.subrange(from + 1, r.1));
                assert(span_id(vocab, input.subrange(from, from + lstar)) == Some(r.0));
                assert forall|l: int| lstar < l <= bound implies #[trigger] span_id(
                    vocab,
                    input.subrange(from, from + l),
                ) is None by {
                    assert(c.get_at(input.subrange(from + 1, from + l)) is None);
                }
                match best_len_upto(vocab, input, from, bound) {
                    None => {
                        assert(false);
                    }
                    Some(l2) => {
                        if l2 < lstar {
                            assert(span_id(vocab, input.subrange(from, from + lstar)) is None);
                            assert(false);
                        }
                        if l2 > lstar {
                            assert(span_id(vocab, input.subrange(from, from + l2)) is None);
                            assert(false);
                        }
                    }
                }
                lemma_span_id(vocab, input.subrange(from, from + lstar));
            }
            None => {
                assert forall|l: int| 1 <= l <= bound implies #[trigger] span_id(
                    vocab,
                    input.subrange(from, from + l),
                ) is None by {
                    assert(c.get_at(input.subrange(from + 1, from + l)) is None);
                }
                match best_len_upto(vocab, input, from, bound) {
                    Some(l2) => {
                        assert(false);
                    }
                    None => {}
                }
            }
        }
    } else {
        assert forall|l: int| 1 <= l <= bound implies #[trigger] span_id(
            vocab,
            input.subrange(from, from + l),
        ) is None by {
            let s = input.subrange(from, from + l);
            assert(s.len() == l >= 1);
            assert(s[0] == input[from]);
            assert(forest_get(roots, s) == None::<int>);
        }
        match best_len_upto(vocab, input, from, bound) {
            Some(l2) => {
                assert(false);
            }
            None => {}
        }
    }
}

/// A fresh copy of a symbol vector.
pub(crate) fn copy_symbols(v: &Vec<u32>) -> (r: Vec<u32>)
    ensures
        r@ == v@,
{
    let mut r: Vec<u32> = Vec::new();
    let mut i: usize = 0;
    while i < v.len()
        invariant
            i <= v@.len(),
            r@ == v@.take(i as int),
        decreases v@.len() - i,
    {
        r.push(v[i]);
        proof {
            assert(v@.take(i + 1) =~= v@.take(i as int).push(v@[i as int]));
        }
        i += 1;
    }
    proof {
        assert(v@.take(v@.len() as int) =~= v@);
    }
    r
}

/// The tokenizer owns the trie roots and the token id lookup table.
pub struct Tokenizer {
    /// The root-level trie nodes, keyed by first symbol.
    pub children: Vec<Node>,
    /// For each token id (the index), the exact symbol span it stands for.
    pub lookup: Vec<Vec<u32>>,
}

impl View for Tokenizer {
    type V = Vocab;

    /// The vocabulary this tokenizer realises: one span per token id.
    open spec fn view(&self) -> Vocab {
        self.lookup@.map_values(|v: Vec<u32>| v@)
    }
}

impl Tokenizer {
    /// Well-formed: the forest is a valid trie and agrees, path for path,
    /// with the lookup table; every registered span is non-empty.
    pub open spec fn wf(self) -> bool {
        &&& kids_distinct(self.children@)
        &&& kids_all_wf(self.children@)
        &&& forall|s: Seq<u32>| #[trigger] forest_get(self.children@, s) == span_id(self@, s)
        &&& forall|i: int| 0 <= i < self@.len() ==> (#[trigger] self@[i]).len() >= 1
    }

    /// An empty tokenizer: no trie roots, no registered tokens.
    pub fn default() -> (r: Self)
        ensures
            r.wf(),
            r@ == Seq::<Seq<u32>>::empty(),
            r.children@.len() == 0,
    {
        let r = Tokenizer { children: Vec::new(), lookup: Vec::new() };
        proof {
            assert(r@ =~= Seq::<Seq<u32>>::empty());
            assert forall|s: Seq<u32>| #[trigger] forest_get(r.children@, s) == span_id(r@, s) by {
                if s.len() > 0 {
                    assert(!kids_has(r.children@, s[0]));
                }
            }
        }
        r
    }

    /// Index of the root carrying symbol `c`, if any.
    fn find_root(&self, c: u32) -> (r: Option<usize>)
        ensures
            match r {
                Some(i) => i < self.children@.len() && self.children@[i as int].byte_value == c,
                None => !kids_has(self.children@, c),
            },
    {
        let mut i: usize = 0;
        while i < self.children.len()
            invariant
                i <= self.children@.len(),
                forall|j: int| 0 <= j < i ==> self.children@[j].byte_value != c,
            decreases self.children@.len() - i,
        {
            if self.children[i].byte_value == c {
                return Some(i);
            }
            i += 1;
        }
        None
    }

    /// Registers `token` as the token with id `token_value`, which must be
    /// the next unused id: the lookup table grows by the span and the trie
    /// gains the path, so the new vocabulary is the old one plus this span.
    pub fn register(&mut self, token: &Vec<u32>, token_value: usize)
        requires
            old(self).wf(),
            token@.len() >= 1,
            token_value == old(self)@.len(),
        ensures
            final(self).wf(),
            final(self)@ == old(self)@.push(token@),
    {
        let ghost old_vocab = old(self)@;
        let ghost old_roots = old(self).children@;
        self.lookup.push(copy_symbols(token));
        proof {
            assert(self@ =~= old_vocab.push(token@)) by {
                assert forall|i: int| 0 <= i < self@.len() implies self@[i] == old_vocab.push(
                    token@,
                )[i] by {
                    if i < old_vocab.len() {
                        assert(self.lookup@[i] == old(self).lookup@[i]);
                    }
                }
            }
        }
        let first = token[0];
        match self.find_root(first) {
            Some(i) => {
                proof {
                    lemma_kids_at(old_roots, i as int, first);
                    lemma_kids_all_wf_index(old_roots, i as int);
                }
                self.children[i].register(token, 0, token_value);
                proof {
                    let kids = self.children@;
                    let child = kids[i as int];
                    assert(kids =~= old_roots.update(i as int, child));
                    assert(child.byte_value == first);
                    assert(kids_distinct(kids)) by {
                        assert forall|p: int, q: int|
                            0 <= p < q < kids.len() implies kids[p].byte_value
                            != kids[q].byte_value by {
                            assert(old_roots[p].byte_value != old_roots[q].byte_value);
                        }
                    }
                    assert forall|j: int| 0 <= j < kids.len() implies (#[trigger] kids[j]).wf() by {
                        if j != i {
                            assert(kids[j] == old_roots[j]);
                            lemma_kids_all_wf_index(old_roots, j);
                        }
                    }
                    lemma_kids_all_wf_build(kids);
                    assert(token@.skip(1int) =~= token@.drop_first());
                    assert forall|s: Seq<u32>| #[trigger] forest_get(kids, s) == span_id(
                        self@,
                        s,
                    ) by {
                        lemma_span_id_push(old_vocab, token@, s);
                        if s.len() == 0 {
                            assert(s != token@);
                        } else if s[0] == first {
                            lemma_kids_at(kids, i as int, first);
                            lemma_kids_at(old_roots, i as int, first);
                            assert(forest_get(kids, s) == child.get_at(s.drop_first()));
                            if s == token@ {
                                assert(s.drop_first() == token@.drop_first());
                                assert(forest_get(kids, s) == Some(token_value as int));
                            } else {
                                assert(s.drop_first() != token@.drop_first()) by {
                                    if s.drop_first() == token@.drop_first() {
                                        lemma_cons_eq(s, token@);
                                    }
                                }
                                assert(forest_get(kids, s) == forest_get(old_roots, s));
                            }
                        } else {
                            assert(s != token@);
                            if kids_has(old_roots, s[0]) {
                                let j = choose|j: int|
                                    0 <= j < old_roots.len() && old_roots[j].byte_value == s[0];
                                assert(j != i);
                                assert(kids[j] == old_roots[j]);
                                lemma_kids_at(kids, j, s[0]);
                                lemma_kids_at(old_roots, j, s[0]);
                                assert(forest_get(kids, s) == forest_get(old_roots, s));
                            } else {
                                assert(!kids_has(kids, s[0])) by {
                                    if kids_has(kids, s[0]) {
                                        let j = choose|j: int|
                                            0 <= j < kids.len() && kids[j].byte_value == s[0];
                                        assert(j != i);
                                        assert(old_roots[j].byte_value == s[0]);
                                    }
                                }
                            }
                        }
                    }
                }
            }
            None => {
                let node = Node::new(token, 0, token_value);
                self.children.push(node);
                proof {
                    let kids = self.children@;
                    let n = old_roots.len() as int;
                    assert(kids =~= old_roots.push(node));
                    assert(kids[n] == node);
                    assert(node.byte_value == first);
                    assert(kids_distinct(kids)) by {
                        assert forall|p: int, q: int|
                            0 <= p < q < kids.len() implies kids[p].byte_value
                            != kids[q].byte_value by {
                            if q < n {
                                assert(old_roots[p].byte_value != old_roots[q].byte_value);
                            } else {
                                assert(kids[p] == old_roots[p]);
                                assert(!kids_has(old_roots, first));
                            }
                        }
                    }
                    assert forall|j: int| 0 <= j < kids.len() implies (#[trigger] kids[j]).wf() by {
                        if j < n {
                            assert(kids[j] == old_roots[j]);
                            lemma_kids_all_wf_index(old_roots, j);
                        }
                    }
                    lemma_kids_all_wf_build(kids);
                    assert(token@.skip(1int) =~= token@.drop_first());
                    assert forall|s: Seq<u32>| #[trigger] forest_get(kids, s) == span_id(
                        self@,
                        s,
                    ) by {
                        lemma_span_id_push(old_vocab, token@, s);
                        if s.len() == 0 {
                            assert(s != token@);
                        } else if s[0] == first {
                            lemma_kids_at(kids, n, first);
                            assert(forest_get(kids, s) == node.get_at(s.drop_first()));
                            assert(!kids_has(old_roots, s[0]));
                            assert(forest_get(old_roots, s) == None::<int>);
                            if s == token@ {
                                assert(s.drop_first() == token@.drop_first());
                                assert(forest_get(kids, s) == Some(token_value as int));
                            } else {
                                assert(s.drop_first() != token@.drop_first()) by {
                                    if s.drop_first() == token@.drop_first() {
                                        lemma_cons_eq(s, token@);
                                    }
                                }
                                assert(forest_get(kids, s) == None::<int>);
                            }
                        } else {
                            assert(s != token@);
                            if kids_has(old_roots, s[0]) {
                                let j = choose|j: int|
                                    0 <= j < old_roots.len() && old_roots[j].byte_value == s[0];
                                assert(kids[j] == old_roots[j]);
                                lemma_kids_at(kids, j, s[0]);
                                lemma_kids_at(old_roots, j, s[0]);
                                assert(forest_get(kids, s) == forest_get(old_roots, s));
                            } else {
                                assert(!kids_has(kids, s[0])) by {
                                    if kids_has(kids, s[0]) {
                                        let j = choose|j: int|
                                            0 <= j < kids.len() && kids[j].byte_value == s[0];
                                        if j < n {
                                            assert(old_roots[j].byte_value == s[0]);
                                        }
                                    }
                                }
                            }
                        }
                    }
                }
            }
        }
    }

    /// One greedy step without writing any output: the token covering the
    /// longest registered prefix of `buffer[pointer..]`, and the position
    /// just past it. `None` when no registered span starts there.
    pub fn tokenize_item_no_write(&self, buffer: &Vec<u32>, pointer: usize) -> (r: Option<
        (usize, usize),
    >)
        requires
            self.wf(),
            pointer < buffer@.len(),
        ensures
            match r {
                Some(p) => {
                    &&& pointer < p.1 <= buffer@.len()
                    &&& step_spec(self@, buffer@, pointer as int) == Some(
                        (p.0 as int, p.1 - pointer as int),
                    )
                    &&& p.0 < self@.len()
                },
                None => step_spec(self@, buffer@, pointer as int) is None,
            },
    {
        proof {
            vstd::std_specs::vec::axiom_spec_len(buffer);
            lemma_forest_step(self.children@, self@, buffer@, pointer as int);
        }
        match self.find_root(buffer[pointer]) {
            Some(i) => {
                proof {
                    lemma_kids_at(self.children@, i as int, buffer@[pointer as int]);
                    lemma_kids_all_wf_index(self.children@, i as int);
                }
                self.children[i].tokenize(buffer, pointer + 1)
            }
            None => None,
        }
    }

    /// Encodes the whole buffer: greedy left-to-right segmentation into
    /// maximal trie-matching spans, one token id per span. On a position
    /// where no registered span starts, fails with `UnknownSymbol` and
    /// produces no output.
    pub fn tokenize(&self, read_buffer: &Vec<u32>) -> (r: Result<Vec<usize>, TokenizerError>)
        requires
            self.wf(),
        ensures
            match r {
                Ok(ids) => encode_spec(self@, read_buffer@, 0) == Some(ids_view(ids@)),
                Err(e) => e == TokenizerError::UnknownSymbol && encode_spec(
                    self@,
                    read_buffer@,
                    0,
                ) is None,
            },
    {
        let mut write_buffer: Vec<usize> = Vec::new();
        let mut pointer: usize = 0;
        proof {
            assert(ids_view(write_buffer@) =~= Seq::<int>::empty());
        }
        while pointer < read_buffer.len()
            invariant
                self.wf(),
                pointer <= read_buffer@.len(),
                encode_spec(self@, read_buffer@, 0) == (match encode_spec(
                    self@,
                    read_buffer@,
                    pointer as int,
                ) {
                    Some(rest) => Some(ids_view(write_buffer@) + rest),
                    None => None::<Seq<int>>,
                }),
            decreases read_buffer@.len() - pointer,
        {
            match self.tokenize_item_no_write(read_buffer, pointer) {
                None => {
                    proof {
                        assert(encode_spec(self@, read_buffer@, pointer as int) is None);
                    }
                    return Err(TokenizerError::UnknownSymbol);
                }
                Some(p) => {
                    let ghost before = write_buffer@;
                    write_buffer.push(p.0);
                    proof {
                        let v = self@;
                        let input = read_buffer@;
                        let here = pointer as int;
                        assert(step_spec(v, input, here) == Some((p.0 as int, p.1 - here)));
                        assert(encode_spec(v, input, here) == (match encode_spec(
                            v,
                            input,
                            p.1 as int,
                        ) {
                            Some(rest) => Some(seq![p.0 as int] + rest),
                            None => None::<Seq<int>>,
                        }));
                        assert(ids_view(write_buffer@) =~= ids_view(before).push(p.0 as int));
                        match encode_spec(v, input, p.1 as int) {
                            Some(rest) => {
                                assert(ids_view(before) + (seq![p.0 as int] + rest) =~= ids_view(
                                    write_buffer@,
                                ) + rest);
                            }
                            None => {}
                        }
                    }
                    pointer = p.1;
                }
            }
        }
        proof {
            assert(encode_spec(self@, read_buffer@, pointer as int) == Some(Seq::<int>::empty()));
            assert(ids_view(write_buffer@) + Seq::<int>::empty() =~= ids_view(write_buffer@));
        }
        Ok(write_buffer)
    }

    /// Decodes token ids back into symbols by concatenating, in order, the
    /// span recorded for each id. On an id with no lookup entry, fails with
    /// `UnknownTokenId` and produces no output.
    pub fn detokenize(&self, read_buffer: &Vec<usize>) -> (r: Result<Vec<u32>, TokenizerError>)
        ensures
            match r {
                Ok(syms) => decode_spec(self@, ids_view(read_buffer@)) == Some(syms@),
                Err(e) => e == TokenizerError::UnknownTokenId && decode_spec(
                    self@,
                    ids_view(read_buffer@),
                ) is None,
            },
    {
        let ghost ids = ids_view(read_buffer@);
        let mut write_buffer: Vec<u32> = Vec::new();
        let mut i: usize = 0;
        proof {
            assert(ids.skip(0) =~= ids);
        }
        while i < read_buffer.len()
            invariant
                i <= read_buffer@.len(),
                ids == ids_view(read_buffer@),
                decode_spec(self@, ids) == (match decode_spec(self@, ids.skip(i as int)) {
                    Some(rest) => Some(write_buffer@ + rest),
                    None => None::<Seq<u32>>,
                }),
            decreases read_buffer@.len() - i,
        {
            let id = read_buffer[i];
            let ghost tail = ids.skip(i as int);
            proof {
                assert(tail.len() == ids.len() - i >= 1);
                assert(tail.first() == ids[i as int] == id as int);
                assert(tail.drop_first() =~= ids.skip(i + 1));
                assert(self@.len() == self.lookup@.len());
            }
            if id < self.lookup.len() {
                let ghost before = write_buffer@;
                let span = &self.lookup[id];
                let mut k: usize = 0;
                while k < span.len()
                    invariant
                        k <= span@.len(),
                        write_buffer@ == before + span@.take(k as int),
                        span@ == self.lookup@[id as int]@,
                        id < self.lookup@.len(),
                    decreases span@.len() - k,
                {
                    write_buffer.push(span[k]);
                    proof {
                        assert(span@.take(k + 1) =~= span@.take(k as int).push(span@[k as int]));
                        assert(before + span@.take(k + 1) =~= (before + span@.take(k as int)).push(
                            span@[k as int],
                        ));
                    }
                    k += 1;
                }
                proof {
                    assert(span@.take(span@.len() as int) =~= span@);
                    assert(self@[id as int] == span@);
                    assert(decode_spec(self@, tail) == (match decode_spec(self@, ids.skip(i + 1)) {
                        Some(rest) => Some(self@[id as int] + rest),
                        None => None::<Seq<u32>>,
                    }));
                    match decode_spec(self@, ids.skip(i + 1)) {
                        Some(rest) => {
                            assert(before + (span@ + rest) =~= write_buffer@ + rest);
                        }
                        None => {}
                    }
                }
                i += 1;
            } else {
                proof {
                    assert(!(0 <= tail.first() < self@.len()));
                    assert(decode_spec(self@, tail) is None);
                }
                return Err(TokenizerError::UnknownTokenId);
            }
        }
        proof {
            assert(ids.skip(i as int) =~= Seq::<int>::empty());
            assert(decode_spec(self@, ids.skip(i as int)) == Some(Seq::<u32>::empty()));
            assert(write_buffer@ + Seq::<u32>::empty() =~= write_buffer@);
        }
        Ok(write_buffer)
    }

    /// Whether `span` is registered, that is, carries a token id in the trie.
    pub fn contains_span(&self, span: &Vec<u32>) -> (r: bool)
        requires
            self.wf(),
            span@.len() >= 1,
        ensures
            r == (span_id(self@, span@) is Some),
    {
        match self.find_root(span[0]) {
            None => {
                proof {
                    assert(forest_get(self.children@, span@) == None::<int>);
                }
                false
            }
            Some(i) => {
                proof {
                    lemma_kids_at(self.children@, i as int, span@[0]);
                    lemma_kids_all_wf_index(self.children@, i as int);
                    assert(span@.skip(1) =~= span@.drop_first());
                }
                let r = self.children[i].get(span, 1);
                proof {
                    assert(forest_get(self.children@, span@) == self.children@[i as int].get_at(
                        span@.drop_first(),
                    ));
                }
                r.is_some()
            }
        }
    }
}

} // verus!
