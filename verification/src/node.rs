//! The prefix-trie node.
//!
//! Every registered multi-symbol token is stored as a chain of nodes, one
//! node per symbol of its span; the node at the final symbol carries the
//! token id. Nodes created only as intermediate path segments carry no id
//! (`token_value` is `None`) until some registration ends at them.

use vstd::prelude::*;

verus! {

/// One position along a registered token's symbol path.
pub struct Node {
    /// The symbol at this position of the path.
    pub byte_value: u32,
    /// The id of the registered token ending here, if any.
    pub token_value: Option<usize>,
    /// The child nodes, one per distinct continuation symbol.
    pub children: Vec<Node>,
}

/// The children of a node carry pairwise distinct symbols.
pub open spec fn kids_distinct(kids: Seq<Node>) -> bool {
    forall|i: int, j: int| 0 <= i < j < kids.len() ==> kids[i].byte_value != kids[j].byte_value
}

/// Some child carries symbol `c`.
pub open spec fn kids_has(kids: Seq<Node>, c: u32) -> bool {
    exists|i: int| 0 <= i < kids.len() && kids[i].byte_value == c
}

/// The child carrying symbol `c` (meaningful under `kids_has`).
pub open spec fn kids_at(kids: Seq<Node>, c: u32) -> Node {
    kids[choose|i: int| 0 <= i < kids.len() && kids[i].byte_value == c]
}

/// Every node of `kids` is well-formed.
pub open spec fn kids_all_wf(kids: Seq<Node>) -> bool
    decreases kids,
{
    kids.len() == 0 || (kids.first().wf() && kids_all_wf(kids.drop_first()))
}

/// Each element of an all-well-formed child sequence is well-formed.
pub proof fn lemma_kids_all_wf_index(kids: Seq<Node>, i: int)
    requires
        kids_all_wf(kids),
        0 <= i < kids.len(),
    ensures
        kids[i].wf(),
    decreases kids.len(),
{
    if i > 0 {
        lemma_kids_all_wf_index(kids.drop_first(), i - 1);
        assert(kids.drop_first()[i - 1] == kids[i]);
    }
}

/// A child sequence whose every element is well-formed is all-well-formed.
pub proof fn lemma_kids_all_wf_build(kids: Seq<Node>)
    requires
        forall|i: int| 0 <= i < kids.len() ==> (#[trigger] kids[i]).wf(),
    ensures
        kids_all_wf(kids),
    decreases kids.len(),
{
    if kids.len() > 0 {
        assert(kids[0].wf());
        assert forall|i: int| 0 <= i < kids.drop_first().len() implies (#[trigger] kids.drop_first()[i]).wf() by {
            assert(kids.drop_first()[i] == kids[i + 1]);
        }
        lemma_kids_all_wf_build(kids.drop_first());
    }
}

/// Two sequences with the same first element and the same rest are equal.
pub proof fn lemma_cons_eq(s: Seq<u32>, t: Seq<u32>)
    requires
        s.len() >= 1,
        t.len() >= 1,
        s[0] == t[0],
        s.drop_first() == t.drop_first(),
    ensures
        s == t,
{
    assert(s.drop_first().len() == s.len() - 1);
    assert(t.drop_first().len() == t.len() - 1);
    assert(s.len() == t.len());
    assert forall|i: int| 0 <= i < s.len() implies s[i] == t[i] by {
        if i > 0 {
            assert(s.drop_first()[i - 1] == s[i]);
            assert(t.drop_first()[i - 1] == t[i]);
        }
    }
    assert(s =~= t);
}

/// With distinct child symbols, the child found at index `i` is the child
/// that `kids_at` denotes.
pub proof fn lemma_kids_at(kids: Seq<Node>, i: int, c: u32)
    requires
        kids_distinct(kids),
        0 <= i < kids.len(),
        kids[i].byte_value == c,
    ensures
        kids_has(kids, c),
        kids_at(kids, c) == kids[i],
{
    assert(kids_has(kids, c));
    let j = choose|j: int| 0 <= j < kids.len() && kids[j].byte_value == c;
    if j != i {
        if j < i {
            assert(kids[j].byte_value != kids[i].byte_value);
        } else {
            assert(kids[i].byte_value != kids[j].byte_value);
        }
    }
}

/// The shape `Node::new` builds below a node: one node per remaining symbol
/// of `suffix`, each intermediate carrying no token and exactly one child,
/// the terminal carrying `tv` and no children.
pub open spec fn is_chain(n: Node, suffix: Seq<u32>, tv: usize) -> bool
    decreases suffix.len(),
{
    if suffix.len() == 0 {
        n.token_value == Some(tv) && n.children@.len() == 0
    } else {
        n.token_value is None && n.children@.len() == 1 && n.children@[0].byte_value == suffix[0]
            && is_chain(n.children@[0], suffix.drop_first(), tv)
    }
}

impl Node {
    /// Well-formed: children carry pairwise distinct symbols, recursively.
    pub open spec fn wf(self) -> bool
        decreases self,
    {
        kids_distinct(self.children@) && kids_all_wf(self.children@)
    }

    /// The token id registered at relative path `s` below this node; the
    /// empty path denotes this node itself.
    pub open spec fn get_at(self, s: Seq<u32>) -> Option<int>
        decreases s.len(),
    {
        if s.len() == 0 {
            match self.token_value {
                Some(t) => Some(t as int),
                None => None,
            }
        } else if kids_has(self.children@, s[0]) {
            kids_at(self.children@, s[0]).get_at(s.drop_first())
        } else {
            None
        }
    }

    /// The greedy walk from this node: the token at the deepest token-bearing
    /// node on the unique chain matching `input[from..]`, as
    /// `(token id, next position)`.
    pub open spec fn walk_best(self, input: Seq<u32>, from: int) -> Option<(int, int)>
        decreases input.len() - from,
    {
        let deeper = if from < input.len() && kids_has(self.children@, input[from]) {
            kids_at(self.children@, input[from]).walk_best(input, from + 1)
        } else {
            None
        };
        match deeper {
            Some(r) => Some(r),
            None => match self.token_value {
                Some(t) => Some((t as int, from)),
                None => None,
            },
        }
    }

    /// Index of the child carrying symbol `c`, if any.
    fn find_child(&self, c: u32) -> (r: Option<usize>)
        ensures
            match r {
                Some(i) => i < self.children@.len() && self.children@[i as int].byte_value == c,
                None => !kids_has(self.children@, c),
            },
    {
        let mut i: usize = 0;
        while i < self.children.len()
            invariant
                i <= self.children@.len(),
                forall|j: int| 0 <= j < i ==> self.children@[j].byte_value != c,
            decreases self.children@.len() - i,
        {
            if self.children[i].byte_value == c {
                return Some(i);
            }
            i += 1;
        }
        None
    }

    /// Builds the chain of nodes for `path[from..]`, ending at a node that
    /// carries `token_value`.
    pub fn new(path: &Vec<u32>, from: usize, token_value: usize) -> (r: Node)
        requires
            from < path@.len(),
        ensures
            r.wf(),
            r.byte_value == path@[from as int],
            is_chain(r, path@.skip(from + 1), token_value),
            forall|s: Seq<u32>|
                #[trigger] r.get_at(s) == if s == path@.skip(from + 1) {
                    Some(token_value as int)
                } else {
                    None::<int>
                },
        decreases path@.len() - from,
    {
        if from == path.len() - 1 {
            let r = Node { byte_value: path[from], token_value: Some(token_value), children: Vec::new() };
            proof {
                assert(path@.skip(from + 1) =~= Seq::<u32>::empty());
                assert forall|s: Seq<u32>|
                    #[trigger] r.get_at(s) == if s == path@.skip(from + 1) {
                        Some(token_value as int)
                    } else {
                        None::<int>
                    } by {
                    if s.len() == 0 {
                        assert(s =~= path@.skip(from + 1));
                    } else {
                        assert(!kids_has(r.children@, s[0]));
                        assert(s != path@.skip(from + 1));
                    }
                }
            }
            r
        } else {
            let child = Node::new(path, from + 1, token_value);
            let mut children: Vec<Node> = Vec::new();
            children.push(child);
            let r = Node { byte_value: path[from], token_value: None, children };
            proof {
                assert(r.children@ =~= seq![child]);
                assert(r.children@[0] == child);
                assert(path@.skip(from + 1).drop_first() =~= path@.skip(from + 2));
                assert(is_chain(r, path@.skip(from + 1), token_value));
                assert forall|i: int| 0 <= i < r.children@.len() implies (#[trigger] r.children@[i]).wf() by {}
                lemma_kids_all_wf_build(r.children@);
                assert(r.wf());
                assert forall|s: Seq<u32>|
                    #[trigger] r.get_at(s) == if s == path@.skip(from + 1) {
                        Some(token_value as int)
                    } else {
                        None::<int>
                    } by {
                    let suffix = path@.skip(from + 1);
                    assert(suffix.len() == path@.len() - (from + 1) >= 1);
                    assert(suffix[0] == path@[from + 1]);
                    if s.len() == 0 {
                        assert(s != suffix);
                    } else if s[0] == child.byte_value {
                        lemma_kids_at(r.children@, 0, s[0]);
                        assert(r.get_at(s) == child.get_at(s.drop_first()));
                        assert(suffix.drop_first() =~= path@.skip(from + 2));
                        if s.drop_first() == path@.skip(from + 2) {
                            lemma_cons_eq(s, suffix);
                            assert(r.get_at(s) == Some(token_value as int));
                        } else {
                            assert(s != suffix);
                            assert(r.get_at(s) == None::<int>);
                        }
                    } else {
                        assert(!kids_has(r.children@, s[0])) by {
                            if kids_has(r.children@, s[0]) {
                                let i = choose|i: int|
                                    0 <= i < r.children@.len() && r.children@[i].byte_value == s[0];
                                assert(i == 0);
                            }
                        }
                        assert(s != suffix);
                    }
                }
            }
            r
        }
    }

    /// Ensures the chain for `path[from..]` exists below this node and sets
    /// the token id on the node at the final symbol; an id already there is
    /// overwritten. All other paths keep their ids.
    pub fn register(&mut self, path: &Vec<u32>, from: usize, token_value: usize)
        requires
            old(self).wf(),
            from < path@.len(),
            old(self).byte_value == path@[from as int],
        ensures
            final(self).wf(),
            final(self).byte_value == old(self).byte_value,
            forall|s: Seq<u32>|
                #[trigger] final(self).get_at(s) == if s == path@.skip(from + 1) {
                    Some(token_value as int)
                } else {
                    old(self).get_at(s)
                },
        decreases path@.len() - from,
    {
        if from == path.len() - 1 {
            self.token_value = Some(token_value);
            proof {
                assert(path@.skip(from + 1) =~= Seq::<u32>::empty());
                assert forall|s: Seq<u32>|
                    #[trigger] final(self).get_at(s) == if s == path@.skip(from + 1) {
                        Some(token_value as int)
                    } else {
                        old(self).get_at(s)
                    } by {
                    if s.len() == 0 {
                        assert(s =~= path@.skip(from + 1));
                    } else {
                        assert(s != path@.skip(from + 1));
                        assert(final(self).children@ == old(self).children@);
                    }
                }
            }
        } else {
            let next_sym = path[from + 1];
            let ghost suffix = path@.skip(from + 1);
            proof {
                assert(suffix.len() == path@.len() - (from + 1) >= 1);
                assert(suffix[0] == path@[from + 1]);
                assert(suffix.drop_first() =~= path@.skip(from + 2));
            }
            match self.find_child(next_sym) {
                Some(i) => {
                    let ghost old_kids = self.children@;
                    let ghost old_child = self.children@[i as int];
                    proof {
                        lemma_kids_at(old_kids, i as int, next_sym);
                        lemma_kids_all_wf_index(old_kids, i as int);
                    }
                    self.children[i].register(path, from + 1, token_value);
                    proof {
                        let kids = self.children@;
                        let child = kids[i as int];
                        assert(kids =~= old_kids.update(i as int, child));
                        assert(child.byte_value == next_sym);
                        assert(kids_distinct(kids)) by {
                            assert forall|p: int, q: int|
                                0 <= p < q < kids.len() implies kids[p].byte_value
                                != kids[q].byte_value by {
                                assert(old_kids[p].byte_value != old_kids[q].byte_value);
                            }
                        }
                        assert forall|j: int| 0 <= j < kids.len() implies (#[trigger] kids[j]).wf() by {
                            if j != i {
                                assert(kids[j] == old_kids[j]);
                                lemma_kids_all_wf_index(old_kids, j);
                            }
                        }
                        lemma_kids_all_wf_build(kids);
                        assert forall|s: Seq<u32>|
                            #[trigger] self.get_at(s) == if s == suffix {
                                Some(token_value as int)
                            } else {
                                old(self).get_at(s)
                            } by {
                            if s.len() == 0 {
                                assert(s != suffix);
                                assert(self.get_at(s) == old(self).get_at(s));
                            } else if s[0] == next_sym {
                                lemma_kids_at(kids, i as int, next_sym);
                                lemma_kids_at(old_kids, i as int, next_sym);
                                assert(self.get_at(s) == child.get_at(s.drop_first()));
                                assert(old(self).get_at(s) == old_child.get_at(s.drop_first()));
                                if s == suffix {
                                    assert(s.drop_first() == path@.skip(from + 2));
                                    assert(self.get_at(s) == Some(token_value as int));
                                } else {
                                    assert(s.drop_first() != path@.skip(from + 2)) by {
                                        if s.drop_first() == path@.skip(from + 2) {
                                            lemma_cons_eq(s, suffix);
                                        }
                                    }
                                    assert(child.get_at(s.drop_first()) == old_child.get_at(
                                        s.drop_first(),
                                    ));
                                }
                            } else {
                                assert(s != suffix);
                                if kids_has(old_kids, s[0]) {
                                    let j = choose|j: int|
                                        0 <= j < old_kids.len() && old_kids[j].byte_value == s[0];
                                    assert(j != i);
                                    assert(kids[j] == old_kids[j]);
                                    lemma_kids_at(kids, j, s[0]);
                                    lemma_kids_at(old_kids, j, s[0]);
                                    assert(self.get_at(s) == old(self).get_at(s));
                                } else {
                                    assert(!kids_has(kids, s[0])) by {
                                        if kids_has(kids, s[0]) {
                                            let j = choose|j: int|
                                                0 <= j < kids.len() && kids[j].byte_value == s[0];
                                            assert(j != i);
                                            assert(old_kids[j].byte_value == s[0]);
                                        }
                                    }
                                }
                            }
                        }
                    }
                }
                None => {
                    let ghost old_kids = self.children@;
                    let child = Node::new(path, from + 1, token_value);
                    self.children.push(child);
                    proof {
                        let kids = self.children@;
                        assert(kids =~= old_kids.push(child));
                        let n = old_kids.len() as int;
                        assert(kids[n] == child);
                        assert(child.byte_value == next_sym);
                        assert(kids_distinct(kids)) by {
                            assert forall|p: int, q: int|
                                0 <= p < q < kids.len() implies kids[p].byte_value
                                != kids[q].byte_value by {
                                if q < n {
                                    assert(old_kids[p].byte_value != old_kids[q].byte_value);
                                } else {
                                    assert(kids[p] == old_kids[p]);
                                    assert(!kids_has(old_kids, next_sym));
                                }
                            }
                        }
                        assert forall|j: int| 0 <= j < kids.len() implies (#[trigger] kids[j]).wf() by {
                            if j < n {
                                assert(kids[j] == old_kids[j]);
                                lemma_kids_all_wf_index(old_kids, j);
                            }
                        }
                        lemma_kids_all_wf_build(kids);
                        assert forall|s: Seq<u32>|
                            #[trigger] self.get_at(s) == if s == suffix {
                                Some(token_value as int)
                            } else {
                                old(self).get_at(s)
                            } by {
                            if s.len() == 0 {
                                assert(s != suffix);
                            } else if s[0] == next_sym {
                                lemma_kids_at(kids, n, next_sym);
                                assert(self.get_at(s) == child.get_at(s.drop_first()));
                                assert(!kids_has(old_kids, s[0]));
                                assert(old(self).get_at(s) == None::<int>);
                                if s == suffix {
                                    assert(s.drop_first() == path@.skip(from + 2));
                                    assert(self.get_at(s) == Some(token_value as int));
                                } else {
                                    assert(s.drop_first() != path@.skip(from + 2)) by {
                                        if s.drop_first() == path@.skip(from + 2) {
                                            lemma_cons_eq(s, suffix);
                                        }
                                    }
                                    assert(self.get_at(s) == None::<int>);
                                }
                            } else {
                                assert(s != suffix);
                                if kids_has(old_kids, s[0]) {
                                    let j = choose|j: int|
                                        0 <= j < old_kids.len() && old_kids[j].byte_value == s[0];
                                    assert(kids[j] == old_kids[j]);
                                    lemma_kids_at(kids, j, s[0]);
                                    lemma_kids_at(old_kids, j, s[0]);
                                    assert(self.get_at(s) == old(self).get_at(s));
                                } else {
                                    assert(!kids_has(kids, s[0])) by {
                                        if kids_has(kids, s[0]) {
                                            let j = choose|j: int|
                                                0 <= j < kids.len() && kids[j].byte_value == s[0];
                                            if j < n {
                                                assert(old_kids[j].byte_value == s[0]);
                                            }
                                        }
                                    }
                                }
                            }
                        }
                    }
                }
            }
        }
    }

    /// Looks up the token id registered at relative path `path[from..]`
    /// below this node.
    pub fn get(&self, path: &Vec<u32>, from: usize) -> (r: Option<usize>)
        requires
            self.wf(),
            from <= path@.len(),
        ensures
            match r {
                Some(t) => self.get_at(path@.skip(from as int)) == Some(t as int),
                None => self.get_at(path@.skip(from as int)) is None,
            },
        decreases path@.len() - from,
    {
        proof {
            assert(path@.skip(from as int).len() == path@.len() - from);
        }
        if from == path.len() {
            proof {
                assert(path@.skip(from as int) =~= Seq::<u32>::empty());
            }
            self.token_value
        } else {
            let ghost s = path@.skip(from as int);
            proof {
                assert(s[0] == path@[from as int]);
                assert(s.drop_first() =~= path@.skip(from + 1));
            }
            match self.find_child(path[from]) {
                None => {
                    proof {
                        assert(!kids_has(self.children@, s[0]));
                    }
                    None
                }
                Some(i) => {
                    proof {
                        lemma_kids_at(self.children@, i as int, path@[from as int]);
                        lemma_kids_all_wf_index(self.children@, i as int);
                    }
                    self.children[i].get(path, from + 1)
                }
            }
        }
    }

    /// The greedy, non-backtracking walk: follow matching children as far as
    /// the trie permits, then emit the token id found at the deepest
    /// token-bearing node reached, together with the position just past the
    /// symbols that token covers.
    pub fn tokenize(&self, read_buffer: &Vec<u32>, pointer: usize) -> (r: Option<(usize, usize)>)
        requires
            self.wf(),
            pointer <= read_buffer@.len(),
        ensures
            match r {
                Some(p) => self.walk_best(read_buffer@, pointer as int) == Some(
                    (p.0 as int, p.1 as int),
                ) && pointer <= p.1 <= read_buffer@.len(),
                None => self.walk_best(read_buffer@, pointer as int) is None,
            },
        decreases read_buffer@.len() - pointer,
    {
        let deeper: Option<(usize, usize)> = if pointer < read_buffer.len() {
            match self.find_child(read_buffer[pointer]) {
                Some(i) => {
                    proof {
                        lemma_kids_at(self.children@, i as int, read_buffer@[pointer as int]);
                        lemma_kids_all_wf_index(self.children@, i as int);
                    }
                    self.children[i].tokenize(read_buffer, pointer + 1)
                }
                None => None,
            }
        } else {
            None
        };
        match deeper {
            Some(r) => Some(r),
            None => match self.token_value {
                Some(t) => Some((t, pointer)),
                None => None,
            },
        }
    }
}

/// What the greedy walk finds: the longest relative path that both prefixes
/// `input[from..]` and carries a token id; every longer prefix carries none.
pub proof fn lemma_walk_best(n: Node, input: Seq<u32>, from: int)
    requires
        n.wf(),
        0 <= from <= input.len(),
    ensures
        match n.walk_best(input, from) {
            Some(r) => {
                &&& from <= r.1 <= input.len()
                &&& n.get_at(input.subrange(from, r.1)) == Some(r.0)
                &&& forall|k: int|
                    r.1 < k <= input.len() ==> #[trigger] n.get_at(input.subrange(from, k)) is None
            },
            None => forall|k: int|
                from <= k <= input.len() ==> #[trigger] n.get_at(input.subrange(from, k)) is None,
        },
    decreases input.len() - from,
{
    assert(input.subrange(from, from) =~= Seq::<u32>::empty());
    if from < input.len() && kids_has(n.children@, input[from]) {
        let c = kids_at(n.children@, input[from]);
        assert(c.wf()) by {
            let i = choose|i: int|
                0 <= i < n.children@.len() && n.children@[i].byte_value == input[from];
            lemma_kids_all_wf_index(n.children@, i);
        }
        lemma_walk_best(c, input, from + 1);
        assert forall|k: int| from < k <= input.len() implies n.get_at(input.subrange(from, k))
            == c.get_at(input.subrange(from + 1, k)) by {
            let s = input.subrange(from, k);
            assert(s.len() == k - from >= 1);
            assert(s[0] == input[from]);
            assert(s.drop_first() =~= input.subrange(from + 1, k));
        }
        match c.walk_best(input, from + 1) {
            Some(r) => {
                assert(n.walk_best(input, from) == Some(r));
                assert(n.get_at(input.subrange(from, r.1)) == Some(r.0));
            }
            None => {
                assert forall|k: int|
                    from < k <= input.len() implies #[trigger] n.get_at(
                    input.subrange(from, k),
                ) is None by {
                    assert(c.get_at(input.subrange(from + 1, k)) is None);
                }
                match n.token_value {
                    Some(t) => {
                        assert(n.walk_best(input, from) == Some((t as int, from)));
                        assert(n.get_at(input.subrange(from, from)) == Some(t as int));
                    }
                    None => {
                        assert(n.walk_best(input, from) is None);
                        assert(n.get_at(input.subrange(from, from)) is None);
                    }
                }
            }
        }
    } else {
        assert forall|k: int|
            from < k <= input.len() implies #[trigger] n.get_at(input.subrange(from, k)) is None by {
            let s = input.subrange(from, k);
            assert(s.len() >= 1);
            assert(s[0] == input[from]);
            assert(!kids_has(n.children@, s[0]));
        }
        match n.token_value {
            Some(t) => {
                assert(n.walk_best(input, from) == Some((t as int, from)));
                assert(n.get_at(input.subrange(from, from)) == Some(t as int));
            }
            None => {
                assert(n.walk_best(input, from) is None);
            }
        }
    }
}

} // verus!
