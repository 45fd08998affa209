//! A byte trie: the set of words that a constrained slot may hold.

use vstd::prelude::*;

verus! {

/// One node: its children by byte, and whether a word ends here.
struct TrieNode {
    children: Vec<(u8, usize)>,
    is_terminal: bool,
}

/// A set of words, walked byte by byte.
pub struct Trie {
    nodes: Vec<TrieNode>,
    /// The word that leads to each node.
    words: Ghost<Seq<Seq<u8>>>,
}

/// `w` is a prefix of `of`.
pub open spec fn prefix_of(w: Seq<u8>, of: Seq<u8>) -> bool {
    w.len() <= of.len() && of.take(w.len() as int) == w
}

/// `w` can still become a word of `set`; the empty word always can.
pub open spec fn reachable(set: Set<Seq<u8>>, w: Seq<u8>) -> bool {
    w.len() == 0 || exists|word: Seq<u8>| #[trigger] set.contains(word) && prefix_of(w, word)
}

impl View for Trie {
    type V = Set<Seq<u8>>;

    /// The words that were inserted.
    closed spec fn view(&self) -> Set<Seq<u8>> {
        Set::new(
            |w: Seq<u8>|
                exists|i: int|
                    0 <= i < self.nodes@.len() && self.words@[i] == w && (
                    #[trigger] self.nodes@[i]).is_terminal,
        )
    }
}

impl Trie {
    /// How many nodes there are; nodes are numbered from 0, the root.
    pub closed spec fn size(&self) -> nat {
        self.nodes@.len()
    }

    /// The word that leads to a node.
    pub closed spec fn word(&self, node: int) -> Seq<u8> {
        self.words@[node]
    }

    /// The node that a word leads to, if any.
    pub open spec fn node_at(&self, w: Seq<u8>) -> Option<int> {
        if exists|n: int| 0 <= n < self.size() && #[trigger] self.word(n) == w {
            Some(choose|n: int| 0 <= n < self.size() && #[trigger] self.word(n) == w)
        } else {
            None
        }
    }

    /// The node that `bytes` lead to from `node`, if any.
    pub open spec fn walk(&self, node: int, bytes: Seq<u8>) -> Option<int> {
        self.node_at(self.word(node) + bytes)
    }

    /// Node `i` has `c` for its child on byte `b`.
    spec fn edge(&self, i: int, b: u8, c: int) -> bool {
        exists|k: int|
            0 <= k < self.nodes@[i].children@.len() && #[trigger] self.nodes@[i].children@[k] == (
                b,
                c as usize,
            )
    }

    /// Some node is reached by `w`.
    spec fn has_node(&self, w: Seq<u8>) -> bool {
        exists|n: int| 0 <= n < self.nodes@.len() && #[trigger] self.words@[n] == w
    }

    #[verifier::opaque]
    spec fn tree(&self) -> bool {
        &&& self.nodes@.len() >= 1
        &&& self.words@.len() == self.nodes@.len()
        &&& self.words@[0] == Seq::<u8>::empty()
        &&& forall|i: int, j: int|
            0 <= i < j < self.words@.len() ==> #[trigger] self.words@[i] != #[trigger] self.words@[j]
        &&& forall|i: int, k: int|
            #![trigger self.nodes@[i].children@[k]]
            0 <= i < self.nodes@.len() && 0 <= k < self.nodes@[i].children@.len() ==> {
                let (b, c) = self.nodes@[i].children@[k];
                &&& i < c < self.nodes@.len()
                &&& self.words@[c as int] == self.words@[i].push(b)
            }
        &&& forall|c: int|
            0 < c < self.words@.len() ==> (#[trigger] self.words@[c]).len() > 0 && exists|i: int|
                0 <= i < c && self.words@[i] == self.words@[c].drop_last() && #[trigger] self.edge(
                    i,
                    self.words@[c].last(),
                    c,
                )
    }

    #[verifier::opaque]
    spec fn live(&self) -> bool {
        forall|i: int|
            0 <= i < self.words@.len() ==> reachable(self@, #[trigger] self.words@[i])
    }

    /// Every node is the end of one path from the root, and lies on the way to
    /// a word.
    pub closed spec fn wf(&self) -> bool {
        self.tree() && self.live()
    }

    pub fn new() -> (trie: Trie)
        ensures
            trie.wf(),
            trie@ == Set::<Seq<u8>>::empty(),
            trie.size() == 1,
            trie.word(0) == Seq::<u8>::empty(),
    {
        let mut nodes: Vec<TrieNode> = Vec::new();
        nodes.push(TrieNode { children: Vec::new(), is_terminal: false });
        let ghost root = seq![Seq::<u8>::empty()];
        let trie = Trie { nodes, words: Ghost(root) };
        proof {
            reveal(Trie::tree);
            reveal(Trie::live);
        }
        assert(trie@ =~= Set::<Seq<u8>>::empty());
        trie
    }

    /// The child of `node` on byte `b`.
    fn child(&self, node: usize, b: u8) -> (c: Option<usize>)
        requires
            self.tree(),
            node < self.nodes@.len(),
        ensures
            match c {
                Some(n) => n < self.nodes@.len() && self.words@[n as int]
                    == self.words@[node as int].push(b),
                None => !self.has_node(self.words@[node as int].push(b)),
            },
    {
        proof {
            reveal(Trie::tree);
        }
        let list = &self.nodes[node].children;
        let mut k: usize = 0;
        while k < list.len()
            invariant
                self.tree(),
                node < self.nodes@.len(),
                *list == self.nodes@[node as int].children,
                k <= list@.len(),
                forall|j: int| 0 <= j < k ==> (#[trigger] list@[j]).0 != b,
            decreases list.len() - k,
        {
            if list[k].0 == b {
                proof {
                    reveal(Trie::tree);
                }
                assert(self.nodes@[node as int].children@[k as int] == list@[k as int]);
                return Some(list[k].1);
            }
            k = k + 1;
        }
        proof {
            let w = self.words@[node as int].push(b);
            if self.has_node(w) {
                let n = choose|n: int| 0 <= n < self.nodes@.len() && #[trigger] self.words@[n] == w;
                assert(w.drop_last() =~= self.words@[node as int]);
                let i = self.lemma_parent(n);
                self.lemma_same_word(i, node as int);
                let k = choose|k: int|
                    0 <= k < self.nodes@[i].children@.len()
                        && #[trigger] self.nodes@[i].children@[k] == (
                        self.words@[n].last(),
                        n as usize,
                    );
                assert(list@[k].0 == b);
            }
        }
        None
    }

    /// Walk `bytes` from `node`. `None` where that leads out of the trie, so
    /// that no word continues this way.
    pub fn advance(&self, node: usize, bytes: &[u8]) -> (r: Option<usize>)
        requires
            self.wf(),
            node < self.size(),
        ensures
            match r {
                Some(n) => {
                    &&& n < self.size()
                    &&& self.word(n as int) == self.word(node as int) + bytes@
                    &&& reachable(self@, self.word(node as int) + bytes@)
                    &&& self.walk(node as int, bytes@) == Some(n as int)
                },
                None => {
                    &&& !reachable(self@, self.word(node as int) + bytes@)
                    &&& self.walk(node as int, bytes@) is None
                },
            },
    {
        let mut cur: usize = node;
        let mut i: usize = 0;
        assert(self.word(node as int) + bytes@.take(0) =~= self.word(node as int));
        while i < bytes.len()
            invariant
                self.wf(),
                cur < self.nodes@.len(),
                i <= bytes@.len(),
                self.words@[cur as int] == self.word(node as int) + bytes@.take(i as int),
            decreases bytes.len() - i,
        {
            let ghost next = self.words@[cur as int].push(bytes@[i as int]);
            assert(next =~= self.word(node as int) + bytes@.take(i + 1));
            match self.child(cur, bytes[i]) {
                Some(n) => {
                    cur = n;
                },
                None => {
                    proof {
                        let all = self.word(node as int) + bytes@;
                        assert(all.take(next.len() as int) =~= next);
                        self.lemma_no_way(next, all);
                        words_with_a_node_are_reachable(self, all);
                    }
                    return None;
                },
            }
            i = i + 1;
        }
        assert(bytes@.take(i as int) =~= bytes@);
        proof {
            self.lemma_live(cur as int);
            a_word_leads_to_one_node(self, cur as int);
        }
        Some(cur)
    }

    /// Every node lies on the way to a word.
    proof fn lemma_live(&self, n: int)
        requires
            self.wf(),
            0 <= n < self.nodes@.len(),
        ensures
            reachable(self@, self.words@[n]),
    {
        reveal(Trie::live);
        reveal(Trie::tree);
    }

    /// Where `next` leads to no node, no word starts with it.
    proof fn lemma_no_way(&self, next: Seq<u8>, all: Seq<u8>)
        requires
            self.wf(),
            next.len() > 0,
            !self.has_node(next),
            prefix_of(next, all),
        ensures
            !reachable(self@, all),
    {
        if reachable(self@, all) {
            let w = choose|w: Seq<u8>| #[trigger] self@.contains(w) && prefix_of(all, w);
            assert(w.take(next.len() as int) =~= next) by {
                assert forall|k: int| 0 <= k < next.len() implies w[k] == next[k] by {
                    assert(w.take(all.len() as int)[k] == all[k]);
                    assert(all.take(next.len() as int)[k] == next[k]);
                }
            }
            let at = choose|at: int|
                0 <= at < self.nodes@.len() && self.words@[at] == w && (
                #[trigger] self.nodes@[at]).is_terminal;
            let n = self.lemma_prefixes_are_nodes(at, next.len());
            assert(self.words@[n] == next);
        }
    }

    /// The parent of a node whose word is not empty.
    proof fn lemma_parent(&self, n: int) -> (i: int)
        requires
            self.tree(),
            0 <= n < self.nodes@.len(),
            self.words@[n].len() > 0,
        ensures
            0 <= i < n,
            self.words@[i] == self.words@[n].drop_last(),
            self.edge(i, self.words@[n].last(), n),
    {
        reveal(Trie::tree);
        choose|i: int|
            0 <= i < n && self.words@[i] == self.words@[n].drop_last() && #[trigger] self.edge(
                i,
                self.words@[n].last(),
                n,
            )
    }

    /// Nodes are told apart by their words.
    proof fn lemma_same_word(&self, i: int, j: int)
        requires
            self.tree(),
            0 <= i < self.nodes@.len(),
            0 <= j < self.nodes@.len(),
            self.words@[i] == self.words@[j],
        ensures
            i == j,
    {
        reveal(Trie::tree);
        if i < j {
            assert(self.words@[i] != self.words@[j]);
        } else if j < i {
            assert(self.words@[j] != self.words@[i]);
        }
    }

    /// Every prefix of a node's word is a node's word.
    proof fn lemma_prefixes_are_nodes(&self, at: int, len: nat) -> (n: int)
        requires
            self.tree(),
            0 <= at < self.nodes@.len(),
            len <= self.words@[at].len(),
        ensures
            0 <= n <= at,
            self.words@[n] == self.words@[at].take(len as int),
        decreases at,
    {
        let w = self.words@[at];
        if len == w.len() {
            assert(w.take(len as int) =~= w);
            at
        } else {
            let i = self.lemma_parent(at);
            let n = self.lemma_prefixes_are_nodes(i, len);
            assert(self.words@[i].take(len as int) =~= w.take(len as int));
            n
        }
    }

    /// Whether a word ends at `node`.
    pub fn is_terminal(&self, node: usize) -> (yes: bool)
        requires
            self.wf(),
            node < self.size(),
        ensures
            yes == self@.contains(self.word(node as int)),
    {
        proof {
            let w = self.words@[node as int];
            if self@.contains(w) {
                let i = choose|i: int|
                    0 <= i < self.nodes@.len() && self.words@[i] == w && (
                    #[trigger] self.nodes@[i]).is_terminal;
                self.lemma_same_word(i, node as int);
            }
            if self.nodes@[node as int].is_terminal {
                assert(self@.contains(w));
            }
        }
        self.nodes[node].is_terminal
    }

    /// Hang a new node under `cur` on byte `b`.
    fn add_child(&mut self, cur: usize, b: u8) -> (n: usize)
        requires
            old(self).tree(),
            cur < old(self).nodes@.len(),
            !old(self).has_node(old(self).words@[cur as int].push(b)),
        ensures
            final(self).tree(),
            n == old(self).nodes@.len(),
            final(self).nodes@.len() == old(self).nodes@.len() + 1,
            final(self).words@ == old(self).words@.push(old(self).words@[cur as int].push(b)),
            forall|i: int|
                0 <= i < old(self).nodes@.len() ==> (#[trigger] final(self).nodes@[i]).is_terminal
                    == old(self).nodes@[i].is_terminal,
            !final(self).nodes@[n as int].is_terminal,
    {
        let ghost before = *self;
        let ghost w = self.words@[cur as int].push(b);
        let n: usize = self.nodes.len();
        self.nodes.push(TrieNode { children: Vec::new(), is_terminal: false });
        self.nodes[cur].children.push((b, n));
        proof {
            self.words@ = self.words@.push(w);
        }
        proof {
            reveal(Trie::tree);
            assert(self.nodes@[cur as int].children@ == before.nodes@[cur as int].children@.push(
                (b, n),
            ));
            assert forall|i: int| 0 <= i < before.nodes@.len() && i != cur implies
                #[trigger] self.nodes@[i] == before.nodes@[i] by {}
            assert forall|i: int, j: int| 0 <= i < j < self.words@.len() implies
                #[trigger] self.words@[i] != #[trigger] self.words@[j] by {
                if j == n {
                    assert(before.words@[i] == self.words@[i]);
                    if self.words@[i] == w {
                        assert(before.has_node(w));
                    }
                } else {
                    assert(before.words@[i] != before.words@[j]);
                }
            }
            assert forall|i: int, k: int|
                #![trigger self.nodes@[i].children@[k]]
                0 <= i < self.nodes@.len() && 0 <= k < self.nodes@[i].children@.len() implies {
                let (b, c) = self.nodes@[i].children@[k];
                &&& i < c < self.nodes@.len()
                &&& self.words@[c as int] == self.words@[i].push(b)
            } by {
                if i < n {
                    if i == cur && k == before.nodes@[i].children@.len() {
                    } else {
                        assert(self.nodes@[i].children@[k] == before.nodes@[i].children@[k]);
                        let (b0, c0) = before.nodes@[i].children@[k];
                        assert(before.words@[c0 as int] == before.words@[i].push(b0));
                    }
                }
            }
            assert forall|c: int| 0 < c < self.words@.len() implies (#[trigger] self.words@[c]).len()
                > 0 && exists|i: int|
                0 <= i < c && self.words@[i] == self.words@[c].drop_last() && #[trigger] self.edge(
                    i,
                    self.words@[c].last(),
                    c,
                ) by {
                if c == n {
                    assert(w.drop_last() =~= self.words@[cur as int]);
                    assert(self.nodes@[cur as int].children@[before.nodes@[cur as int].children@.len()
                        as int] == (b, n));
                    assert(self.edge(cur as int, w.last(), c));
                } else {
                    assert(before.words@[c] == self.words@[c]);
                    let i = before.lemma_parent(c);
                    let k = choose|k: int|
                        0 <= k < before.nodes@[i].children@.len()
                            && #[trigger] before.nodes@[i].children@[k] == (
                            before.words@[c].last(),
                            c as usize,
                        );
                    assert(self.nodes@[i].children@[k] == before.nodes@[i].children@[k]);
                    assert(self.edge(i, self.words@[c].last(), c));
                }
            }
        }
        n
    }

    /// Add a word.
    pub fn insert(&mut self, s: &[u8])
        requires
            old(self).wf(),
        ensures
            final(self).wf(),
            final(self)@ == old(self)@.insert(s@),
            final(self).size() >= old(self).size(),
            forall|i: int|
                0 <= i < old(self).size() ==> #[trigger] final(self).word(i) == old(self).word(i),
    {
        let ghost before = *self;
        let ghost n0 = self.nodes@.len();
        let mut cur: usize = 0;
        let mut i: usize = 0;
        proof {
            reveal(Trie::tree);
            assert(s@.take(0) =~= Seq::<u8>::empty());
        }
        while i < s.len()
            invariant
                self.tree(),
                i <= s@.len(),
                cur < self.nodes@.len(),
                n0 == before.nodes@.len(),
                before.words@.len() == n0,
                n0 <= self.nodes@.len(),
                self.words@.len() == self.nodes@.len(),
                self.words@[cur as int] == s@.take(i as int),
                forall|k: int| 0 <= k < n0 ==> #[trigger] self.words@[k] == before.words@[k],
                forall|k: int|
                    0 <= k < n0 ==> (#[trigger] self.nodes@[k]).is_terminal
                        == before.nodes@[k].is_terminal,
                forall|k: int|
                    n0 <= k < self.nodes@.len() ==> !(#[trigger] self.nodes@[k]).is_terminal,
                forall|k: int|
                    n0 <= k < self.words@.len() ==> prefix_of(#[trigger] self.words@[k], s@),
            decreases s.len() - i,
        {
            let b: u8 = s[i];
            proof {
                assert(s@.take(i as int).push(b) =~= s@.take(i + 1));
                assert(s@.take(i + 1).len() == i + 1);
            }
            let next = self.child(cur, b);
            cur = match next {
                Some(n) => n,
                None => self.add_child(cur, b),
            };
            i = i + 1;
        }
        assert(s@.take(i as int) =~= s@);
        let ghost mid = *self;
        self.nodes[cur].is_terminal = true;
        proof {
            self.lemma_marked(&mid, cur as int);
            assert forall|w: Seq<u8>| self@.contains(w) <==> before@.insert(s@).contains(w) by {
                if self@.contains(w) {
                    let at = choose|at: int|
                        0 <= at < self.nodes@.len() && self.words@[at] == w && (
                        #[trigger] self.nodes@[at]).is_terminal;
                    if at != cur {
                        assert(mid.nodes@[at].is_terminal);
                        assert(at < n0);
                        assert(before.nodes@[at].is_terminal);
                        assert(before@.contains(w));
                    }
                }
                if before@.contains(w) {
                    let at = choose|at: int|
                        0 <= at < before.nodes@.len() && before.words@[at] == w && (
                        #[trigger] before.nodes@[at]).is_terminal;
                    assert(mid.nodes@[at].is_terminal);
                    assert(self.nodes@[at].is_terminal);
                    assert(self.words@[at] == w);
                }
                if w == s@ {
                    assert(self.nodes@[cur as int].is_terminal);
                }
            }
            assert(self@ =~= before@.insert(s@));
            assert(self.live()) by {
                reveal(Trie::live);
                assert forall|k: int| 0 <= k < self.words@.len() implies reachable(
                    self@,
                    #[trigger] self.words@[k],
                ) by {
                    if k < n0 {
                        before.lemma_live(k);
                        assert(self.words@[k] == before.words@[k]);
                        if self.words@[k].len() > 0 {
                            let word = choose|word: Seq<u8>| #[trigger]
                                before@.contains(word) && prefix_of(before.words@[k], word);
                            assert(self@.contains(word));
                        }
                    } else {
                        assert(self@.contains(s@));
                        assert(prefix_of(self.words@[k], s@));
                    }
                }
            }
        }
    }

    /// Marking a node as the end of a word leaves the shape alone.
    proof fn lemma_marked(&self, mid: &Trie, cur: int)
        requires
            mid.tree(),
            0 <= cur < mid.nodes@.len(),
            self.words == mid.words,
            self.nodes@.len() == mid.nodes@.len(),
            forall|i: int|
                0 <= i < mid.nodes@.len() ==> (#[trigger] self.nodes@[i]).children
                    == mid.nodes@[i].children,
        ensures
            self.tree(),
    {
        reveal(Trie::tree);
        assert forall|i: int, k: int|
            #![trigger self.nodes@[i].children@[k]]
            0 <= i < self.nodes@.len() && 0 <= k < self.nodes@[i].children@.len() implies {
            let (b, c) = self.nodes@[i].children@[k];
            &&& i < c < self.nodes@.len()
            &&& self.words@[c as int] == self.words@[i].push(b)
        } by {
            assert(self.nodes@[i].children@[k] == mid.nodes@[i].children@[k]);
        }
        assert forall|c: int| 0 < c < self.words@.len() implies (#[trigger] self.words@[c]).len()
            > 0 && exists|i: int|
            0 <= i < c && self.words@[i] == self.words@[c].drop_last() && #[trigger] self.edge(
                i,
                self.words@[c].last(),
                c,
            ) by {
            assert(mid.words@[c].len() > 0);
            let i = mid.lemma_parent(c);
            let k = choose|k: int|
                0 <= k < mid.nodes@[i].children@.len() && #[trigger] mid.nodes@[i].children@[k] == (
                    mid.words@[c].last(),
                    c as usize,
                );
            assert(self.nodes@[i].children@[k] == mid.nodes@[i].children@[k]);
            assert(self.edge(i, self.words@[c].last(), c));
        }
    }

    /// The ids of the tokens that can be walked from `node`.
    pub fn valid_next_tokens(&self, node: usize, vocab: &[(u32, Vec<u8>)]) -> (ids: Vec<u32>)
        requires
            self.wf(),
            node < self.size(),
        ensures
            ids@ == walkable(self@, self.word(node as int), vocab@),
    {
        let mut ids: Vec<u32> = Vec::new();
        let mut i: usize = 0;
        while i < vocab.len()
            invariant
                self.wf(),
                node < self.size(),
                i <= vocab@.len(),
                ids@ == walkable(self@, self.word(node as int), vocab@.take(i as int)),
            decreases vocab.len() - i,
        {
            proof {
                assert(vocab@.take(i + 1).drop_last() =~= vocab@.take(i as int));
                assert(vocab@.take(i + 1).last() == vocab@[i as int]);
            }
            match self.advance(node, &vocab[i].1) {
                Some(_) => {
                    ids.push(vocab[i].0);
                },
                None => {},
            }
            i = i + 1;
        }
        assert(vocab@.take(i as int) =~= vocab@);
        ids
    }
}

/// A word leads to one node only.
pub proof fn a_word_leads_to_one_node(t: &Trie, node: int)
    requires
        t.wf(),
        0 <= node < t.size(),
    ensures
        t.node_at(t.word(node)) == Some(node),
{
    let w = t.word(node);
    let n = choose|n: int| 0 <= n < t.size() && #[trigger] t.word(n) == w;
    assert(t.word(n) == w);
    t.lemma_same_word(n, node);
}

/// The words that lead to a node are those that can still become an inserted
/// word. The empty one leads to the root.
pub proof fn words_with_a_node_are_reachable(t: &Trie, w: Seq<u8>)
    requires
        t.wf(),
    ensures
        t.node_at(w) is Some <==> reachable(t@, w),
        t.node_at(w) matches Some(n) ==> 0 <= n < t.size() && t.word(n) == w,
        t.size() > 0,
        t.word(0) == Seq::<u8>::empty(),
        t.node_at(Seq::empty()) == Some(0int),
{
    reveal(Trie::tree);
    a_word_leads_to_one_node(t, 0);
    if t.node_at(w) is Some {
        let n = choose|n: int| 0 <= n < t.size() && #[trigger] t.word(n) == w;
        t.lemma_live(n);
    } else if w.len() > 0 {
        if t.has_node(w) {
            let n = choose|n: int| 0 <= n < t.nodes@.len() && #[trigger] t.words@[n] == w;
            assert(t.word(n) == w);
        }
        assert(w.take(w.len() as int) =~= w);
        t.lemma_no_way(w, w);
    } else {
        assert(w =~= Seq::<u8>::empty());
    }
}

/// Walking nothing stays at the node.
pub proof fn walking_nothing_stays(t: &Trie, node: int)
    requires
        t.wf(),
        0 <= node < t.size(),
    ensures
        t.walk(node, Seq::empty()) == Some(node),
{
    assert(t.word(node) + Seq::<u8>::empty() =~= t.word(node));
    a_word_leads_to_one_node(t, node);
}

/// Walking in two steps is walking at once.
pub proof fn walking_in_two_steps(t: &Trie, node: int, a: Seq<u8>, b: Seq<u8>)
    requires
        t.wf(),
        0 <= node < t.size(),
    ensures
        t.walk(node, a + b) == match t.walk(node, a) {
            Some(m) => t.walk(m, b),
            None => None,
        },
{
    let first = t.word(node) + a;
    let all = t.word(node) + (a + b);
    assert(first + b =~= all);
    words_with_a_node_are_reachable(t, first);
    words_with_a_node_are_reachable(t, all);
    if t.walk(node, a) is None && reachable(t@, all) {
        let word = choose|word: Seq<u8>| #[trigger] t@.contains(word) && prefix_of(all, word);
        assert(word.take(first.len() as int) =~= first) by {
            assert forall|k: int| 0 <= k < first.len() implies word[k] == first[k] by {
                assert(word.take(all.len() as int)[k] == all[k]);
            }
        }
        assert(prefix_of(first, word));
    }
}

/// An insert adds the prefixes of its word to the words that can be walked, and
/// its word to those that end; every earlier word leads where it led before.
/// Inserting a word again changes nothing. `after` is the trie behind
/// [`Trie::insert`] of `s`.
pub proof fn an_insert_keeps_earlier_nodes(before: &Trie, after: &Trie, s: Seq<u8>, w: Seq<u8>)
    requires
        before.wf(),
        after.wf(),
        after@ == before@.insert(s),
        after.size() >= before.size(),
        forall|i: int| 0 <= i < before.size() ==> #[trigger] after.word(i) == before.word(i),
    ensures
        after.node_at(w) is Some <==> before.node_at(w) is Some || prefix_of(w, s),
        after@.contains(w) <==> before@.contains(w) || w == s,
        before.node_at(w) is Some ==> after.node_at(w) == before.node_at(w),
        before@.contains(s) ==> after@ == before@ && after.size() == before.size(),
{
    words_with_a_node_are_reachable(before, w);
    words_with_a_node_are_reachable(after, w);
    if reachable(before@, w) && w.len() > 0 {
        let word = choose|word: Seq<u8>| #[trigger] before@.contains(word) && prefix_of(w, word);
        assert(after@.contains(word));
    }
    if prefix_of(w, s) {
        assert(after@.contains(s));
    }
    if reachable(after@, w) && w.len() > 0 && !prefix_of(w, s) {
        let word = choose|word: Seq<u8>| #[trigger] after@.contains(word) && prefix_of(w, word);
        assert(before@.contains(word));
    }
    match before.node_at(w) {
        Some(n) => {
            assert(after.word(n) == w);
            a_word_leads_to_one_node(after, n);
        },
        None => {},
    }
    if before@.contains(s) {
        assert(after@ =~= before@);
        if after.size() > before.size() {
            let n = before.size() as int;
            let extra = after.word(n);
            a_word_leads_to_one_node(after, n);
            words_with_a_node_are_reachable(after, extra);
            words_with_a_node_are_reachable(before, extra);
            let m = before.node_at(extra)->0;
            assert(after.word(m) == extra);
            a_word_leads_to_one_node(after, m);
        }
    }
}

/// The ids of the tokens that may follow `w`, in the order of the vocabulary.
pub open spec fn walkable(set: Set<Seq<u8>>, w: Seq<u8>, vocab: Seq<(u32, Vec<u8>)>) -> Seq<u32>
    decreases vocab.len(),
{
    if vocab.len() == 0 {
        Seq::empty()
    } else {
        let before = walkable(set, w, vocab.drop_last());
        if reachable(set, w + vocab.last().1@) {
            before.push(vocab.last().0)
        } else {
            before
        }
    }
}

/// A token may follow exactly where some inserted word goes on with its bytes.
pub proof fn a_token_may_follow_where_a_word_goes_on(
    set: Set<Seq<u8>>,
    w: Seq<u8>,
    vocab: Seq<(u32, Vec<u8>)>,
    id: u32,
)
    requires
        forall|k: int| 0 <= k < vocab.len() ==> (#[trigger] vocab[k]).1@.len() > 0,
    ensures
        walkable(set, w, vocab).contains(id) <==> exists|k: int, rest: Seq<u8>|
            #![trigger vocab[k], rest.len()]
            0 <= k < vocab.len() && vocab[k].0 == id && set.contains(w + vocab[k].1@ + rest),
    decreases vocab.len(),
{
    let all = walkable(set, w, vocab);
    if vocab.len() > 0 {
        let front = vocab.drop_last();
        let n = vocab.len() - 1;
        let before = walkable(set, w, front);
        assert forall|k: int| 0 <= k < front.len() implies (#[trigger] front[k]).1@.len() > 0 by {
            assert(front[k] == vocab[k]);
        }
        a_token_may_follow_where_a_word_goes_on(set, w, front, id);
        let text = w + vocab[n].1@;
        assert(vocab[n].1@.len() > 0);
        if all.contains(id) {
            let j = choose|j: int| 0 <= j < all.len() && all[j] == id;
            if j < before.len() {
                assert(before[j] == id);
                assert(before.contains(id));
                let (k, rest) = choose|k: int, rest: Seq<u8>|
                    #![trigger front[k], rest.len()]
                    0 <= k < front.len() && front[k].0 == id && set.contains(
                        w + front[k].1@ + rest,
                    );
                assert(front[k] == vocab[k]);
                assert(rest.len() >= 0);
            } else {
                let word = choose|word: Seq<u8>| #[trigger]
                    set.contains(word) && prefix_of(text, word);
                let rest = word.skip(text.len() as int);
                assert(text + rest =~= word);
                assert(vocab[n].0 == id && rest.len() >= 0);
            }
        }
        if exists|k: int, rest: Seq<u8>|
            #![trigger vocab[k], rest.len()]
            0 <= k < vocab.len() && vocab[k].0 == id && set.contains(w + vocab[k].1@ + rest) {
            let (k, rest) = choose|k: int, rest: Seq<u8>|
                #![trigger vocab[k], rest.len()]
                0 <= k < vocab.len() && vocab[k].0 == id && set.contains(w + vocab[k].1@ + rest);
            if k < n {
                assert(front[k] == vocab[k]);
                assert(front[k].0 == id && rest.len() >= 0);
                assert(before.contains(id));
                let j = choose|j: int| 0 <= j < before.len() && before[j] == id;
                assert(all[j] == id);
            } else {
                let word = text + rest;
                assert(word.take(text.len() as int) =~= text);
                assert(set.contains(word) && prefix_of(text, word));
                assert(all[before.len() as int] == id);
            }
        }
    }
}

} // verus!
