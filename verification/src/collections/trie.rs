//! A trie (prefix tree) for storing and looking up strings.
//!
//! Nodes live in an arena; each node maps characters (as code points) to the
//! arena index of the child node, and marks whether a stored word ends at
//! it. Every child index is greater than its parent's and no two edges share
//! a target, so the arena always forms a tree rooted at index 0.
//!
//! The meaning of a trie is the set of words it stores: a word is stored
//! exactly when following its characters from the root ends at a marked
//! node. Deleting a word unmarks its node and keeps the nodes themselves, so
//! prefixes remain known.

use std::collections::HashMap;
use vstd::prelude::*;
use vstd::set_lib::lemma_int_range;

verus! {

broadcast use vstd::std_specs::hash::group_hash_axioms;

/// One arena node: the outgoing edges, keyed by character code point, and
/// whether a stored word ends here.
struct TrieNode {
    children: HashMap<u32, usize>,
    is_end: bool,
}

/// A prefix tree over strings.
pub struct Trie {
    /// The node arena; index 0 is the root.
    nodes: Vec<TrieNode>,
    /// The number of stored words.
    size: usize,
}

impl Trie {
    /// Whether `m` has an edge whose key carries the code point of `c`.
    closed spec fn has_edge(m: Map<u32, usize>, c: char) -> bool {
        exists|k: u32| #[trigger] m.contains_key(k) && k as int == c as int
    }

    /// The key of that edge.
    closed spec fn edge_key(m: Map<u32, usize>, c: char) -> u32 {
        choose|k: u32| #[trigger] m.contains_key(k) && k as int == c as int
    }

    /// A present key that carries the right code point is the edge key.
    proof fn lemma_edge_key(m: Map<u32, usize>, c: char, k: u32)
        requires
            m.contains_key(k),
            k as int == c as int,
        ensures
            Self::has_edge(m, c),
            Self::edge_key(m, c) == k,
    {
        assert(Self::has_edge(m, c));
        let k2 = Self::edge_key(m, c);
        assert(m.contains_key(k2) && k2 as int == c as int);
    }

    /// The child of node `n` along character `c`, if any.
    closed spec fn child(self, n: int, c: char) -> Option<int> {
        let m = self.nodes@[n].children@;
        if Self::has_edge(m, c) {
            Some(m[Self::edge_key(m, c)] as int)
        } else {
            None
        }
    }

    /// The node reached from `n` by following the characters of `w`.
    closed spec fn follow(self, n: int, w: Seq<char>) -> Option<int>
        decreases w.len(),
    {
        if w.len() == 0 {
            Some(n)
        } else {
            match self.child(n, w[0]) {
                None => None,
                Some(m) => self.follow(m, w.skip(1)),
            }
        }
    }

    /// Whether the word `w` is stored.
    pub closed spec fn spec_contains(self, w: Seq<char>) -> bool {
        match self.follow(0, w) {
            Some(x) => 0 <= x < self.nodes@.len() && self.nodes@[x].is_end,
            None => false,
        }
    }

    /// Whether some stored word starts with `w` (every node of the tree was
    /// created for a word, so reaching a node means the prefix was part of
    /// one).
    pub closed spec fn spec_has_prefix(self, w: Seq<char>) -> bool {
        self.follow(0, w) is Some
    }

    /// The number of stored words.
    pub closed spec fn spec_len(self) -> nat {
        self.size as nat
    }

    /// Every edge of node `i` points further down the arena.
    closed spec fn node_ok(self, i: int) -> bool {
        forall|c: u32|
            #[trigger] self.nodes@[i].children@.contains_key(c) ==> i < self.nodes@[i].children@[c]
                && self.nodes@[i].children@[c] < self.nodes@.len()
    }

    /// No two edges point at the same node.
    closed spec fn edges_unique(self) -> bool {
        forall|i: int, j: int, c1: u32, c2: u32|
            #![trigger self.nodes@[i].children@[c1], self.nodes@[j].children@[c2]]
            0 <= i < self.nodes@.len() && 0 <= j < self.nodes@.len()
                && self.nodes@[i].children@.contains_key(c1)
                && self.nodes@[j].children@.contains_key(c2) && self.nodes@[i].children@[c1]
                == self.nodes@[j].children@[c2] ==> i == j && c1 == c2
    }

    /// The arena indices where stored words end.
    closed spec fn end_set(self) -> Set<int> {
        Set::new(|i: int| 0 <= i < self.nodes@.len() && self.nodes@[i].is_end)
    }

    /// The trie invariant: a rooted tree in the arena, and a word count that
    /// matches the marked nodes.
    pub closed spec fn wf(self) -> bool {
        &&& self.nodes@.len() >= 1
        &&& forall|i: int| 0 <= i < self.nodes@.len() ==> #[trigger] self.node_ok(i)
        &&& self.edges_unique()
        &&& self.end_set().finite()
        &&& self.size == self.end_set().len()
    }

    /// Following a word from a valid node stays in the arena and never goes
    /// back up.
    proof fn lemma_follow_valid(self, n: int, w: Seq<char>)
        requires
            self.wf(),
            0 <= n < self.nodes@.len(),
        ensures
            (match self.follow(n, w) {
                Some(x) => n <= x < self.nodes@.len(),
                None => true,
            }),
        decreases w.len(),
    {
        if w.len() > 0 {
            assert(self.node_ok(n));
            match self.child(n, w[0]) {
                None => {},
                Some(m) => {
                    self.lemma_follow_valid(m, w.skip(1));
                },
            }
        }
    }

    /// Following `w` and then one more character is following through the
    /// child at that character.
    proof fn lemma_follow_snoc(self, n: int, w: Seq<char>, c: char)
        ensures
            self.follow(n, w.push(c)) == (match self.follow(n, w) {
                Some(x) => self.child(x, c),
                None => None::<int>,
            }),
        decreases w.len(),
    {
        if w.len() == 0 {
            assert(w.push(c)[0] == c);
            assert(w.push(c).skip(1) =~= Seq::<char>::empty());
            match self.child(n, c) {
                None => {},
                Some(m) => {
                    assert(self.follow(m, w.push(c).skip(1)) == Some(m));
                },
            }
        } else {
            assert(w.push(c)[0] == w[0]);
            assert(w.push(c).skip(1) =~= w.skip(1).push(c));
            match self.child(n, w[0]) {
                None => {},
                Some(m) => {
                    self.lemma_follow_snoc(m, w.skip(1), c);
                },
            }
        }
    }

    /// Following a word splits at any point into following the prefix and
    /// then the rest.
    proof fn lemma_follow_split(self, n: int, w: Seq<char>, k: int)
        requires
            0 <= k <= w.len(),
        ensures
            self.follow(n, w) == (match self.follow(n, w.take(k)) {
                Some(x) => self.follow(x, w.skip(k)),
                None => None::<int>,
            }),
        decreases k,
    {
        if k == 0 {
            assert(w.take(0) =~= Seq::<char>::empty());
            assert(w.skip(0) =~= w);
        } else {
            assert(w.take(k)[0] == w[0]);
            assert(w.take(k).skip(1) =~= w.skip(1).take(k - 1));
            assert(w.skip(1).skip(k - 1) =~= w.skip(k));
            match self.child(n, w[0]) {
                None => {},
                Some(m) => {
                    self.lemma_follow_split(m, w.skip(1), k - 1);
                },
            }
        }
    }

    /// A reached word that is not empty decomposes into a reached prefix and
    /// one final edge.
    proof fn lemma_follow_last(self, w: Seq<char>, x: int)
        requires
            w.len() > 0,
            self.follow(0, w) == Some(x),
        ensures
            ({
                let p = self.follow(0, w.drop_last());
                p is Some && self.child(p.unwrap(), w.last()) == Some(x)
            }),
    {
        self.lemma_follow_split(0, w, w.len() - 1);
        assert(w.take(w.len() - 1) =~= w.drop_last());
        let p = self.follow(0, w.drop_last());
        assert(p is Some);
        let rest = w.skip(w.len() - 1);
        assert(rest =~= seq![w.last()]);
        assert(rest[0] == w.last());
        assert(self.follow(p.unwrap(), rest) == Some(x));
        match self.child(p.unwrap(), w.last()) {
            None => {
                assert(self.follow(p.unwrap(), rest) is None);
                assert(false);
            },
            Some(m) => {
                assert(self.follow(p.unwrap(), rest) == self.follow(m, rest.skip(1)));
                assert(rest.skip(1) =~= Seq::<char>::empty());
                assert(self.follow(m, rest.skip(1)) == Some(m));
                assert(m == x);
            },
        }
    }

    /// In a well-formed trie, each node is reached by exactly one word.
    proof fn lemma_path_unique(self, w1: Seq<char>, w2: Seq<char>, x: int)
        requires
            self.wf(),
            self.follow(0, w1) == Some(x),
            self.follow(0, w2) == Some(x),
        ensures
            w1 == w2,
        decreases w1.len() + w2.len(),
    {
        self.lemma_follow_valid(0, w1);
        if w1.len() == 0 {
            if w2.len() > 0 {
                self.lemma_follow_last(w2, x);
                let p = self.follow(0, w2.drop_last()).unwrap();
                self.lemma_follow_valid(0, w2.drop_last());
                assert(self.node_ok(p));
                let m = self.nodes@[p].children@;
                let k = Self::edge_key(m, w2.last());
                assert(m.contains_key(k));
                assert(false);
            }
            assert(w1 =~= w2);
        } else {
            if w2.len() == 0 {
                self.lemma_follow_last(w1, x);
                let p = self.follow(0, w1.drop_last()).unwrap();
                self.lemma_follow_valid(0, w1.drop_last());
                assert(self.node_ok(p));
                let m = self.nodes@[p].children@;
                let k = Self::edge_key(m, w1.last());
                assert(m.contains_key(k));
                assert(false);
            }
            self.lemma_follow_last(w1, x);
            self.lemma_follow_last(w2, x);
            let p1 = self.follow(0, w1.drop_last()).unwrap();
            let p2 = self.follow(0, w2.drop_last()).unwrap();
            self.lemma_follow_valid(0, w1.drop_last());
            self.lemma_follow_valid(0, w2.drop_last());
            let m1 = self.nodes@[p1].children@;
            let m2 = self.nodes@[p2].children@;
            let k1 = Self::edge_key(m1, w1.last());
            let k2 = Self::edge_key(m2, w2.last());
            assert(m1.contains_key(k1) && k1 as int == w1.last() as int);
            assert(m2.contains_key(k2) && k2 as int == w2.last() as int);
            assert(m1[k1] as int == x);
            assert(m2[k2] as int == x);
            assert(self.nodes@[p1].children@[k1] == self.nodes@[p2].children@[k2]);
            assert(p1 == p2 && k1 == k2);
            assert(w1.last() as int == w2.last() as int);
            assert(w1.last() == w2.last());
            self.lemma_path_unique(w1.drop_last(), w2.drop_last(), p1);
            assert(w1 =~= w1.drop_last().push(w1.last()));
            assert(w2 =~= w2.drop_last().push(w2.last()));
        }
    }

    /// Two tries with the same edges follow every word the same way.
    proof fn lemma_follow_same_edges(a: Self, b: Self, n: int, w: Seq<char>)
        requires
            a.nodes@.len() == b.nodes@.len(),
            forall|i: int|
                0 <= i < a.nodes@.len() ==> (#[trigger] b.nodes@[i]).children@ == a.nodes@[
                    i].children@,
            0 <= n < a.nodes@.len(),
            forall|i: int| 0 <= i < a.nodes@.len() ==> #[trigger] a.node_ok(i),
        ensures
            b.follow(n, w) == a.follow(n, w),
        decreases w.len(),
    {
        if w.len() > 0 {
            assert(a.node_ok(n));
            match a.child(n, w[0]) {
                None => {},
                Some(m) => {
                    Self::lemma_follow_same_edges(a, b, m, w.skip(1));
                },
            }
        }
    }

    /// Adding one edge from `ncur` to the fresh childless node `f` keeps
    /// every old path and adds exactly the paths that end with the new edge.
    proof fn lemma_add_edge_follow(a: Self, b: Self, ncur: int, cu: u32, n: int, w: Seq<char>)
        requires
            a.wf(),
            0 <= ncur < a.nodes@.len(),
            !a.nodes@[ncur].children@.contains_key(cu),
            a.nodes@.len() <= usize::MAX,
            b.nodes@.len() == a.nodes@.len() + 1,
            b.nodes@[a.nodes@.len() as int].children@ == Map::<u32, usize>::empty(),
            b.nodes@[ncur].children@ == a.nodes@[ncur].children@.insert(
                cu,
                a.nodes@.len() as usize,
            ),
            forall|i: int|
                0 <= i < a.nodes@.len() && i != ncur ==> (#[trigger] b.nodes@[i]).children@
                    == a.nodes@[i].children@,
            0 <= n < a.nodes@.len(),
        ensures
            a.follow(n, w) is Some ==> b.follow(n, w) == a.follow(n, w),
            (match b.follow(n, w) {
                Some(y) => (y == a.nodes@.len() || a.follow(n, w) == Some(y)),
                None => a.follow(n, w) is None,
            }),
        decreases w.len(),
    {
        let f = a.nodes@.len() as int;
        if w.len() > 0 {
            assert(a.node_ok(n));
            let am = a.nodes@[n].children@;
            let bm = b.nodes@[n].children@;
            if n == ncur && w[0] as int == cu as int {
                // the new edge: in `a` this path is stuck; in `b` it reaches
                // `f` and can go no further
                assert(a.child(n, w[0]) is None) by {
                    if Self::has_edge(am, w[0]) {
                        let k = Self::edge_key(am, w[0]);
                        assert(am.contains_key(k) && k as int == w[0] as int);
                        assert(k == cu);
                    }
                }
                assert(b.child(n, w[0]) == Some(f)) by {
                    assert(bm.contains_key(cu) && bm[cu] == a.nodes@.len() as usize);
                    Self::lemma_edge_key(bm, w[0], cu);
                }
                if w.skip(1).len() > 0 {
                    let fm = b.nodes@[f].children@;
                    assert(b.child(f, w.skip(1)[0]) is None) by {
                        if Self::has_edge(fm, w.skip(1)[0]) {
                            let k = Self::edge_key(fm, w.skip(1)[0]);
                            assert(fm.contains_key(k));
                        }
                    }
                    assert(b.follow(f, w.skip(1)) is None);
                } else {
                    assert(b.follow(f, w.skip(1)) == Some(f));
                }
            } else {
                assert(b.child(n, w[0]) == a.child(n, w[0])) by {
                    if n == ncur {
                        if Self::has_edge(am, w[0]) {
                            let k = Self::edge_key(am, w[0]);
                            assert(am.contains_key(k) && k as int == w[0] as int);
                            assert(k != cu);
                            assert(bm.contains_key(k));
                            Self::lemma_edge_key(bm, w[0], k);
                            assert(bm[k] == am[k]);
                        }
                        if Self::has_edge(bm, w[0]) {
                            let k = Self::edge_key(bm, w[0]);
                            assert(bm.contains_key(k) && k as int == w[0] as int);
                            assert(k != cu);
                            assert(am.contains_key(k));
                            Self::lemma_edge_key(am, w[0], k);
                        }
                    }
                }
                match a.child(n, w[0]) {
                    None => {},
                    Some(m) => {
                        Self::lemma_add_edge_follow(a, b, ncur, cu, m, w.skip(1));
                    },
                }
            }
        }
    }

    /// Creates an empty trie.
    pub fn new() -> (r: Self)
        ensures
            r.wf(),
            forall|w: Seq<char>| !r.spec_contains(w),
            forall|w: Seq<char>| #[trigger] r.spec_has_prefix(w) <==> w.len() == 0,
            r.spec_len() == 0,
    {
        let mut nodes: Vec<TrieNode> = Vec::new();
        nodes.push(TrieNode { children: HashMap::new(), is_end: false });
        let r = Trie { nodes, size: 0 };
        proof {
            assert(r.end_set() =~= Set::<int>::empty());
            assert forall|w: Seq<char>| #[trigger] r.spec_has_prefix(w) <==> w.len() == 0 by {
                if w.len() > 0 {
                    assert(r.child(0, w[0]) is None);
                }
            }
            assert forall|w: Seq<char>| !(#[trigger] r.spec_contains(w)) by {
                if w.len() > 0 {
                    assert(r.child(0, w[0]) is None);
                }
            }
        }
        r
    }

    /// Returns the number of stored words.
    pub fn len(&self) -> (r: usize)
        requires
            self.wf(),
        ensures
            r == self.spec_len(),
    {
        self.size
    }

    /// Returns whether no words are stored.
    pub fn is_empty(&self) -> (r: bool)
        requires
            self.wf(),
        ensures
            r == (self.spec_len() == 0),
    {
        self.size == 0
    }

    /// Looks up the child of node `cur` along the character `c`.
    fn child_of(&self, cur: usize, c: char) -> (r: Option<usize>)
        requires
            self.wf(),
            cur < self.nodes@.len(),
        ensures
            (match r {
                Some(v) => self.child(cur as int, c) == Some(v as int) && v < self.nodes@.len(),
                None => self.child(cur as int, c) is None,
            }),
    {
        let key = c as u32;
        let r = match self.nodes[cur].children.get(&key) {
            Some(v) => Some(*v),
            None => None,
        };
        proof {
            let m = self.nodes@[cur as int].children@;
            assert(self.node_ok(cur as int));
            assert(key as int == c as int);
            match r {
                Some(v) => {
                    assert(m.contains_key(key) && m[key] == v);
                    Self::lemma_edge_key(m, c, key);
                },
                None => {
                    assert(!m.contains_key(key));
                    if Self::has_edge(m, c) {
                        let k = Self::edge_key(m, c);
                        assert(m.contains_key(k) && k as int == c as int);
                        assert(k == key);
                        assert(false);
                    }
                },
            }
        }
        r
    }

    /// Walks the characters of `s` from the root without changing anything;
    /// answers the node where `s` ends, or `None` when the walk gets stuck.
    fn walk(&self, s: &str) -> (r: Option<usize>)
        requires
            self.wf(),
        ensures
            (match r {
                Some(x) => self.follow(0, s@) == Some(x as int) && x < self.nodes@.len(),
                None => self.follow(0, s@) is None,
            }),
    {
        let n = s.unicode_len();
        let mut cur: usize = 0;
        let mut i: usize = 0;
        while i < n
            invariant
                self.wf(),
                0 <= i <= n,
                n == s@.len(),
                cur < self.nodes@.len(),
                self.follow(0, s@.take(i as int)) == Some(cur as int),
            decreases n - i,
        {
            let c = s.get_char(i);
            let next = self.child_of(cur, c);
            proof {
                self.lemma_follow_snoc(0, s@.take(i as int), c);
                assert(s@.take(i as int).push(c) =~= s@.take(i + 1));
            }
            match next {
                None => {
                    proof {
                        self.lemma_follow_split(0, s@, i + 1);
                        assert(self.follow(0, s@.take(i + 1)) is None);
                    }
                    return None;
                },
                Some(nx) => {
                    cur = nx;
                    i = i + 1;
                },
            }
        }
        proof {
            assert(s@.take(n as int) =~= s@);
        }
        Some(cur)
    }

    /// Returns whether the exact word `s` is stored (not merely as a prefix
    /// of another word).
    pub fn contains(&self, s: &str) -> (r: bool)
        requires
            self.wf(),
        ensures
            r == self.spec_contains(s@),
    {
        match self.walk(s) {
            None => false,
            Some(x) => self.nodes[x].is_end,
        }
    }

    /// Returns whether some stored word starts with `prefix` (a stored word
    /// counts as its own prefix).
    pub fn has_prefix(&self, prefix: &str) -> (r: bool)
        requires
            self.wf(),
        ensures
            r == self.spec_has_prefix(prefix@),
    {
        match self.walk(prefix) {
            None => false,
            Some(_) => true,
        }
    }

    /// Stores the word `s`. Returns `true` when new nodes had to be created,
    /// that is, when `s` was not yet known even as a prefix; re-inserting a
    /// stored word changes nothing and answers `false`.
    pub fn insert(&mut self, s: &str) -> (r: bool)
        requires
            old(self).wf(),
        ensures
            final(self).wf(),
            forall|w: Seq<char>|
                #[trigger] final(self).spec_contains(w) == (old(self).spec_contains(w) || w
                    == s@),
            forall|w: Seq<char>|
                #[trigger] final(self).spec_has_prefix(w) == (old(self).spec_has_prefix(w) || (
                w.len() <= s@.len() && w == s@.subrange(0, w.len() as int))),
            r == !old(self).spec_has_prefix(s@),
            final(self).spec_len() == old(self).spec_len() + (if old(self).spec_contains(s@) {
                0int
            } else {
                1int
            }),
    {
        let ghost t0 = *old(self);
        let n = s.unicode_len();
        let mut cur: usize = 0;
        let mut i: usize = 0;
        let mut created = false;
        while i < n
            invariant
                self.wf(),
                0 <= i <= n,
                n == s@.len(),
                cur < self.nodes@.len(),
                self.follow(0, s@.take(i as int)) == Some(cur as int),
                t0.wf(),
                forall|w: Seq<char>|
                    #[trigger] self.spec_contains(w) == t0.spec_contains(w),
                forall|w: Seq<char>|
                    #[trigger] self.spec_has_prefix(w) == (t0.spec_has_prefix(w) || (w.len()
                        <= i && w == s@.subrange(0, w.len() as int))),
                created == !t0.spec_has_prefix(s@.take(i as int)),
                created ==> !self.nodes@[cur as int].is_end && self.nodes@[
                    cur as int].children@.dom() == Set::<u32>::empty(),
                self.size == t0.size,
            decreases n - i,
        {
            let ghost tpre = *self;
            let c = s.get_char(i);
            let key = c as u32;
            let next = self.child_of(cur, c);
            proof {
                tpre.lemma_follow_snoc(0, s@.take(i as int), c);
                assert(s@.take(i as int).push(c) =~= s@.take(i + 1));
                assert(tpre.node_ok(cur as int));
                assert(key as int == c as int);
            }
            match next {
                Some(nx) => {
                    proof {
                        assert(tpre.spec_has_prefix(s@.take(i + 1)));
                        if created {
                            let m = tpre.nodes@[cur as int].children@;
                            let k = Self::edge_key(m, c);
                            assert(m.contains_key(k));
                            assert(m.dom().contains(k));
                            assert(false);
                        }
                        assert forall|w: Seq<char>|
                            #[trigger] self.spec_has_prefix(w) == (t0.spec_has_prefix(w) || (
                            w.len() <= i + 1 && w == s@.subrange(0, w.len() as int))) by {
                            if w.len() == i + 1 && w == s@.subrange(0, w.len() as int) {
                                assert(w =~= s@.take(i + 1));
                            }
                        }
                    }
                    cur = nx;
                    i = i + 1;
                },
                None => {
                    proof {
                        if tpre.nodes@[cur as int].children@.contains_key(key) {
                            Self::lemma_edge_key(tpre.nodes@[cur as int].children@, c, key);
                        }
                        assert(!tpre.nodes@[cur as int].children@.contains_key(key));
                    }
                    let f = self.nodes.len();
                    self.nodes.push(TrieNode { children: HashMap::new(), is_end: false });
                    let node = &mut self.nodes[cur];
                    node.children.insert(key, f);
                    proof {
                        let t1 = *self;
                        assert(t1.nodes@[cur as int].children@ == tpre.nodes@[
                        cur as int].children@.insert(key, f));
                        assert(t1.nodes@[f as int].children@ == Map::<u32, usize>::empty());
                        Self::lemma_edge_key(t1.nodes@[cur as int].children@, c, key);
                        assert(t1.child(cur as int, c) == Some(f as int));
                        // the tree shape held up
                        assert forall|x: int|
                            0 <= x < t1.nodes@.len() implies #[trigger] t1.node_ok(x) by {
                            if x < tpre.nodes@.len() as int {
                                assert(tpre.node_ok(x));
                            }
                        }
                        assert forall|x: int, y: int, c1: u32, c2: u32|
                            #![trigger t1.nodes@[x].children@[c1], t1.nodes@[y].children@[c2]]
                            0 <= x < t1.nodes@.len() && 0 <= y < t1.nodes@.len()
                                && t1.nodes@[x].children@.contains_key(c1)
                                && t1.nodes@[y].children@.contains_key(c2) && t1.nodes@[
                            x].children@[c1] == t1.nodes@[y].children@[c2] implies x == y && c1
                            == c2 by {
                            if x < tpre.nodes@.len() && y < tpre.nodes@.len() {
                                if !(x == cur as int && c1 == key) && !(y == cur as int && c2
                                    == key) {
                                    assert(tpre.nodes@[x].children@.contains_key(c1));
                                    assert(tpre.nodes@[y].children@.contains_key(c2));
                                    assert(tpre.nodes@[x].children@[c1] == tpre.nodes@[
                                    y].children@[c2]);
                                } else if (x == cur as int && c1 == key) && !(y == cur as int
                                    && c2 == key) {
                                    assert(tpre.nodes@[y].children@.contains_key(c2));
                                    assert(tpre.node_ok(y));
                                    assert(false);
                                } else if !(x == cur as int && c1 == key) && (y == cur as int
                                    && c2 == key) {
                                    assert(tpre.nodes@[x].children@.contains_key(c1));
                                    assert(tpre.node_ok(x));
                                    assert(false);
                                }
                            }
                        }
                        assert(t1.end_set() =~= tpre.end_set());
                        assert(t1.wf());
                        // every old path survives; the only new path is ours
                        assert forall|w: Seq<char>|
                            #[trigger] t1.spec_contains(w) == tpre.spec_contains(w) by {
                            Self::lemma_add_edge_follow(tpre, t1, cur as int, key, 0, w);
                            match t1.follow(0, w) {
                                Some(y) => {
                                    if y == tpre.nodes@.len() as int {
                                        assert(!t1.nodes@[y].is_end);
                                    }
                                },
                                None => {},
                            }
                        }
                        assert forall|w: Seq<char>|
                            #[trigger] t1.spec_has_prefix(w) == (t0.spec_has_prefix(w) || (
                            w.len() <= i + 1 && w == s@.subrange(0, w.len() as int))) by {
                            Self::lemma_add_edge_follow(tpre, t1, cur as int, key, 0, w);
                            if t1.follow(0, w) == Some(tpre.nodes@.len() as int) {
                                // only the one new word reaches the new node
                                t1.lemma_follow_snoc(0, s@.take(i as int), c);
                                Self::lemma_add_edge_follow(
                                    tpre,
                                    t1,
                                    cur as int,
                                    key,
                                    0,
                                    s@.take(i as int),
                                );
                                assert(t1.follow(0, s@.take(i + 1)) == Some(
                                    tpre.nodes@.len() as int,
                                ));
                                t1.lemma_path_unique(w, s@.take(i + 1), tpre.nodes@.len() as int);
                                assert(w =~= s@.subrange(0, w.len() as int));
                            }
                            if !t1.spec_has_prefix(w) && w.len() <= i + 1 && w == s@.subrange(
                                0,
                                w.len() as int,
                            ) {
                                if w.len() <= i {
                                    assert(tpre.spec_has_prefix(w));
                                } else {
                                    assert(w =~= s@.take(i + 1));
                                    t1.lemma_follow_snoc(0, s@.take(i as int), c);
                                    Self::lemma_add_edge_follow(
                                        tpre,
                                        t1,
                                        cur as int,
                                        key,
                                        0,
                                        s@.take(i as int),
                                    );
                                }
                                assert(false);
                            }
                            if t1.spec_has_prefix(w) && !(t0.spec_has_prefix(w) || (w.len() <= i
                                + 1 && w == s@.subrange(0, w.len() as int))) {
                                assert(tpre.spec_has_prefix(w));
                                assert(false);
                            }
                            if !t1.spec_has_prefix(w) && t0.spec_has_prefix(w) {
                                assert(tpre.spec_has_prefix(w));
                                assert(false);
                            }
                        }
                        // the walked prefix now reaches the fresh node
                        t1.lemma_follow_snoc(0, s@.take(i as int), c);
                        Self::lemma_add_edge_follow(tpre, t1, cur as int, key, 0, s@.take(i as int));
                        assert(t1.follow(0, s@.take(i + 1)) == Some(tpre.nodes@.len() as int));
                        assert(!t0.spec_has_prefix(s@.take(i + 1))) by {
                            if t0.spec_has_prefix(s@.take(i + 1)) {
                                assert(tpre.spec_has_prefix(s@.take(i + 1)));
                                tpre.lemma_follow_snoc(0, s@.take(i as int), c);
                            }
                        }
                    }
                    proof {
                        assert(self.nodes@[f as int].children@.dom() =~= Set::<u32>::empty());
                    }
                    cur = f;
                    created = true;
                    i = i + 1;
                },
            }
        }
        proof {
            assert(s@.take(n as int) =~= s@);
            assert(s@.subrange(0, s@.len() as int) =~= s@);
        }
        if self.nodes[cur].is_end {
            proof {
                assert(self.spec_contains(s@));
                assert(!created);
                assert forall|w: Seq<char>|
                    #[trigger] self.spec_contains(w) == (t0.spec_contains(w) || w == s@) by {}
            }
            return created;
        }
        let ghost tmid = *self;
        let arena_len = self.nodes.len();
        proof {
            lemma_int_range(0, arena_len as int);
            assert(self.end_set().subset_of(
                vstd::set_lib::set_int_range(0, arena_len as int).remove(cur as int),
            )) by {
                assert(!self.end_set().contains(cur as int));
            }
            vstd::set_lib::lemma_len_subset(
                self.end_set(),
                vstd::set_lib::set_int_range(0, arena_len as int).remove(cur as int),
            );
            assert(vstd::set_lib::set_int_range(0, arena_len as int).remove(cur as int).len()
                == arena_len - 1);
            assert(self.size < arena_len);
        }
        let node = &mut self.nodes[cur];
        node.is_end = true;
        self.size = self.size + 1;
        proof {
            let t2 = *self;
            assert forall|x: int| 0 <= x < t2.nodes@.len() implies #[trigger] t2.node_ok(x) by {
                assert(tmid.node_ok(x));
            }
            assert(t2.end_set() =~= tmid.end_set().insert(cur as int));
            assert(!tmid.end_set().contains(cur as int));
            assert(t2.end_set().len() == tmid.end_set().len() + 1);
            assert(t2.wf());
            assert forall|w: Seq<char>| #[trigger] t2.spec_contains(w) == (t0.spec_contains(w)
                || w == s@) by {
                assert(tmid.spec_contains(w) == t0.spec_contains(w));
                Self::lemma_follow_same_edges(tmid, t2, 0, w);
                match t2.follow(0, w) {
                    Some(y) => {
                        if y == cur as int {
                            tmid.lemma_path_unique(w, s@, cur as int);
                        }
                    },
                    None => {},
                }
            }
            assert forall|w: Seq<char>|
                #[trigger] t2.spec_has_prefix(w) == (t0.spec_has_prefix(w) || (w.len() <= s@.len()
                    && w == s@.subrange(0, w.len() as int))) by {
                assert(tmid.spec_has_prefix(w) == (t0.spec_has_prefix(w) || (w.len() <= s@.len()
                    && w == s@.subrange(0, w.len() as int))));
                Self::lemma_follow_same_edges(tmid, t2, 0, w);
            }
            assert(t2.spec_contains(s@));
            assert(tmid.spec_contains(s@) == t0.spec_contains(s@));
            assert(!t0.spec_contains(s@));
        }
        created
    }

    /// Removes the word `s`. Returns whether it was stored; nothing changes
    /// when it was not. The word's nodes stay, so `has_prefix` still answers
    /// as before the removal.
    pub fn delete(&mut self, s: &str) -> (r: bool)
        requires
            old(self).wf(),
        ensures
            final(self).wf(),
            r == old(self).spec_contains(s@),
            forall|w: Seq<char>|
                #[trigger] final(self).spec_contains(w) == (old(self).spec_contains(w) && w
                    != s@),
            forall|w: Seq<char>|
                #[trigger] final(self).spec_has_prefix(w) == old(self).spec_has_prefix(w),
            final(self).spec_len() == old(self).spec_len() - (if old(self).spec_contains(s@) {
                1int
            } else {
                0int
            }),
    {
        let ghost t0 = *old(self);
        let cur = match self.walk(s) {
            None => {
                return false;
            },
            Some(x) => x,
        };
        if !self.nodes[cur].is_end {
            return false;
        }
        let node = &mut self.nodes[cur];
        node.is_end = false;
        proof {
            assert(t0.end_set().contains(cur as int));
        }
        self.size = self.size - 1;
        proof {
            let t2 = *self;
            assert forall|x: int| 0 <= x < t2.nodes@.len() implies #[trigger] t2.node_ok(x) by {
                assert(t0.node_ok(x));
            }
            assert(t2.end_set() =~= t0.end_set().remove(cur as int));
            assert(t2.end_set().len() == t0.end_set().len() - 1);
            assert(t2.wf());
            assert forall|w: Seq<char>| #[trigger] t2.spec_contains(w) == (t0.spec_contains(w)
                && w != s@) by {
                Self::lemma_follow_same_edges(t0, t2, 0, w);
                match t2.follow(0, w) {
                    Some(y) => {
                        if y == cur as int {
                            t0.lemma_path_unique(w, s@, cur as int);
                        } else {
                            if w == s@ {
                                assert(t0.follow(0, w) == Some(cur as int));
                            }
                        }
                    },
                    None => {
                        if w == s@ {
                            assert(t0.follow(0, w) == Some(cur as int));
                        }
                    },
                }
            }
            assert forall|w: Seq<char>|
                #[trigger] t2.spec_has_prefix(w) == t0.spec_has_prefix(w) by {
                Self::lemma_follow_same_edges(t0, t2, 0, w);
            }
        }
        true
    }
}

} // verus!
