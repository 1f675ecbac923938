//! A trie whose nodes keep their branches in a sorted array map. The nodes
//! stand in one vector, the root first, and a branch holds the index of the
//! node it leads to.

use vstd::prelude::*;
use protocoll::map::VecSortedMap;
use crate::trie::{drain, with_prefix, Cursor, Trie, Walk};
use crate::words::{
    ascending_words, chars_of, lemma_ascending_concat, lemma_ascending_unique, lemma_concat_contains,
    lemma_precedes_behind, lemma_prefix_push, precedes, spelled,
};

verus! {

/// The array map of protocoll: a vector of key-value pairs, sorted by key.
#[verifier::external_type_specification]
#[verifier::external_body]
#[verifier::reject_recursive_types(K)]
#[verifier::reject_recursive_types(V)]
pub struct ExVecSortedMap<K, V>(VecSortedMap<K, V>);

/// The pairs that a branch map holds, in the order of its vector.
pub uninterp spec fn entries(m: VecSortedMap<char, usize>) -> Seq<(char, usize)>;

/// The keys of `es` stand in strictly ascending order.
pub open spec fn keys_ascending(es: Seq<(char, usize)>) -> bool {
    forall|i: int, j: int| 0 <= i < j < es.len() ==> es[i].0 < es[j].0
}

/// `VecSortedMap::new` makes a map without entries.
#[verifier::external_body]
fn branches_new() -> (m: VecSortedMap<char, usize>)
    ensures
        entries(m) == Seq::<(char, usize)>::empty(),
{
    VecSortedMap::new()
}

/// `VecSortedMap::get` searches the vector, which is sorted by key, for the
/// key `c` by bisection and gives the value that stands with it.
#[verifier::external_body]
fn branches_get(m: &VecSortedMap<char, usize>, c: char) -> (r: Option<usize>)
    requires
        keys_ascending(entries(*m)),
    ensures
        match r {
            Some(v) => entries(*m).contains((c, v)),
            None => forall|v: usize| !entries(*m).contains((c, v)),
        },
{
    m.get(&c).copied()
}

/// `VecSortedMap::insert` puts the pair at the place that keeps the vector
/// sorted by key; a pair with the same key is replaced, every other pair
/// stays.
#[verifier::external_body]
fn branches_insert(m: &mut VecSortedMap<char, usize>, c: char, v: usize)
    requires
        keys_ascending(entries(*old(m))),
    ensures
        keys_ascending(entries(*final(m))),
        forall|e: (char, usize)|
            entries(*final(m)).contains(e) <==> e == (c, v) || (entries(*old(m)).contains(e) && e.0
                != c),
{
    m.insert(c, v);
}

/// `VecSortedMap::view_content` shows the vector of the pairs.
#[verifier::external_body]
fn branches_view(m: &VecSortedMap<char, usize>) -> (v: &Vec<(char, usize)>)
    ensures
        v@ == entries(*m),
{
    m.view_content()
}

/// `VecSortedMap::shrink_to_fit` gives back spare capacity and keeps the
/// pairs.
#[verifier::external_body]
fn branches_shrink(m: &mut VecSortedMap<char, usize>)
    ensures
        entries(*final(m)) == entries(*old(m)),
{
    m.shrink_to_fit()
}

/// One node: its branches by character, and whether a learned word ends here.
struct ArrayNode {
    node: VecSortedMap<char, usize>,
    accept: bool,
}

/// A trie over a vector of nodes, each with a sorted array map of its
/// branches.
pub struct ArrayMapTrie {
    nodes: Vec<ArrayNode>,
    /// For every node its parent's index and the characters on the way from
    /// the root to it.
    labels: Ghost<Seq<(int, Seq<char>)>>,
}

impl View for ArrayMapTrie {
    type V = Set<Seq<char>>;

    /// The set of the words that were learned.
    closed spec fn view(&self) -> Set<Seq<char>> {
        Set::new(|w: Seq<char>| exists|j: int| self.accepted_at(j, w))
    }
}

impl ArrayMapTrie {
    /// The characters on the way from the root to the node `j`.
    closed spec fn path(&self, j: int) -> Seq<char> {
        self.labels@[j].1
    }

    /// The node before `j` on the way from the root.
    closed spec fn parent(&self, j: int) -> int {
        self.labels@[j].0
    }

    /// The node `i` has a branch for `c` that leads to the node `j`.
    closed spec fn edge(&self, i: int, c: char, j: usize) -> bool {
        0 <= i < self.nodes@.len() && entries(self.nodes@[i].node).contains((c, j))
    }

    /// The node `j` lies at the end of the path `w` and accepts.
    closed spec fn accepted_at(&self, j: int, w: Seq<char>) -> bool {
        0 <= j < self.nodes@.len() && self.path(j) == w && self.nodes@[j].accept
    }

    /// The nodes form a tree below the first node: every branch leads to a
    /// later node, whose path is the path of the branch's node and the
    /// branch's character; every node but the first has the branch of its
    /// parent; and no two nodes have the same path.
    pub closed spec fn wf(&self) -> bool {
        &&& self.nodes@.len() >= 1
        &&& self.labels@.len() == self.nodes@.len()
        &&& self.path(0) == Seq::<char>::empty()
        &&& forall|i: int|
            0 <= i < self.nodes@.len() ==> keys_ascending(#[trigger] entries(self.nodes@[i].node))
        &&& forall|i: int, c: char, j: usize| #[trigger]
            self.edge(i, c, j) ==> i < j < self.nodes@.len() && self.path(j as int) == self.path(
                i,
            ).push(c)
        &&& forall|j: int|
            0 < j < self.nodes@.len() ==> {
                &&& 0 <= #[trigger] self.parent(j) < j
                &&& self.path(j).len() > 0
                &&& self.path(self.parent(j)) == self.path(j).drop_last()
                &&& self.edge(self.parent(j), self.path(j).last(), j as usize)
            }
        &&& forall|j: int, k: int|
            0 <= j < self.nodes@.len() && 0 <= k < self.nodes@.len() && #[trigger] self.path(j)
                == #[trigger] self.path(k) ==> j == k
    }

    /// The trie that holds no word.
    pub fn new() -> (t: Self)
        ensures
            t.wf(),
            t@ == Set::<Seq<char>>::empty(),
    {
        let mut nodes: Vec<ArrayNode> = Vec::new();
        nodes.push(ArrayNode { node: branches_new(), accept: false });
        let ghost labels = seq![(-1int, Seq::<char>::empty())];
        let t = ArrayMapTrie { nodes: nodes, labels: Ghost(labels) };
        proof {
            assert(t@ =~= Set::<Seq<char>>::empty());
        }
        t
    }

    /// Follows the characters of `s` from the root: the node at the end of
    /// the path `s`, if there is one.
    fn walk(&self, s: &str) -> (r: Option<usize>)
        requires
            self.wf(),
        ensures
            match r {
                Some(j) => j < self.nodes@.len() && self.path(j as int) == s@,
                None => forall|j: int| 0 <= j < self.nodes@.len() ==> self.path(j) != s@,
            },
    {
        let mut cur: usize = 0;
        proof {
            assert(s@.take(0) =~= Seq::<char>::empty());
        }
        for c in it: s.chars()
            invariant
                it.seq() == s@,
                self.wf(),
                cur < self.nodes@.len(),
                self.path(cur as int) == s@.take(it.index()),
        {
            let ghost k = it.index();
            match branches_get(&self.nodes[cur].node, c) {
                None => {
                    proof {
                        assert forall|j: int| 0 <= j < self.nodes@.len() implies self.path(j)
                            != s@ by {
                            if self.path(j) == s@ {
                                self.lemma_no_branch(cur as int, j, k);
                            }
                        }
                    }
                    return None;
                },
                Some(j) => {
                    proof {
                        assert(self.edge(cur as int, c, j));
                        assert(s@.take(k + 1) =~= s@.take(k).push(c));
                    }
                    cur = j;
                },
            }
        }
        proof {
            assert(s@.take(s@.len() as int) =~= s@);
        }
        Some(cur)
    }

    /// Every prefix of a node's path is the path of a node.
    proof fn lemma_ancestor(&self, j: int, d: int) -> (a: int)
        requires
            self.wf(),
            0 <= j < self.nodes@.len(),
            0 <= d <= self.path(j).len(),
        ensures
            0 <= a < self.nodes@.len(),
            self.path(a) == self.path(j).take(d),
        decreases j,
    {
        if d == self.path(j).len() {
            assert(self.path(j).take(d) =~= self.path(j));
            j
        } else {
            let i = self.parent(j);
            assert(self.path(i).take(d) =~= self.path(j).take(d));
            self.lemma_ancestor(i, d)
        }
    }

    /// Where the node `cur` at depth `k` of the path of `j` has the branch
    /// for the next character of that path.
    proof fn lemma_no_branch(&self, cur: int, j: int, k: int)
        requires
            self.wf(),
            0 <= cur < self.nodes@.len(),
            0 <= j < self.nodes@.len(),
            0 <= k < self.path(j).len(),
            self.path(cur) == self.path(j).take(k),
        ensures
            exists|v: usize| entries(self.nodes@[cur].node).contains((self.path(j)[k], v)),
    {
        let a = self.lemma_ancestor(j, k + 1);
        assert(self.path(a).len() == k + 1);
        assert(self.path(a).drop_last() =~= self.path(j).take(k));
        assert(self.path(a).last() == self.path(j)[k]);
        assert(self.edge(self.parent(a), self.path(a).last(), a as usize));
        assert(entries(self.nodes@[cur].node).contains((self.path(j)[k], a as usize)));
    }
}

impl ArrayMapTrie {
    /// Gives back the spare capacity of every node's map.
    pub fn shrink_to_fit(&mut self)
        requires
            old(self).wf(),
        ensures
            final(self).wf(),
            final(self)@ == old(self)@,
    {
        let mut i: usize = 0;
        while i < self.nodes.len()
            invariant
                self.nodes@.len() == old(self).nodes@.len(),
                self.labels == old(self).labels,
                forall|j: int|
                    0 <= j < self.nodes@.len() ==> entries((#[trigger] self.nodes@[j]).node)
                        == entries(old(self).nodes@[j].node) && self.nodes@[j].accept == old(
                        self,
                    ).nodes@[j].accept,
            decreases self.nodes.len() - i,
        {
            branches_shrink(&mut self.nodes[i].node);
            i += 1;
        }
        proof {
            assert forall|i: int| 0 <= i < self.nodes@.len() implies keys_ascending(
                #[trigger] entries(self.nodes@[i].node),
            ) by {
                assert(entries(self.nodes@[i].node) == entries(old(self).nodes@[i].node));
            }
            assert forall|i: int| 0 <= i < self.nodes@.len() implies self.path(i) == old(
                self,
            ).path(i) && self.parent(i) == old(self).parent(i) by {}
            assert forall|i: int, c: char, j: usize| self.edge(i, c, j) == old(self).edge(
                i,
                c,
                j,
            ) by {}
            assert forall|j: int, w: Seq<char>| self.accepted_at(j, w) == old(self).accepted_at(
                j,
                w,
            ) by {}
            assert(self@ =~= old(self)@);
        }
    }

}

impl Trie for ArrayMapTrie {
    open spec fn words(&self) -> Set<Seq<char>> {
        self@
    }

    open spec fn inv(&self) -> bool {
        self.wf()
    }

    fn learn(self, s: &str) -> (t: Self) {
        let w = chars_of(s);
        let mut t = self;
        let mut cur: usize = 0;
        let mut k: usize = 0;
        proof {
            assert(w@.take(0) =~= Seq::<char>::empty());
        }
        while k < w.len()
            invariant
                t.wf(),
                k <= w.len(),
                cur < t.nodes@.len(),
                t.path(cur as int) == w@.take(k as int),
                t@ == self@,
            decreases w.len() - k,
        {
            let c = w[k];
            proof {
                assert(w@.take(k + 1) =~= w@.take(k as int).push(c));
            }
            match branches_get(&t.nodes[cur].node, c) {
                Some(j) => {
                    proof {
                        assert(t.edge(cur as int, c, j));
                    }
                    cur = j;
                },
                None => {
                    let ghost before = t;
                    let j = t.nodes.len();
                    t.nodes.push(ArrayNode { node: branches_new(), accept: false });
                    let grown = t.nodes.len();
                    branches_insert(&mut t.nodes[cur].node, c, j);
                    proof {
                        t.labels@ = before.labels@.push((cur as int, before.path(cur as int).push(c)));
                        before.lemma_grown(t, cur as int, c);
                    }
                    cur = j;
                },
            }
            k += 1;
        }
        let ghost before = t;
        t.nodes[cur].accept = true;
        proof {
            assert(w@.take(w.len() as int) =~= w@);
            assert forall|i: int| 0 <= i < t.nodes@.len() implies (#[trigger] t.nodes@[i]).node
                == before.nodes@[i].node by {}
            assert forall|i: int, c: char, j: usize| t.edge(i, c, j) == before.edge(i, c, j) by {}
            assert forall|i: int| 0 <= i < t.nodes@.len() implies t.path(i) == before.path(i)
                && t.parent(i) == before.parent(i) by {}
            assert(t.wf());
            assert forall|x: Seq<char>| t@.contains(x) <==> self@.insert(s@).contains(x) by {
                if self@.contains(x) {
                    let j = choose|j: int| before.accepted_at(j, x);
                    assert(t.accepted_at(j, x));
                }
                if x == s@ {
                    assert(t.accepted_at(cur as int, x));
                }
                if t@.contains(x) {
                    let j = choose|j: int| t.accepted_at(j, x);
                    if j != cur {
                        assert(before.accepted_at(j, x));
                    }
                }
            }
            assert(t@ =~= self@.insert(s@));
        }
        t
    }

    fn recognize(&self, s: &str) -> (b: bool) {
        match self.walk(s) {
            None => {
                proof {
                    if self@.contains(s@) {
                        let j = choose|j: int| self.accepted_at(j, s@);
                    }
                }
                false
            },
            Some(j) => {
                proof {
                    if self@.contains(s@) {
                        let k = choose|k: int| self.accepted_at(k, s@);
                        assert(k == j);
                    }
                    if self.nodes@[j as int].accept {
                        assert(self.accepted_at(j as int, s@));
                    }
                }
                self.nodes[j].accept
            },
        }
    }

    fn prefix_search(&self, s: &str) -> (r: Vec<String>)
        ensures
            spelled(r@) == self.matches(s@),
    {
        drain(self.prefix_iter(s))
    }
}

impl ArrayMapTrie {
    /// A new node behind a new branch keeps the tree a tree and adds no
    /// word.
    proof fn lemma_grown(&self, t: ArrayMapTrie, cur: int, c: char)
        requires
            self.wf(),
            0 <= cur < self.nodes@.len(),
            self.nodes@.len() < usize::MAX,
            forall|v: usize| !entries(self.nodes@[cur].node).contains((c, v)),
            t.nodes@.len() == self.nodes@.len() + 1,
            t.labels@ == self.labels@.push((cur, self.path(cur).push(c))),
            forall|i: int|
                0 <= i < self.nodes@.len() ==> (#[trigger] t.nodes@[i]).accept
                    == self.nodes@[i].accept,
            forall|i: int|
                0 <= i < self.nodes@.len() && i != cur ==> (#[trigger] t.nodes@[i]).node
                    == self.nodes@[i].node,
            !t.nodes@[self.nodes@.len() as int].accept,
            entries(t.nodes@[self.nodes@.len() as int].node) == Seq::<(char, usize)>::empty(),
            keys_ascending(entries(t.nodes@[cur].node)),
            forall|e: (char, usize)|
                entries(t.nodes@[cur].node).contains(e) <==> e == (c, self.nodes@.len() as usize)
                    || (entries(self.nodes@[cur].node).contains(e) && e.0 != c),
        ensures
            t.wf(),
            t@ == self@,
            t.path(self.nodes@.len() as int) == self.path(cur).push(c),
    {
        let n = self.nodes@.len() as int;
        assert forall|i: int| 0 <= i < n implies t.path(i) == self.path(i) by {}
        assert forall|i: int, d: char, j: usize| #[trigger] t.edge(i, d, j) implies i < j
            < t.nodes@.len() && t.path(j as int) == t.path(i).push(d) by {
            if i == n {
                assert(entries(t.nodes@[i].node).contains((d, j)));
            } else if i == cur {
                if (d, j) != (c, n as usize) {
                    assert(self.edge(i, d, j));
                }
            } else {
                assert(self.edge(i, d, j));
            }
        }
        assert forall|j: int| 0 < j < t.nodes@.len() implies {
            &&& 0 <= #[trigger] t.parent(j) < j
            &&& t.path(j).len() > 0
            &&& t.path(t.parent(j)) == t.path(j).drop_last()
            &&& t.edge(t.parent(j), t.path(j).last(), j as usize)
        } by {
            if j == n {
                assert(t.path(j).drop_last() =~= self.path(cur));
                assert(entries(t.nodes@[cur].node).contains((c, n as usize)));
            } else {
                let i = self.parent(j);
                assert(self.edge(i, self.path(j).last(), j as usize));
                if i == cur {
                    assert(entries(t.nodes@[cur].node).contains((self.path(j).last(), j as usize)));
                }
            }
        }
        assert forall|j: int, k: int|
            0 <= j < t.nodes@.len() && 0 <= k < t.nodes@.len() && #[trigger] t.path(j)
                == #[trigger] t.path(k) implies j == k by {
            if j == n && k < n {
                self.lemma_fresh_path(cur, c, k);
            }
            if k == n && j < n {
                self.lemma_fresh_path(cur, c, j);
            }
        }
        assert forall|i: int| 0 <= i < t.nodes@.len() implies keys_ascending(
            #[trigger] entries(t.nodes@[i].node),
        ) by {
            if i < n && i != cur {
                assert(t.nodes@[i].node == self.nodes@[i].node);
            }
        }
        assert forall|x: Seq<char>| t@.contains(x) <==> self@.contains(x) by {
            if self@.contains(x) {
                let j = choose|j: int| self.accepted_at(j, x);
                assert(t.accepted_at(j, x));
            }
            if t@.contains(x) {
                let j = choose|j: int| t.accepted_at(j, x);
                assert(self.accepted_at(j, x));
            }
        }
        assert(t@ =~= self@);
    }

    /// Where the node `cur` has no branch for `c`, no node lies at the end of
    /// the path of `cur` followed by `c`.
    proof fn lemma_fresh_path(&self, cur: int, c: char, k: int)
        requires
            self.wf(),
            0 <= cur < self.nodes@.len(),
            0 <= k < self.nodes@.len(),
            forall|v: usize| !entries(self.nodes@[cur].node).contains((c, v)),
        ensures
            self.path(k) != self.path(cur).push(c),
    {
        if self.path(k) == self.path(cur).push(c) {
            assert(self.path(k).take(self.path(cur).len() as int) =~= self.path(cur));
            self.lemma_no_branch(cur, k, self.path(cur).len() as int);
        }
    }
}

/// Among the pairs of `es` from index `n` on, one has the key `c`.
spec fn key_from(es: Seq<(char, usize)>, n: int, c: char) -> bool {
    exists|m: int| n <= m < es.len() && (#[trigger] es[m]).0 == c
}

impl ArrayMapTrie {
    /// The branches of the node `i`.
    closed spec fn branches(&self, i: int) -> Seq<(char, usize)> {
        entries(self.nodes@[i].node)
    }

    /// The learned words whose path leads through the node `j`, in
    /// depth-first order: the path of `j` itself where `j` accepts, then the
    /// words behind each branch, by ascending character.
    closed spec fn subtree(&self, j: int) -> Seq<Seq<char>>
        decreases self.nodes@.len() - j, self.branches(j).len() + 1,
    {
        if 0 <= j < self.nodes@.len() {
            (if self.nodes@[j].accept {
                seq![self.path(j)]
            } else {
                Seq::empty()
            }) + self.words_from(j, 0)
        } else {
            Seq::empty()
        }
    }

    /// The learned words behind the branches of the node `i` from the
    /// `n`-th branch on.
    closed spec fn words_from(&self, i: int, n: int) -> Seq<Seq<char>>
        decreases self.nodes@.len() - i, self.branches(i).len() - n,
    {
        if 0 <= i < self.nodes@.len() && 0 <= n < self.branches(i).len() {
            let j = self.branches(i)[n].1 as int;
            (if i < j < self.nodes@.len() {
                self.subtree(j)
            } else {
                Seq::empty()
            }) + self.words_from(i, n + 1)
        } else {
            Seq::empty()
        }
    }

    /// The steps that a traversal spends on the branches of the node `i`
    /// from the `n`-th on.
    closed spec fn steps_from(&self, i: int, n: int) -> nat
        decreases self.nodes@.len() - i, self.branches(i).len() - n,
    {
        if 0 <= i < self.nodes@.len() && 0 <= n < self.branches(i).len() {
            let j = self.branches(i)[n].1 as int;
            1 + (if i < j < self.nodes@.len() {
                self.steps_from(j, 0)
            } else {
                0
            }) + self.steps_from(i, n + 1)
        } else {
            1
        }
    }

    /// The learned words that begin with `p`, in the order in which a
    /// traversal hands them out.
    pub closed spec fn matches(&self, p: Seq<char>) -> Seq<Seq<char>> {
        if exists|j: int| 0 <= j < self.nodes@.len() && self.path(j) == p {
            self.subtree(choose|j: int| 0 <= j < self.nodes@.len() && self.path(j) == p)
        } else {
            Seq::empty()
        }
    }

    /// What a traversal with this stack still yields; the top of the stack
    /// is its last entry.
    closed spec fn stack_rest(&self, stack: Seq<(usize, usize)>) -> Seq<Seq<char>>
        decreases stack.len(),
    {
        if stack.len() == 0 {
            Seq::empty()
        } else {
            self.words_from(stack.last().0 as int, stack.last().1 as int) + self.stack_rest(
                stack.drop_last(),
            )
        }
    }

    closed spec fn stack_steps(&self, stack: Seq<(usize, usize)>) -> nat
        decreases stack.len(),
    {
        if stack.len() == 0 {
            0
        } else {
            self.steps_from(stack.last().0 as int, stack.last().1 as int) + self.stack_steps(
                stack.drop_last(),
            )
        }
    }

    /// Every frame names a node and a place among its branches, and the frame
    /// above it stands at the node behind the branch before that place.
    closed spec fn stack_wf(&self, stack: Seq<(usize, usize)>) -> bool {
        &&& forall|k: int|
            0 <= k < stack.len() ==> (#[trigger] stack[k]).0 < self.nodes@.len() && stack[k].1
                <= self.branches(stack[k].0 as int).len()
        &&& forall|k: int|
            0 < k < stack.len() ==> (#[trigger] stack[k - 1]).1 >= 1 && self.branches(
                stack[k - 1].0 as int,
            )[stack[k - 1].1 - 1].1 == stack[k].0
    }

    /// A frame put on top of a stack comes first in what the stack yields.
    proof fn lemma_stack_push(&self, stack: Seq<(usize, usize)>, f: (usize, usize))
        ensures
            self.stack_rest(stack.push(f)) == self.words_from(f.0 as int, f.1 as int)
                + self.stack_rest(stack),
            self.stack_steps(stack.push(f)) == self.steps_from(f.0 as int, f.1 as int)
                + self.stack_steps(stack),
    {
        assert(stack.push(f).drop_last() =~= stack);
        assert(stack.push(f).last() == f);
    }

    /// What lies behind the branches of the node `i` from the `n`-th on:
    /// the learned words that go on from the path of `i` with the character
    /// of one of those branches, each once.
    proof fn lemma_words_from(&self, i: int, n: int)
        requires
            self.wf(),
            0 <= i < self.nodes@.len(),
            0 <= n <= self.branches(i).len(),
        ensures
            self.words_from(i, n).no_duplicates(),
            forall|x: Seq<char>| #[trigger]
                self.words_from(i, n).contains(x) <==> {
                    &&& self.path(i).is_prefix_of(x)
                    &&& x.len() > self.path(i).len()
                    &&& self@.contains(x)
                    &&& key_from(self.branches(i), n, x[self.path(i).len() as int])
                },
        decreases self.nodes@.len() - i, self.branches(i).len() - n,
    {
        let es = self.branches(i);
        let p = self.path(i);
        if n < es.len() {
            let c = es[n].0;
            let j = es[n].1 as int;
            assert(es.contains(es[n]));
            assert(self.edge(i, c, es[n].1));
            let a = self.subtree(j);
            let b = self.words_from(i, n + 1);
            self.lemma_subtree(j);
            self.lemma_words_from(i, n + 1);
            assert(keys_ascending(entries(self.nodes@[i].node)));
            assert forall|x: Seq<char>| #[trigger]
                (a + b).contains(x) <==> {
                    &&& p.is_prefix_of(x)
                    &&& x.len() > p.len()
                    &&& self@.contains(x)
                    &&& key_from(es, n, x[p.len() as int])
                } by {
                lemma_concat_contains(a, b, x);
                lemma_prefix_push(p, c, x);
                if x.len() > p.len() {
                    let d = x[p.len() as int];
                    if key_from(es, n, d) {
                        let m = choose|m: int| n <= m < es.len() && (#[trigger] es[m]).0 == d;
                        if m > n {
                            assert(key_from(es, n + 1, d));
                        }
                    }
                    if key_from(es, n + 1, d) {
                        let m = choose|m: int| n + 1 <= m < es.len() && (#[trigger] es[m]).0 == d;
                        assert(key_from(es, n, d));
                    }
                    if d == c {
                        assert(es[n].0 == d);
                        assert(key_from(es, n, d));
                    }
                }
            }
            assert forall|u: int, v: int| 0 <= u < a.len() && 0 <= v < b.len() implies a[u]
                != b[v] by {
                assert(a.contains(a[u]));
                assert(b.contains(b[v]));
                lemma_prefix_push(p, c, a[u]);
                if a[u] == b[v] {
                    let m = choose|m: int| n + 1 <= m < es.len() && (#[trigger] es[m]).0 == c;
                    assert(es[n].0 < es[m].0);
                }
            }
            vstd::seq_lib::lemma_no_dup_in_concat(a, b);
        } else {
            assert forall|x: Seq<char>| x.len() > p.len() implies !key_from(
                es,
                n,
                x[p.len() as int],
            ) by {}
        }
    }

    /// What lies below the node `j`: the learned words that begin with the
    /// path of `j`, each once.
    proof fn lemma_subtree(&self, j: int)
        requires
            self.wf(),
            0 <= j < self.nodes@.len(),
        ensures
            self.subtree(j).no_duplicates(),
            forall|x: Seq<char>| #[trigger]
                self.subtree(j).contains(x) <==> self.path(j).is_prefix_of(x) && self@.contains(x),
        decreases self.nodes@.len() - j, self.branches(j).len() + 1,
    {
        let p = self.path(j);
        let es = self.branches(j);
        let head = if self.nodes@[j].accept {
            seq![p]
        } else {
            Seq::<Seq<char>>::empty()
        };
        let tail = self.words_from(j, 0);
        self.lemma_words_from(j, 0);
        assert forall|x: Seq<char>| #[trigger]
            (head + tail).contains(x) <==> p.is_prefix_of(x) && self@.contains(x) by {
            lemma_concat_contains(head, tail, x);
            assert(p.is_prefix_of(p));
            if self.nodes@[j].accept {
                assert(head[0] == p);
                assert(self.accepted_at(j, p));
            }
            if p.is_prefix_of(x) && x.len() == p.len() {
                assert(x =~= p);
                if self@.contains(x) {
                    let k = choose|k: int| self.accepted_at(k, x);
                    assert(k == j);
                }
            }
            if p.is_prefix_of(x) && self@.contains(x) && x.len() > p.len() {
                let k = choose|k: int| self.accepted_at(k, x);
                assert(x.take(p.len() as int) =~= p);
                self.lemma_no_branch(j, k, p.len() as int);
                let v = choose|v: usize|
                    entries(self.nodes@[j].node).contains((x[p.len() as int], v));
                let m = choose|m: int| 0 <= m < es.len() && es[m] == (x[p.len() as int], v);
                assert(es[m].0 == x[p.len() as int]);
                assert(key_from(es, 0, x[p.len() as int]));
            }
        }
        assert forall|u: int, v: int| 0 <= u < head.len() && 0 <= v < tail.len() implies head[u]
            != tail[v] by {
            assert(tail.contains(tail[v]));
        }
        vstd::seq_lib::lemma_no_dup_in_concat(head, tail);
    }

    /// What lies behind the branches of a node comes in the order of the
    /// dictionary.
    proof fn lemma_words_from_ascending(&self, i: int, n: int)
        requires
            self.wf(),
            0 <= i < self.nodes@.len(),
            0 <= n <= self.branches(i).len(),
        ensures
            ascending_words(self.words_from(i, n)),
        decreases self.nodes@.len() - i, self.branches(i).len() - n,
    {
        let es = self.branches(i);
        let p = self.path(i);
        if n < es.len() {
            let c = es[n].0;
            let j = es[n].1 as int;
            assert(es.contains(es[n]));
            assert(self.edge(i, c, es[n].1));
            let a = self.subtree(j);
            let b = self.words_from(i, n + 1);
            self.lemma_subtree_ascending(j);
            self.lemma_words_from_ascending(i, n + 1);
            self.lemma_subtree(j);
            self.lemma_words_from(i, n + 1);
            assert(keys_ascending(entries(self.nodes@[i].node)));
            assert forall|u: int, v: int| 0 <= u < a.len() && 0 <= v < b.len() implies precedes(
                #[trigger] a[u],
                #[trigger] b[v],
            ) by {
                assert(a.contains(a[u]));
                assert(b.contains(b[v]));
                lemma_prefix_push(p, c, a[u]);
                let m = choose|m: int|
                    n + 1 <= m < es.len() && (#[trigger] es[m]).0 == b[v][p.len() as int];
                assert(es[n].0 < es[m].0);
                lemma_precedes_behind(p, a[u], b[v]);
            }
            lemma_ascending_concat(a, b);
        }
    }

    /// What lies below a node comes in the order of the dictionary.
    proof fn lemma_subtree_ascending(&self, j: int)
        requires
            self.wf(),
            0 <= j < self.nodes@.len(),
        ensures
            ascending_words(self.subtree(j)),
        decreases self.nodes@.len() - j, self.branches(j).len() + 1,
    {
        let p = self.path(j);
        let head = if self.nodes@[j].accept {
            seq![p]
        } else {
            Seq::<Seq<char>>::empty()
        };
        let tail = self.words_from(j, 0);
        self.lemma_words_from_ascending(j, 0);
        self.lemma_words_from(j, 0);
        assert forall|u: int, v: int| 0 <= u < head.len() && 0 <= v < tail.len() implies precedes(
            #[trigger] head[u],
            #[trigger] tail[v],
        ) by {
            assert(tail.contains(tail[v]));
            assert(p.is_prefix_of(p));
            lemma_precedes_behind(p, p, tail[v]);
        }
        lemma_ascending_concat(head, tail);
    }

    /// The words under a prefix come in the order of the dictionary.
    pub proof fn lemma_matches_ascending(&self, p: Seq<char>)
        requires
            self.wf(),
        ensures
            ascending_words(self.matches(p)),
    {
        if exists|j: int| 0 <= j < self.nodes@.len() && self.path(j) == p {
            let j = choose|j: int| 0 <= j < self.nodes@.len() && self.path(j) == p;
            self.lemma_subtree_ascending(j);
        }
    }

    /// Two tries that hold the same words list them alike, in whatever
    /// order each has learned them.
    pub proof fn lemma_order_of_learning(&self, other: &ArrayMapTrie, p: Seq<char>)
        requires
            self.wf(),
            other.wf(),
            self@ == other@,
        ensures
            self.matches(p) == other.matches(p),
    {
        self.lemma_matches(p);
        other.lemma_matches(p);
        self.lemma_matches_ascending(p);
        other.lemma_matches_ascending(p);
        assert(self.matches(p).to_set() =~= other.matches(p).to_set());
        lemma_ascending_unique(self.matches(p), other.matches(p));
    }

    /// The words that a traversal from the prefix `p` hands out are exactly
    /// the learned words that begin with `p`, and none comes twice.
    pub proof fn lemma_matches(&self, p: Seq<char>)
        requires
            self.wf(),
        ensures
            self.matches(p).no_duplicates(),
            forall|w: Seq<char>| #[trigger]
                self.matches(p).contains(w) <==> self@.contains(w) && p.is_prefix_of(w),
    {
        if exists|j: int| 0 <= j < self.nodes@.len() && self.path(j) == p {
            let j = choose|j: int| 0 <= j < self.nodes@.len() && self.path(j) == p;
            self.lemma_subtree(j);
        } else {
            assert forall|w: Seq<char>| !(self@.contains(w) && p.is_prefix_of(w)) by {
                if self@.contains(w) && p.is_prefix_of(w) {
                    let k = choose|k: int| self.accepted_at(k, w);
                    let a = self.lemma_ancestor(k, p.len() as int);
                    assert(w.take(p.len() as int) =~= p);
                }
            }
        }
    }
}

impl<'a> Walk<'a> for ArrayMapTrie {
    type Iter = Iter<'a>;

    fn prefix_iter(&'a self, s: &str) -> (it: Iter<'a>)
        ensures
            it.rest() == self.matches(s@),
    {
        proof {
            self.lemma_matches(s@);
            self.lemma_matches_ascending(s@);
            assert(self.matches(s@).to_set() =~= with_prefix(self@, s@));
        }
        match self.walk(s) {
            None => {
                let it = Iter { trie: self, stack: Vec::new(), prefix: String::new(), head: false };
                proof {
                    assert(it.rest() =~= self.matches(s@));
                }
                it
            },
            Some(i) => {
                let mut stack: Vec<(usize, usize)> = Vec::new();
                stack.push((i, 0));
                let it = Iter {
                    trie: self,
                    stack: stack,
                    prefix: s.to_owned(),
                    head: self.nodes[i].accept,
                };
                proof {
                    let j = choose|j: int| 0 <= j < self.nodes@.len() && self.path(j) == s@;
                    assert(j == i);
                    assert(it.stack@.drop_last() =~= Seq::<(usize, usize)>::empty());
                    reveal_with_fuel(ArrayMapTrie::stack_rest, 2);
                    assert(it.rest() =~= self.matches(s@));
                }
                it
            },
        }
    }
}

/// A traversal of the words below one node, which hands out one word at a
/// time. It holds the way from that node to where it stands: for every node
/// on it the place among the node's branches at which to go on, and the
/// characters of the way in `prefix`.
pub struct Iter<'a> {
    trie: &'a ArrayMapTrie,
    stack: Vec<(usize, usize)>,
    prefix: String,
    head: bool,
}

impl<'a> Cursor for Iter<'a> {
    /// The trie is well formed, the frames fit it, and the path buffer holds
    /// the path of the node on top.
    closed spec fn wf(&self) -> bool {
        &&& self.trie.wf()
        &&& self.trie.stack_wf(self.stack@)
        &&& self.stack@.len() > 0 ==> self.prefix@ == self.trie.path(self.stack@.last().0 as int)
    }

    closed spec fn rest(&self) -> Seq<Seq<char>> {
        (if self.head {
            seq![self.prefix@]
        } else {
            Seq::empty()
        }) + self.trie.stack_rest(self.stack@)
    }

    fn next(&mut self) -> (r: Option<String>) {
        if self.head {
            self.head = false;
            let w = self.prefix.clone();
            proof {
                assert(self.rest() =~= old(self).rest().drop_first());
            }
            return Some(w);
        }
        loop
            invariant
                self.wf(),
                !self.head,
                self.trie == old(self).trie,
                self.rest() == old(self).rest(),
            decreases self.trie.stack_steps(self.stack@),
        {
            let ghost before = self.stack@;
            let ghost buf = self.prefix@;
            let trie = self.trie;
            match self.stack.pop() {
                None => {
                    return None;
                },
                Some((i, n)) => {
                    let ghost below = before.drop_last();
                    let es = branches_view(&trie.nodes[i].node);
                    let count = es.len();
                    proof {
                        assert(before =~= below.push((i, n)));
                        trie.lemma_advance(below, i, n, buf);
                    }
                    if n < count {
                        let (c, j) = es[n];
                        self.prefix.push(c);
                        self.stack.push((i, n + 1));
                        self.stack.push((j, 0));
                        proof {
                            assert(self.stack@ == trie.advanced_stack(below, i, n));
                            assert(self.prefix@ == trie.advanced_buf(i, n, buf));
                        }
                        if trie.nodes[j].accept {
                            let w = self.prefix.clone();
                            proof {
                                assert(self.rest() =~= old(self).rest().drop_first());
                            }
                            return Some(w);
                        }
                    } else {
                        self.prefix.pop();
                        proof {
                            assert(self.stack@ == trie.advanced_stack(below, i, n));
                            assert(self.prefix@ == trie.advanced_buf(i, n, buf));
                        }
                    }
                    proof {
                        assert(self.rest() =~= old(self).rest());
                    }
                },
            }
        }
    }
}

impl ArrayMapTrie {
    /// The stack after one step on the frame `(i, n)` that stood on `below`.
    closed spec fn advanced_stack(
        &self,
        below: Seq<(usize, usize)>,
        i: usize,
        n: usize,
    ) -> Seq<(usize, usize)> {
        if n < self.branches(i as int).len() {
            below.push((i, (n + 1) as usize)).push((self.branches(i as int)[n as int].1, 0usize))
        } else {
            below
        }
    }

    /// The path buffer after one step on the frame `(i, n)`.
    closed spec fn advanced_buf(&self, i: usize, n: usize, buf: Seq<char>) -> Seq<char> {
        if n < self.branches(i as int).len() {
            buf.push(self.branches(i as int)[n as int].0)
        } else if buf.len() > 0 {
            buf.drop_last()
        } else {
            buf
        }
    }

    /// Whether the step on the frame `(i, n)` enters a node that accepts.
    closed spec fn enters_accepting(&self, i: usize, n: usize) -> bool {
        n < self.branches(i as int).len() && self.nodes@[self.branches(
            i as int,
        )[n as int].1 as int].accept
    }

    /// One step on the top frame keeps the stack well formed and the path
    /// buffer in step with it, takes one of the stack's steps, and yields at
    /// most the word of the node that it enters.
    proof fn lemma_advance(&self, below: Seq<(usize, usize)>, i: usize, n: usize, buf: Seq<char>)
        requires
            self.wf(),
            self.stack_wf(below.push((i, n))),
            self.branches(i as int).len() <= usize::MAX,
            buf == self.path(i as int),
        ensures
            self.stack_wf(self.advanced_stack(below, i, n)),
            self.advanced_stack(below, i, n).len() > 0 ==> self.advanced_buf(i, n, buf)
                == self.path(self.advanced_stack(below, i, n).last().0 as int),
            self.stack_steps(self.advanced_stack(below, i, n)) < self.stack_steps(
                below.push((i, n)),
            ),
            self.stack_rest(below.push((i, n))) == (if self.enters_accepting(i, n) {
                seq![self.advanced_buf(i, n, buf)]
            } else {
                Seq::empty()
            }) + self.stack_rest(self.advanced_stack(below, i, n)),
    {
        let before = below.push((i, n));
        let after = self.advanced_stack(below, i, n);
        let es = self.branches(i as int);
        self.lemma_stack_push(below, (i, n));
        assert(before[below.len() as int] == (i, n));
        assert forall|k: int| 0 <= k < below.len() implies before[k] == below[k] by {}
        if n < es.len() {
            let c = es[n as int].0;
            let j = es[n as int].1;
            let mid = below.push((i, (n + 1) as usize));
            assert(es.contains(es[n as int]));
            assert(self.edge(i as int, c, j));
            self.lemma_stack_push(below, (i, (n + 1) as usize));
            self.lemma_stack_push(mid, (j, 0usize));
            assert(self.words_from(i as int, n as int) == self.subtree(j as int) + self.words_from(
                i as int,
                n + 1,
            ));
            assert(self.subtree(j as int) == (if self.nodes@[j as int].accept {
                seq![self.path(j as int)]
            } else {
                Seq::empty()
            }) + self.words_from(j as int, 0));
            assert(self.steps_from(i as int, n as int) == 1 + self.steps_from(j as int, 0)
                + self.steps_from(i as int, n + 1));
            assert forall|k: int| 0 < k < after.len() implies (#[trigger] after[k - 1]).1 >= 1
                && self.branches(after[k - 1].0 as int)[after[k - 1].1 - 1].1 == after[k].0 by {
                if k < below.len() {
                    assert(before[k - 1] == after[k - 1]);
                    assert(before[k] == after[k]);
                } else if k == below.len() {
                    assert(before[k - 1] == after[k - 1]);
                    assert(before[k].0 == after[k].0);
                }
            }
            assert(self.stack_rest(before) =~= (if self.enters_accepting(i, n) {
                seq![self.advanced_buf(i, n, buf)]
            } else {
                Seq::empty()
            }) + self.stack_rest(after));
        } else {
            assert(self.words_from(i as int, n as int) =~= Seq::<Seq<char>>::empty());
            assert(self.stack_rest(before) =~= self.stack_rest(after));
            if below.len() > 0 {
                let k = below.len() as int;
                let e = self.branches(below[k - 1].0 as int)[below[k - 1].1 - 1];
                assert(before[k - 1] == below[k - 1]);
                assert(before[k] == (i, n));
                assert(self.branches(below[k - 1].0 as int).contains(e));
                assert(self.edge(below[k - 1].0 as int, e.0, i));
                assert(buf.drop_last() =~= self.path(below.last().0 as int));
            }
            assert forall|k: int| 0 < k < below.len() implies (#[trigger] below[k - 1]).1 >= 1
                && self.branches(below[k - 1].0 as int)[below[k - 1].1 - 1].1 == below[k].0 by {
                assert(before[k - 1] == below[k - 1]);
                assert(before[k] == below[k]);
            }
        }
    }
}

} // verus!
