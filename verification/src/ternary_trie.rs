//! A ternary search trie: every trie node holds an accept flag and its
//! branches, and the branches of one node form a binary search tree ordered by
//! the branch character.

use vstd::prelude::*;
use crate::trie::{drain, with_prefix, Cursor, Trie, Walk};
use crate::words::{
    ascending_words, chars_of, lemma_ascending_concat, lemma_ascending_unique, lemma_concat_contains,
    lemma_precedes_behind, lemma_prefix_push, precedes, spelled,
};

verus! {

/// One branch of a trie node: the character `c`, the sub-trie `eq` of what
/// follows `c`, and the sibling branches with smaller (`lo`) and greater
/// (`hi`) characters.
struct TernaryTrieNode {
    c: char,
    lo: Option<Box<TernaryTrieNode>>,
    eq: TernaryTrie,
    hi: Option<Box<TernaryTrieNode>>,
}

/// A set of words. `accept` says whether the empty word belongs to it, `root`
/// is the search tree of the branches by first character.
pub struct TernaryTrie {
    accept: bool,
    root: Option<Box<TernaryTrieNode>>,
}

/// The sub-trie that the search tree `l` holds for the character `c`.
spec fn branch(l: Option<Box<TernaryTrieNode>>, c: char) -> Option<TernaryTrie>
    decreases l,
{
    match l {
        None => None,
        Some(n) => if c < n.c {
            branch(n.lo, c)
        } else if n.c < c {
            branch(n.hi, c)
        } else {
            Some(n.eq)
        },
    }
}

/// Whether `c` lies strictly between the bounds `lo` and `hi`, where `None`
/// is no bound.
spec fn between(lo: Option<char>, c: char, hi: Option<char>) -> bool {
    &&& lo matches Some(b) ==> b < c
    &&& hi matches Some(b) ==> c < b
}

/// The search tree `l` is ordered, all its characters lie strictly between
/// `lo` and `hi`, and every sub-trie in it is well formed.
spec fn branches_wf(
    l: Option<Box<TernaryTrieNode>>,
    lo: Option<char>,
    hi: Option<char>,
) -> bool
    decreases l,
{
    match l {
        None => true,
        Some(n) => {
            &&& between(lo, n.c, hi)
            &&& branches_wf(n.lo, lo, Some(n.c))
            &&& branches_wf(n.hi, Some(n.c), hi)
            &&& n.eq.wf()
        },
    }
}

/// The search tree `l` after the non-empty word `w` was learned below it.
spec fn branches_learned(l: Option<Box<TernaryTrieNode>>, w: Seq<char>) -> Option<
    Box<TernaryTrieNode>,
>
    recommends
        w.len() > 0,
    decreases w.len(), l,
{
    if w.len() == 0 {
        l
    } else {
        match l {
            None => Some(
                Box::new(
                    TernaryTrieNode {
                        c: w[0],
                        lo: None,
                        eq: TernaryTrie::empty().learned(w.drop_first()),
                        hi: None,
                    },
                ),
            ),
            Some(n) => if w[0] < n.c {
                Some(
                    Box::new(
                        TernaryTrieNode { c: n.c, lo: branches_learned(n.lo, w), eq: n.eq, hi: n.hi },
                    ),
                )
            } else if n.c < w[0] {
                Some(
                    Box::new(
                        TernaryTrieNode { c: n.c, lo: n.lo, eq: n.eq, hi: branches_learned(n.hi, w) },
                    ),
                )
            } else {
                Some(
                    Box::new(
                        TernaryTrieNode {
                            c: n.c,
                            lo: n.lo,
                            eq: n.eq.learned(w.drop_first()),
                            hi: n.hi,
                        },
                    ),
                )
            },
        }
    }
}

impl TernaryTrieNode {
    fn new(c: char) -> (n: Self)
        ensures
            n == (TernaryTrieNode { c: c, lo: None, eq: TernaryTrie::empty(), hi: None }),
    {
        TernaryTrieNode { c: c, lo: None, eq: TernaryTrie::new(), hi: None }
    }
}

impl View for TernaryTrie {
    type V = Set<Seq<char>>;

    /// The set of the words that were learned.
    closed spec fn view(&self) -> Set<Seq<char>> {
        Set::new(|w: Seq<char>| self.has(w))
    }
}

impl TernaryTrie {
    /// The trie that holds no word.
    pub closed spec fn empty() -> Self {
        TernaryTrie { accept: false, root: None }
    }

    /// Every search tree in the trie is ordered by character.
    pub closed spec fn wf(self) -> bool
        decreases self,
    {
        branches_wf(self.root, None, None)
    }

    /// The sub-trie reached by following the characters of `p` from the root,
    /// if every one of them has a branch.
    closed spec fn descend(self, p: Seq<char>) -> Option<TernaryTrie>
        decreases p.len(),
    {
        if p.len() == 0 {
            Some(self)
        } else {
            match branch(self.root, p[0]) {
                None => None,
                Some(t) => t.descend(p.drop_first()),
            }
        }
    }

    /// Whether the path of `w` exists and ends in an accepting node.
    closed spec fn has(self, w: Seq<char>) -> bool {
        match self.descend(w) {
            None => false,
            Some(t) => t.accept,
        }
    }

    /// The trie after the words of `ws` were learned, one after the other.
    pub closed spec fn learned_all(self, ws: Seq<Seq<char>>) -> Self
        decreases ws.len(),
    {
        if ws.len() == 0 {
            self
        } else {
            self.learned_all(ws.drop_last()).learned(ws.last())
        }
    }

    /// The trie after `w` was learned: the nodes on the path of `w` are
    /// created where they are missing, and the last one accepts.
    pub closed spec fn learned(self, w: Seq<char>) -> Self
        decreases w.len(), self,
    {
        if w.len() == 0 {
            TernaryTrie { accept: true, root: self.root }
        } else {
            TernaryTrie { accept: self.accept, root: branches_learned(self.root, w) }
        }
    }

    /// The trie that holds no word.
    pub fn new() -> (t: Self)
        ensures
            t == Self::empty(),
            t.wf(),
            t@ == Set::<Seq<char>>::empty(),
    {
        let t = TernaryTrie { accept: false, root: None };
        proof {
            lemma_empty_has_nothing();
            assert(t@ =~= Set::<Seq<char>>::empty());
        }
        t
    }

    /// Follows the characters of `s` down from this node.
    fn search(&self, s: &str) -> (r: Option<&TernaryTrie>)
        ensures
            r.is_some() == self.descend(s@).is_some(),
            r.is_some() ==> *r.unwrap() == self.descend(s@).unwrap(),
    {
        let mut t: &TernaryTrie = self;
        proof {
            assert(s@.skip(0) =~= s@);
        }
        for c in it: s.chars()
            invariant
                it.seq() == s@,
                self.descend(s@) == t.descend(s@.skip(it.index())),
        {
            proof {
                assert(s@.skip(it.index()).drop_first() =~= s@.skip(it.index() + 1));
            }
            match search_char(&t.root, c) {
                None => {
                    return None;
                },
                Some(next) => {
                    t = next;
                },
            }
        }
        Some(t)
    }

    /// Adds the word `w[from..]` below this node.
    fn learn_from(self, w: &Vec<char>, from: usize) -> (t: Self)
        requires
            from <= w.len(),
        ensures
            t == self.learned(w@.skip(from as int)),
        decreases w.len() - from, 1int,
    {
        if from == w.len() {
            TernaryTrie { accept: true, root: self.root }
        } else {
            TernaryTrie { accept: self.accept, root: learn_char(self.root, w, from) }
        }
    }

}

/// Looks the character `c` up in the search tree `l`.
fn search_char(l: &Option<Box<TernaryTrieNode>>, c: char) -> (r: Option<&TernaryTrie>)
    ensures
        r.is_some() == branch(*l, c).is_some(),
        r.is_some() ==> *r.unwrap() == branch(*l, c).unwrap(),
    decreases *l,
{
    match l {
        None => None,
        Some(n) => if c < n.c {
            search_char(&n.lo, c)
        } else if n.c < c {
            search_char(&n.hi, c)
        } else {
            Some(&n.eq)
        },
    }
}

/// Adds the non-empty word `w[from..]` below the search tree `l`: finds or
/// makes the branch of its first character and learns the rest under it.
fn learn_char(l: Option<Box<TernaryTrieNode>>, w: &Vec<char>, from: usize) -> (r: Option<
    Box<TernaryTrieNode>,
>)
    requires
        from < w.len(),
    ensures
        r == branches_learned(l, w@.skip(from as int)),
    decreases w.len() - from, 0int, l,
{
    let c = w[from];
    proof {
        assert(w@.skip(from as int).drop_first() =~= w@.skip(from as int + 1));
    }
    let n = match l {
        None => TernaryTrieNode::new(c),
        Some(b) => *b,
    };
    let TernaryTrieNode { c: nc, lo, eq, hi } = n;
    if c < nc {
        Some(Box::new(TernaryTrieNode { c: nc, lo: learn_char(lo, w, from), eq: eq, hi: hi }))
    } else if nc < c {
        Some(Box::new(TernaryTrieNode { c: nc, lo: lo, eq: eq, hi: learn_char(hi, w, from) }))
    } else {
        Some(Box::new(TernaryTrieNode { c: nc, lo: lo, eq: eq.learn_from(w, from + 1), hi: hi }))
    }
}

/// The empty trie holds no word.
proof fn lemma_empty_has_nothing()
    ensures
        forall|w: Seq<char>| !TernaryTrie::empty().has(w),
{
    assert forall|w: Seq<char>| !TernaryTrie::empty().has(w) by {
        reveal_with_fuel(TernaryTrie::descend, 2);
    }
}

/// `has`, one character at a time.
proof fn lemma_has_step(t: TernaryTrie, w: Seq<char>)
    ensures
        t.has(w) == if w.len() == 0 {
            t.accept
        } else {
            match branch(t.root, w[0]) {
                None => false,
                Some(sub) => sub.has(w.drop_first()),
            }
        },
{
    reveal_with_fuel(TernaryTrie::descend, 2);
}

/// Where a search tree holds a branch, its character lies within the tree's
/// bounds.
proof fn lemma_branch_bounds(
    l: Option<Box<TernaryTrieNode>>,
    lo: Option<char>,
    hi: Option<char>,
    c: char,
)
    requires
        branches_wf(l, lo, hi),
        branch(l, c).is_some(),
    ensures
        between(lo, c, hi),
        branch(l, c).unwrap().wf(),
    decreases l,
{
    match l {
        None => {},
        Some(n) => {
            if c < n.c {
                lemma_branch_bounds(n.lo, lo, Some(n.c), c);
            } else if n.c < c {
                lemma_branch_bounds(n.hi, Some(n.c), hi, c);
            }
        },
    }
}

/// The sub-trie of `c` before the word `w` is learned, or the empty trie
/// where there is none yet.
spec fn branch_or_empty(l: Option<Box<TernaryTrieNode>>, c: char) -> TernaryTrie {
    match branch(l, c) {
        None => TernaryTrie::empty(),
        Some(t) => t,
    }
}

/// Learning a word changes the branch of its first character and no other.
proof fn lemma_branch_learned(l: Option<Box<TernaryTrieNode>>, w: Seq<char>, c: char)
    requires
        w.len() > 0,
    ensures
        branch(branches_learned(l, w), c) == if c == w[0] {
            Some(branch_or_empty(l, c).learned(w.drop_first()))
        } else {
            branch(l, c)
        },
    decreases l,
{
    match l {
        None => {},
        Some(n) => {
            if w[0] < n.c {
                lemma_branch_learned(n.lo, w, c);
            } else if n.c < w[0] {
                lemma_branch_learned(n.hi, w, c);
            }
        },
    }
}

/// Learning keeps the trie well formed.
proof fn lemma_learned_wf(t: TernaryTrie, w: Seq<char>)
    requires
        t.wf(),
    ensures
        t.learned(w).wf(),
    decreases w.len(), t,
{
    if w.len() > 0 {
        lemma_branches_learned_wf(t.root, w, None, None);
    }
}

proof fn lemma_branches_learned_wf(
    l: Option<Box<TernaryTrieNode>>,
    w: Seq<char>,
    lo: Option<char>,
    hi: Option<char>,
)
    requires
        w.len() > 0,
        branches_wf(l, lo, hi),
        between(lo, w[0], hi),
    ensures
        branches_wf(branches_learned(l, w), lo, hi),
    decreases w.len(), l,
{
    match l {
        None => {
            reveal_with_fuel(branches_wf, 2);
            assert(TernaryTrie::empty().wf());
            lemma_learned_wf(TernaryTrie::empty(), w.drop_first());
        },
        Some(n) => {
            if w[0] < n.c {
                lemma_branches_learned_wf(n.lo, w, lo, Some(n.c));
            } else if n.c < w[0] {
                lemma_branches_learned_wf(n.hi, w, Some(n.c), hi);
            } else {
                lemma_learned_wf(n.eq, w.drop_first());
            }
        },
    }
}

/// After `w` was learned the trie holds `w` and what it held before.
proof fn lemma_learned_has(t: TernaryTrie, w: Seq<char>, v: Seq<char>)
    ensures
        t.learned(w).has(v) == (t.has(v) || v == w),
    decreases w.len(),
{
    let u = t.learned(w);
    lemma_has_step(t, v);
    lemma_has_step(u, v);
    if w.len() == 0 {
        if v.len() == 0 {
            assert(v =~= w);
        }
    } else if v.len() > 0 {
        lemma_branch_learned(t.root, w, v[0]);
        if v[0] == w[0] {
            let sub = branch_or_empty(t.root, v[0]);
            lemma_learned_has(sub, w.drop_first(), v.drop_first());
            if branch(t.root, v[0]).is_none() {
                lemma_empty_has_nothing();
            }
            if v.drop_first() == w.drop_first() {
                assert(v =~= seq![v[0]] + v.drop_first());
                assert(w =~= seq![w[0]] + w.drop_first());
            }
        }
    }
}

/// Learning a word relates the trie before and after: well-formedness is
/// kept, and the set of words gains exactly that word.
pub proof fn lemma_learned(t: TernaryTrie, w: Seq<char>)
    requires
        t.wf(),
    ensures
        t.learned(w).wf(),
        t.learned(w)@ == t@.insert(w),
{
    lemma_learned_wf(t, w);
    assert forall|v: Seq<char>| t.learned(w)@.contains(v) == t@.insert(w).contains(v) by {
        lemma_learned_has(t, w, v);
    }
    assert(t.learned(w)@ =~= t@.insert(w));
}

/// Learning a word that the trie already holds leaves the trie as it is.
pub proof fn lemma_learned_known(t: TernaryTrie, w: Seq<char>)
    requires
        t@.contains(w),
    ensures
        t.learned(w) == t,
    decreases w.len(), t,
{
    lemma_has_step(t, w);
    if w.len() > 0 {
        lemma_branches_learned_known(t.root, w);
    }
}

proof fn lemma_branches_learned_known(l: Option<Box<TernaryTrieNode>>, w: Seq<char>)
    requires
        w.len() > 0,
        branch(l, w[0]).is_some(),
        branch(l, w[0]).unwrap().has(w.drop_first()),
    ensures
        branches_learned(l, w) == l,
    decreases w.len(), l,
{
    match l {
        None => {},
        Some(n) => {
            if w[0] < n.c {
                lemma_branches_learned_known(n.lo, w);
            } else if n.c < w[0] {
                lemma_branches_learned_known(n.hi, w);
            } else {
                lemma_learned_known(n.eq, w.drop_first());
            }
        },
    }
}

/// A trie that learned the words of a list, starting from nothing, holds
/// exactly the words of the list.
pub proof fn lemma_round_trip(ws: Seq<Seq<char>>)
    ensures
        TernaryTrie::empty().learned_all(ws).wf(),
        TernaryTrie::empty().learned_all(ws)@ == ws.to_set(),
    decreases ws.len(),
{
    let t = TernaryTrie::empty().learned_all(ws);
    if ws.len() == 0 {
        lemma_empty_has_nothing();
        assert(t.wf());
        assert(t@ =~= ws.to_set());
    } else {
        lemma_round_trip(ws.drop_last());
        lemma_learned(TernaryTrie::empty().learned_all(ws.drop_last()), ws.last());
        assert forall|w: Seq<char>| ws.to_set().contains(w) <==> ws.drop_last().to_set().insert(
            ws.last(),
        ).contains(w) by {
            if ws.contains(w) {
                let i = choose|i: int| 0 <= i < ws.len() && ws[i] == w;
                if i < ws.len() - 1 {
                    assert(ws.drop_last()[i] == w);
                }
            }
            if ws.drop_last().contains(w) {
                let i = choose|i: int| 0 <= i < ws.drop_last().len() && ws.drop_last()[i] == w;
                assert(ws[i] == w);
            }
            if w == ws.last() {
                assert(ws[ws.len() - 1] == w);
            }
        }
        assert(t@ =~= ws.to_set());
    }
}

/// Learning the same word twice gives the same trie as learning it once.
pub proof fn lemma_learn_idempotent(t: TernaryTrie, w: Seq<char>)
    ensures
        t.learned(w).learned(w) == t.learned(w),
{
    lemma_learned_has(t, w, w);
    lemma_learned_known(t.learned(w), w);
}

/// The words of the trie `t`, each written behind `p`, in depth-first order:
/// `p` itself where `t` accepts, then the words of each branch, the branches
/// by ascending character.
spec fn trie_words(t: TernaryTrie, p: Seq<char>) -> Seq<Seq<char>>
    decreases t,
{
    (if t.accept {
        seq![p]
    } else {
        Seq::empty()
    }) + branches_words(t.root, p)
}

/// The words below the search tree `l`, each written behind `p`, in
/// depth-first order.
spec fn branches_words(l: Option<Box<TernaryTrieNode>>, p: Seq<char>) -> Seq<Seq<char>>
    decreases l,
{
    match l {
        None => Seq::empty(),
        Some(n) => branches_words(n.lo, p) + trie_words(n.eq, p.push(n.c)) + branches_words(
            n.hi,
            p,
        ),
    }
}

/// The number of steps that a traversal spends on the search tree `l`.
spec fn branches_steps(l: Option<Box<TernaryTrieNode>>) -> nat
    decreases l,
{
    match l {
        None => 0,
        Some(n) => 4 + branches_steps(n.lo) + branches_steps(n.eq.root) + branches_steps(n.hi),
    }
}

/// What a traversal still yields from the branch `n` when `k` of its three
/// parts (smaller siblings, the branch itself, greater siblings) are done and
/// the path buffer holds `buf`.
spec fn frame_rest(n: TernaryTrieNode, k: u8, buf: Seq<char>) -> Seq<Seq<char>> {
    if k == 0 {
        branches_words(n.lo, buf) + trie_words(n.eq, buf.push(n.c)) + branches_words(n.hi, buf)
    } else if k == 1 {
        trie_words(n.eq, buf.push(n.c)) + branches_words(n.hi, buf)
    } else if k == 2 {
        branches_words(n.hi, buf.drop_last())
    } else {
        Seq::empty()
    }
}

/// The path buffer at the moment a frame in state `k` is left behind.
spec fn frame_exit(k: u8, buf: Seq<char>) -> Seq<char> {
    if k == 2 {
        buf.drop_last()
    } else {
        buf
    }
}

/// The steps that a frame in state `k` still takes, its sub-trees included.
spec fn frame_steps(n: TernaryTrieNode, k: u8) -> nat {
    if k == 0 {
        4 + branches_steps(n.lo) + branches_steps(n.eq.root) + branches_steps(n.hi)
    } else if k == 1 {
        3 + branches_steps(n.eq.root) + branches_steps(n.hi)
    } else if k == 2 {
        2 + branches_steps(n.hi)
    } else {
        1
    }
}

/// What a traversal with this stack and path buffer still yields; the top of
/// the stack is its last entry.
spec fn stack_rest(stack: Seq<(&TernaryTrieNode, u8)>, buf: Seq<char>) -> Seq<Seq<char>>
    decreases stack.len(),
{
    if stack.len() == 0 {
        Seq::empty()
    } else {
        let (n, k) = stack.last();
        frame_rest(*n, k, buf) + stack_rest(stack.drop_last(), frame_exit(k, buf))
    }
}

spec fn stack_wf(stack: Seq<(&TernaryTrieNode, u8)>, buf: Seq<char>) -> bool
    decreases stack.len(),
{
    if stack.len() == 0 {
        true
    } else {
        let (n, k) = stack.last();
        &&& k <= 3
        &&& k == 2 ==> buf.len() > 0
        &&& stack_wf(stack.drop_last(), frame_exit(k, buf))
    }
}

spec fn stack_steps(stack: Seq<(&TernaryTrieNode, u8)>) -> nat
    decreases stack.len(),
{
    if stack.len() == 0 {
        0
    } else {
        let (n, k) = stack.last();
        frame_steps(*n, k) + stack_steps(stack.drop_last())
    }
}

/// A traversal of the words below one node, which hands out one word at a
/// time. It holds the path from that node to where it stands: one frame per
/// branch that it has entered, and the characters of the path in `prefix`.
pub struct Iter<'a> {
    stack: Vec<(&'a TernaryTrieNode, u8)>,
    prefix: String,
    head: bool,
}

impl<'a> Iter<'a> {
    spec fn steps(&self) -> nat {
        stack_steps(self.stack@)
    }
}

impl<'a> Cursor for Iter<'a> {
    /// The frames and the path buffer fit together.
    closed spec fn wf(&self) -> bool {
        stack_wf(self.stack@, self.prefix@)
    }

    closed spec fn rest(&self) -> Seq<Seq<char>> {
        (if self.head {
            seq![self.prefix@]
        } else {
            Seq::empty()
        }) + stack_rest(self.stack@, self.prefix@)
    }

    fn next(&mut self) -> (r: Option<String>) {
        if self.head {
            self.head = false;
            let w = self.prefix.clone();
            proof {
                assert(self.rest() =~= old(self).rest().drop_first());
            }
            return Some(w);
        }
        loop
            invariant
                self.wf(),
                !self.head,
                self.rest() == old(self).rest(),
            decreases self.steps(),
        {
            let ghost before = self.stack@;
            let ghost buf = self.prefix@;
            match self.stack.pop() {
                None => {
                    return None;
                },
                Some((n, k)) => {
                    let ghost below = before.drop_last();
                    proof {
                        assert(before =~= below.push((n, k)));
                        lemma_advance(below, n, k, buf);
                    }
                    if k == 0 {
                        self.stack.push((n, 1));
                        match &n.lo {
                            None => {},
                            Some(sub) => {
                                self.stack.push((&**sub, 0));
                            },
                        }
                    } else if k == 1 {
                        self.prefix.push(n.c);
                        self.stack.push((n, 2));
                        match &n.eq.root {
                            None => {},
                            Some(sub) => {
                                self.stack.push((&**sub, 0));
                            },
                        }
                        if n.eq.accept {
                            let w = self.prefix.clone();
                            proof {
                                assert(self.rest() =~= old(self).rest().drop_first());
                            }
                            return Some(w);
                        }
                    } else if k == 2 {
                        self.prefix.pop();
                        self.stack.push((n, 3));
                        match &n.hi {
                            None => {},
                            Some(sub) => {
                                self.stack.push((&**sub, 0));
                            },
                        }
                    }
                    proof {
                        assert(self.stack@ == advanced_stack(below, n, k));
                        assert(self.prefix@ == advanced_buf(*n, k, buf));
                        assert(self.rest() =~= old(self).rest());
                    }
                },
            }
        }
    }
}

/// The stack `s` with a frame for the search tree `l` on top, if `l` is not
/// empty.
spec fn with_child<'a>(
    s: Seq<(&'a TernaryTrieNode, u8)>,
    l: Option<Box<TernaryTrieNode>>,
) -> Seq<(&'a TernaryTrieNode, u8)> {
    match l {
        None => s,
        Some(sub) => s.push((&*sub, 0u8)),
    }
}

/// The stack after one step on the frame `(n, k)` that stood on `below`.
spec fn advanced_stack<'a>(
    below: Seq<(&'a TernaryTrieNode, u8)>,
    n: &'a TernaryTrieNode,
    k: u8,
) -> Seq<(&'a TernaryTrieNode, u8)> {
    if k == 0 {
        with_child(below.push((n, 1u8)), n.lo)
    } else if k == 1 {
        with_child(below.push((n, 2u8)), n.eq.root)
    } else if k == 2 {
        with_child(below.push((n, 3u8)), n.hi)
    } else {
        below
    }
}

/// The path buffer after one step on a frame of `n` in state `k`.
spec fn advanced_buf(n: TernaryTrieNode, k: u8, buf: Seq<char>) -> Seq<char> {
    if k == 1 {
        buf.push(n.c)
    } else if k == 2 {
        buf.drop_last()
    } else {
        buf
    }
}

/// One step on the top frame keeps the stack well formed, takes one of its
/// steps, and yields at most the word of the branch that it enters.
proof fn lemma_advance(
    below: Seq<(&TernaryTrieNode, u8)>,
    n: &TernaryTrieNode,
    k: u8,
    buf: Seq<char>,
)
    requires
        stack_wf(below.push((n, k)), buf),
    ensures
        stack_wf(advanced_stack(below, n, k), advanced_buf(*n, k, buf)),
        stack_steps(advanced_stack(below, n, k)) < stack_steps(below.push((n, k))),
        stack_rest(below.push((n, k)), buf) == (if k == 1 && n.eq.accept {
            seq![advanced_buf(*n, k, buf)]
        } else {
            Seq::empty()
        }) + stack_rest(advanced_stack(below, n, k), advanced_buf(*n, k, buf)),
{
    let after = advanced_buf(*n, k, buf);
    lemma_stack_push(below, (n, k), buf);
    if k <= 2 {
        let next = (k + 1) as u8;
        let l = if k == 0 {
            n.lo
        } else if k == 1 {
            n.eq.root
        } else {
            n.hi
        };
        let mid = below.push((n, next));
        lemma_stack_push(below, (n, next), after);
        if k == 1 {
            assert(after.drop_last() =~= buf);
        }
        match l {
            None => {},
            Some(sub) => {
                lemma_stack_push(mid, (&*sub, 0u8), after);
            },
        }
        assert(stack_rest(below.push((n, k)), buf) =~= (if k == 1 && n.eq.accept {
            seq![after]
        } else {
            Seq::empty()
        }) + stack_rest(advanced_stack(below, n, k), after));
    } else {
        assert(stack_rest(below.push((n, k)), buf) =~= stack_rest(below, buf));
    }
}

/// A frame put on top of a stack comes first in what the stack yields.
proof fn lemma_stack_push(
    stack: Seq<(&TernaryTrieNode, u8)>,
    f: (&TernaryTrieNode, u8),
    buf: Seq<char>,
)
    ensures
        stack_rest(stack.push(f), buf) == frame_rest(*f.0, f.1, buf) + stack_rest(
            stack,
            frame_exit(f.1, buf),
        ),
        stack_wf(stack.push(f), buf) == (f.1 <= 3 && (f.1 == 2 ==> buf.len() > 0) && stack_wf(
            stack,
            frame_exit(f.1, buf),
        )),
        stack_steps(stack.push(f)) == frame_steps(*f.0, f.1) + stack_steps(stack),
{
    assert(stack.push(f).drop_last() =~= stack);
    assert(stack.push(f).last() == f);
}

impl TernaryTrie {
    /// The learned words that begin with `p`, in the order in which a
    /// traversal hands them out.
    pub closed spec fn matches(self, p: Seq<char>) -> Seq<Seq<char>> {
        match self.descend(p) {
            None => Seq::empty(),
            Some(t) => trie_words(t, p),
        }
    }

}

impl<'a> Walk<'a> for TernaryTrie {
    type Iter = Iter<'a>;

    fn prefix_iter(&'a self, s: &str) -> (it: Iter<'a>)
        ensures
            it.rest() == self.matches(s@),
    {
        proof {
            lemma_matches(*self, s@);
            lemma_matches_ascending(*self, s@);
            assert(self.matches(s@).to_set() =~= with_prefix(self@, s@));
        }
        match self.search(s) {
            None => {
                let it = Iter { stack: Vec::new(), prefix: String::new(), head: false };
                proof {
                    assert(it.rest() =~= self.matches(s@));
                }
                it
            },
            Some(t) => {
                let mut stack: Vec<(&TernaryTrieNode, u8)> = Vec::new();
                match &t.root {
                    None => {},
                    Some(n) => {
                        stack.push((&**n, 0));
                        proof {
                            lemma_stack_push(Seq::empty(), (&**n, 0u8), s@);
                        }
                    },
                }
                let it = Iter { stack: stack, prefix: s.to_owned(), head: t.accept };
                proof {
                    assert(it.rest() =~= self.matches(s@));
                }
                it
            },
        }
    }
}

impl Trie for TernaryTrie {
    open spec fn words(&self) -> Set<Seq<char>> {
        self@
    }

    open spec fn inv(&self) -> bool {
        self.wf()
    }

    fn learn(self, s: &str) -> (t: Self)
        ensures
            t == self.learned(s@),
            self@.contains(s@) ==> t == self,
    {
        let w = chars_of(s);
        proof {
            assert(w@.skip(0) =~= w@);
            lemma_learned(self, s@);
            if self@.contains(s@) {
                lemma_learned_known(self, s@);
            }
        }
        self.learn_from(&w, 0)
    }

    fn recognize(&self, s: &str) -> (b: bool) {
        match self.search(s) {
            None => false,
            Some(t) => t.accept,
        }
    }

    fn prefix_search(&self, s: &str) -> (r: Vec<String>)
        ensures
            spelled(r@) == self.matches(s@),
    {
        drain(self.prefix_iter(s))
    }
}

/// Following `p` and then `v` is following `p + v`.
proof fn lemma_descend_concat(t: TernaryTrie, p: Seq<char>, v: Seq<char>)
    ensures
        t.descend(p + v) == match t.descend(p) {
            None => None,
            Some(sub) => sub.descend(v),
        },
    decreases p.len(),
{
    if p.len() == 0 {
        assert(p + v =~= v);
    } else {
        assert((p + v).drop_first() =~= p.drop_first() + v);
        match branch(t.root, p[0]) {
            None => {},
            Some(sub) => {
                lemma_descend_concat(sub, p.drop_first(), v);
            },
        }
    }
}

/// Every node of a well-formed trie is well formed.
proof fn lemma_descend_wf(t: TernaryTrie, p: Seq<char>)
    requires
        t.wf(),
        t.descend(p).is_some(),
    ensures
        t.descend(p).unwrap().wf(),
    decreases p.len(),
{
    if p.len() > 0 {
        lemma_branch_bounds(t.root, None, None, p[0]);
        lemma_descend_wf(branch(t.root, p[0]).unwrap(), p.drop_first());
    }
}

/// `x` is `p`, then a character that has a branch in `l`, then a word of that
/// branch's sub-trie.
spec fn in_branches(l: Option<Box<TernaryTrieNode>>, p: Seq<char>, x: Seq<char>) -> bool {
    &&& p.is_prefix_of(x)
    &&& x.len() > p.len()
    &&& match branch(l, x[p.len() as int]) {
        None => false,
        Some(sub) => sub.has(x.skip((p.len() + 1) as int)),
    }
}

/// `x` is `p` followed by a word of `t`.
spec fn in_trie(t: TernaryTrie, p: Seq<char>, x: Seq<char>) -> bool {
    p.is_prefix_of(x) && t.has(x.skip(p.len() as int))
}

/// The traversal of a well-formed trie yields `x` exactly where `x` is `p`
/// followed by a word of the trie.
proof fn lemma_trie_words_contains(t: TernaryTrie, p: Seq<char>, x: Seq<char>)
    requires
        t.wf(),
    ensures
        trie_words(t, p).contains(x) == in_trie(t, p, x),
    decreases t,
{
    let head = if t.accept {
        seq![p]
    } else {
        Seq::<Seq<char>>::empty()
    };
    lemma_concat_contains(head, branches_words(t.root, p), x);
    lemma_branches_words_contains(t.root, p, x, None, None);
    let v = x.skip(p.len() as int);
    if p.is_prefix_of(x) {
        lemma_has_step(t, v);
        if v.len() == 0 {
            assert(x =~= p);
        } else {
            assert(v.drop_first() =~= x.skip((p.len() + 1) as int));
        }
    }
    if t.accept {
        assert(head[0] == p);
        assert(p.is_prefix_of(p));
        assert(p.skip(p.len() as int).len() == 0);
    }
}

proof fn lemma_branches_words_contains(
    l: Option<Box<TernaryTrieNode>>,
    p: Seq<char>,
    x: Seq<char>,
    lo: Option<char>,
    hi: Option<char>,
)
    requires
        branches_wf(l, lo, hi),
    ensures
        branches_words(l, p).contains(x) == in_branches(l, p, x),
    decreases l,
{
    match l {
        None => {},
        Some(n) => {
            let a = branches_words(n.lo, p);
            let b = trie_words(n.eq, p.push(n.c));
            let c = branches_words(n.hi, p);
            lemma_concat_contains(a + b, c, x);
            lemma_concat_contains(a, b, x);
            lemma_branches_words_contains(n.lo, p, x, lo, Some(n.c));
            lemma_trie_words_contains(n.eq, p.push(n.c), x);
            lemma_branches_words_contains(n.hi, p, x, Some(n.c), hi);
            lemma_prefix_push(p, n.c, x);
            if p.is_prefix_of(x) && x.len() > p.len() {
                let k = x[p.len() as int];
                if branch(n.lo, k).is_some() {
                    lemma_branch_bounds(n.lo, lo, Some(n.c), k);
                }
                if branch(n.hi, k).is_some() {
                    lemma_branch_bounds(n.hi, Some(n.c), hi, k);
                }
                assert(x.skip(p.push(n.c).len() as int) =~= x.skip((p.len() + 1) as int));
            }
        },
    }
}

/// The traversal of a well-formed trie yields no word twice.
proof fn lemma_trie_words_distinct(t: TernaryTrie, p: Seq<char>)
    requires
        t.wf(),
    ensures
        trie_words(t, p).no_duplicates(),
    decreases t,
{
    let head = if t.accept {
        seq![p]
    } else {
        Seq::<Seq<char>>::empty()
    };
    let tail = branches_words(t.root, p);
    lemma_branches_words_distinct(t.root, p, None, None);
    assert forall|i: int, j: int| 0 <= i < head.len() && 0 <= j < tail.len() implies head[i]
        != tail[j] by {
        lemma_branches_words_contains(t.root, p, tail[j], None, None);
        assert(tail.contains(tail[j]));
    }
    vstd::seq_lib::lemma_no_dup_in_concat(head, tail);
}

proof fn lemma_branches_words_distinct(
    l: Option<Box<TernaryTrieNode>>,
    p: Seq<char>,
    lo: Option<char>,
    hi: Option<char>,
)
    requires
        branches_wf(l, lo, hi),
    ensures
        branches_words(l, p).no_duplicates(),
    decreases l,
{
    match l {
        None => {},
        Some(n) => {
            let a = branches_words(n.lo, p);
            let b = trie_words(n.eq, p.push(n.c));
            let c = branches_words(n.hi, p);
            lemma_branches_words_distinct(n.lo, p, lo, Some(n.c));
            lemma_trie_words_distinct(n.eq, p.push(n.c));
            lemma_branches_words_distinct(n.hi, p, Some(n.c), hi);
            assert forall|i: int, j: int| 0 <= i < a.len() && 0 <= j < b.len() implies a[i]
                != b[j] by {
                assert(a.contains(a[i]));
                assert(b.contains(b[j]));
                lemma_branches_words_contains(n.lo, p, a[i], lo, Some(n.c));
                lemma_trie_words_contains(n.eq, p.push(n.c), b[j]);
                lemma_prefix_push(p, n.c, b[j]);
                lemma_branch_bounds(n.lo, lo, Some(n.c), a[i][p.len() as int]);
            }
            vstd::seq_lib::lemma_no_dup_in_concat(a, b);
            assert forall|i: int, j: int| 0 <= i < (a + b).len() && 0 <= j < c.len() implies (a
                + b)[i] != c[j] by {
                let x = (a + b)[i];
                assert((a + b).contains(x));
                assert(c.contains(c[j]));
                lemma_concat_contains(a, b, x);
                lemma_branches_words_contains(n.lo, p, x, lo, Some(n.c));
                lemma_trie_words_contains(n.eq, p.push(n.c), x);
                lemma_prefix_push(p, n.c, x);
                lemma_branches_words_contains(n.hi, p, c[j], Some(n.c), hi);
                lemma_branch_bounds(n.hi, Some(n.c), hi, c[j][p.len() as int]);
                if a.contains(x) {
                    lemma_branch_bounds(n.lo, lo, Some(n.c), x[p.len() as int]);
                }
            }
            vstd::seq_lib::lemma_no_dup_in_concat(a + b, c);
        },
    }
}

/// The traversal of a well-formed trie yields the words in the order of the
/// dictionary.
proof fn lemma_trie_words_ascending(t: TernaryTrie, p: Seq<char>)
    requires
        t.wf(),
    ensures
        ascending_words(trie_words(t, p)),
    decreases t,
{
    let head = if t.accept {
        seq![p]
    } else {
        Seq::<Seq<char>>::empty()
    };
    let tail = branches_words(t.root, p);
    lemma_branches_words_ascending(t.root, p, None, None);
    assert forall|i: int, j: int| 0 <= i < head.len() && 0 <= j < tail.len() implies precedes(
        #[trigger] head[i],
        #[trigger] tail[j],
    ) by {
        assert(tail.contains(tail[j]));
        lemma_branches_words_contains(t.root, p, tail[j], None, None);
        assert(p.is_prefix_of(p));
        lemma_precedes_behind(p, p, tail[j]);
    }
    lemma_ascending_concat(head, tail);
}

proof fn lemma_branches_words_ascending(
    l: Option<Box<TernaryTrieNode>>,
    p: Seq<char>,
    lo: Option<char>,
    hi: Option<char>,
)
    requires
        branches_wf(l, lo, hi),
    ensures
        ascending_words(branches_words(l, p)),
    decreases l,
{
    match l {
        None => {},
        Some(n) => {
            let a = branches_words(n.lo, p);
            let b = trie_words(n.eq, p.push(n.c));
            let c = branches_words(n.hi, p);
            lemma_branches_words_ascending(n.lo, p, lo, Some(n.c));
            lemma_trie_words_ascending(n.eq, p.push(n.c));
            lemma_branches_words_ascending(n.hi, p, Some(n.c), hi);
            assert forall|i: int, j: int| 0 <= i < a.len() && 0 <= j < b.len() implies precedes(
                #[trigger] a[i],
                #[trigger] b[j],
            ) by {
                assert(a.contains(a[i]));
                assert(b.contains(b[j]));
                lemma_branches_words_contains(n.lo, p, a[i], lo, Some(n.c));
                lemma_trie_words_contains(n.eq, p.push(n.c), b[j]);
                lemma_prefix_push(p, n.c, b[j]);
                lemma_branch_bounds(n.lo, lo, Some(n.c), a[i][p.len() as int]);
                lemma_precedes_behind(p, a[i], b[j]);
            }
            lemma_ascending_concat(a, b);
            assert forall|i: int, j: int|
                0 <= i < (a + b).len() && 0 <= j < c.len() implies precedes(
                #[trigger] (a + b)[i],
                #[trigger] c[j],
            ) by {
                let x = (a + b)[i];
                assert((a + b).contains(x));
                assert(c.contains(c[j]));
                lemma_concat_contains(a, b, x);
                lemma_branches_words_contains(n.lo, p, x, lo, Some(n.c));
                lemma_trie_words_contains(n.eq, p.push(n.c), x);
                lemma_prefix_push(p, n.c, x);
                lemma_branches_words_contains(n.hi, p, c[j], Some(n.c), hi);
                lemma_branch_bounds(n.hi, Some(n.c), hi, c[j][p.len() as int]);
                if a.contains(x) {
                    lemma_branch_bounds(n.lo, lo, Some(n.c), x[p.len() as int]);
                }
                lemma_precedes_behind(p, x, c[j]);
            }
            lemma_ascending_concat(a + b, c);
        },
    }
}

/// The words under a prefix come in the order of the dictionary.
pub proof fn lemma_matches_ascending(t: TernaryTrie, p: Seq<char>)
    requires
        t.wf(),
    ensures
        ascending_words(t.matches(p)),
{
    match t.descend(p) {
        None => {},
        Some(sub) => {
            lemma_descend_wf(t, p);
            lemma_trie_words_ascending(sub, p);
        },
    }
}

/// Two tries that hold the same words list them alike, in whatever order
/// each has learned them.
pub proof fn lemma_order_of_learning(t: TernaryTrie, u: TernaryTrie, p: Seq<char>)
    requires
        t.wf(),
        u.wf(),
        t@ == u@,
    ensures
        t.matches(p) == u.matches(p),
{
    lemma_matches(t, p);
    lemma_matches(u, p);
    lemma_matches_ascending(t, p);
    lemma_matches_ascending(u, p);
    assert(t.matches(p).to_set() =~= u.matches(p).to_set());
    lemma_ascending_unique(t.matches(p), u.matches(p));
}

/// The words that a traversal from the prefix `p` hands out are exactly the
/// learned words that begin with `p`, and none comes twice.
pub proof fn lemma_matches(t: TernaryTrie, p: Seq<char>)
    requires
        t.wf(),
    ensures
        t.matches(p).no_duplicates(),
        forall|w: Seq<char>| #[trigger]
            t.matches(p).contains(w) <==> t@.contains(w) && p.is_prefix_of(w),
{
    assert forall|w: Seq<char>| #[trigger]
        t.matches(p).contains(w) <==> t@.contains(w) && p.is_prefix_of(w) by {
        if p.is_prefix_of(w) {
            assert(w =~= p + w.skip(p.len() as int));
            lemma_descend_concat(t, p, w.skip(p.len() as int));
        }
        match t.descend(p) {
            None => {},
            Some(sub) => {
                lemma_descend_wf(t, p);
                lemma_trie_words_contains(sub, p, w);
            },
        }
    }
    match t.descend(p) {
        None => {},
        Some(sub) => {
            lemma_descend_wf(t, p);
            lemma_trie_words_distinct(sub, p);
        },
    }
}

/// The text of the search tree `l`: `_` for an empty tree, else the
/// character of the root and the texts of its smaller siblings, of what
/// follows it, and of its greater siblings, in square brackets where a word
/// ends at the character and in round brackets where none does.
spec fn branches_text(l: Option<Box<TernaryTrieNode>>) -> Seq<char>
    decreases l,
{
    match l {
        None => seq!['_'],
        Some(n) => seq![if n.eq.accept {
            '['
        } else {
            '('
        }, n.c, ' '] + branches_text(n.lo) + seq![' '] + branches_text(n.eq.root) + seq![' ']
            + branches_text(n.hi) + seq![if n.eq.accept {
            ']'
        } else {
            ')'
        }],
    }
}

/// Writes the text of the search tree `l` behind `out`.
fn write_branches(l: &Option<Box<TernaryTrieNode>>, out: &mut String)
    ensures
        final(out)@ == old(out)@ + branches_text(*l),
    decreases *l,
{
    match l {
        None => {
            out.push('_');
            proof {
                assert(out@ =~= old(out)@ + branches_text(*l));
            }
        },
        Some(n) => {
            out.push(if n.eq.accept {
                '['
            } else {
                '('
            });
            out.push(n.c);
            out.push(' ');
            write_branches(&n.lo, out);
            out.push(' ');
            write_branches(&n.eq.root, out);
            out.push(' ');
            write_branches(&n.hi, out);
            out.push(if n.eq.accept {
                ']'
            } else {
                ')'
            });
            proof {
                assert(out@ =~= old(out)@ + branches_text(*l));
            }
        },
    }
}

impl TernaryTrie {
    /// The shape of the trie as text: the text of its search tree, in square
    /// brackets where the trie holds the empty word.
    pub closed spec fn text(self) -> Seq<char> {
        if self.accept {
            seq!['['] + branches_text(self.root) + seq![']']
        } else {
            branches_text(self.root)
        }
    }

    /// The shape of the trie as text, for a look at how it is balanced. A
    /// branch reads `(c lo eq hi)`, or `[c lo eq hi]` where a word ends at
    /// `c`, and `_` stands for no branch.
    pub fn to_string(&self) -> (r: String)
        ensures
            r@ == self.text(),
    {
        let mut r = String::new();
        if self.accept {
            r.push('[');
        }
        write_branches(&self.root, &mut r);
        if self.accept {
            r.push(']');
        }
        proof {
            assert(r@ =~= self.text());
        }
        r
    }
}

} // verus!
