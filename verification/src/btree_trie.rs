//! A trie whose nodes keep their branches in an ordered map, keyed by the
//! code point of the branch character.

use std::collections::BTreeMap;
use vstd::prelude::*;
use vstd::std_specs::iter::IteratorSpec;
use crate::sorted_set::{
    ascending, in_order, lemma_ascending_unique, lemma_in_order, SortedSet,
};
use crate::trie::{drain, with_prefix, Cursor, Trie, Walk};
use crate::words::{
    ascending_words, chars_of, code, code_of, lemma_ascending_concat, lemma_code_injective,
    lemma_code_order, lemma_concat_contains, lemma_letter, lemma_precedes_behind, lemma_prefix_push,
    letter, letter_of, precedes, spelled,
};

verus! {

/// A trie node: its branches, and whether a learned word ends at it.
pub struct BTreeMapTrie {
    node: BTreeMap<u32, BTreeMapTrie>,
    accept: bool,
}

impl View for BTreeMapTrie {
    type V = Set<Seq<char>>;

    /// The set of the words that were learned.
    closed spec fn view(&self) -> Set<Seq<char>> {
        Set::new(|w: Seq<char>| self.has(w))
    }
}

/// The keys of the branch maps are ordered as the integers are.
proof fn lemma_keys_ordered()
    ensures
        vstd::std_specs::btree::key_obeys_cmp_spec::<u32>(),
        vstd::laws_cmp::obeys_cmp::<u32>(),
{
    broadcast use vstd::laws_cmp::group_laws_cmp;
    broadcast use vstd::std_specs::btree::group_btree_axioms;

}

impl BTreeMapTrie {
    /// The sub-trie behind the branch of `c`, if there is one.
    closed spec fn child(self, c: char) -> Option<BTreeMapTrie> {
        if self.node@.contains_key(code(c)) {
            Some(self.node@[code(c)])
        } else {
            None
        }
    }

    /// Whether the path of `w` exists and ends in an accepting node.
    closed spec fn has(self, w: Seq<char>) -> bool
        decreases w.len(),
    {
        if w.len() == 0 {
            self.accept
        } else {
            match self.child(w[0]) {
                None => false,
                Some(t) => t.has(w.drop_first()),
            }
        }
    }

    /// The trie that holds no word.
    pub fn new() -> (t: Self)
        ensures
            t@ == Set::<Seq<char>>::empty(),
    {
        let t = BTreeMapTrie { node: BTreeMap::new(), accept: false };
        proof {
            lemma_leaf_has(t);
            assert(t@ =~= Set::<Seq<char>>::empty());
        }
        t
    }

    /// Adds the word `w[from..]` below this node.
    fn insert(&mut self, w: &Vec<char>, from: usize)
        requires
            from <= w.len(),
        ensures
            forall|v: Seq<char>|
                final(self).has(v) == (old(self).has(v) || v == w@.skip(from as int)),
        decreases w.len() - from,
    {
        broadcast use vstd::std_specs::btree::group_btree_axioms;

        proof {
            lemma_keys_ordered();
        }
        if from == w.len() {
            self.accept = true;
            proof {
                assert forall|v: Seq<char>|
                    self.has(v) == (old(self).has(v) || v == w@.skip(from as int)) by {
                    if v.len() == 0 {
                        assert(v =~= w@.skip(from as int));
                    }
                }
            }
        } else {
            let k = code_of(w[from]);
            let mut sub = match self.node.remove(&k) {
                Some(t) => t,
                None => BTreeMapTrie::new(),
            };
            let ghost before = sub;
            sub.insert(w, from + 1);
            self.node.insert(k, sub);
            proof {
                let rest = w@.skip(from as int);
                assert(rest.drop_first() =~= w@.skip(from + 1));
                assert forall|v: Seq<char>| self.has(v) == (old(self).has(v) || v == rest) by {
                    if v.len() > 0 {
                        if code(v[0]) == k {
                            lemma_code_injective(v[0], w[from as int]);
                            assert(sub.has(v.drop_first()) == (before.has(v.drop_first())
                                || v.drop_first() == rest.drop_first()));
                            if !old(self).node@.contains_key(k) {
                                assert(!before@.contains(v.drop_first()));
                            }
                            if v.drop_first() == rest.drop_first() {
                                assert(v =~= seq![v[0]] + v.drop_first());
                                assert(rest =~= seq![rest[0]] + rest.drop_first());
                            }
                        }
                    }
                }
            }
        }
    }

    /// Follows the characters of `s` down from this node.
    fn search(&self, s: &str) -> (r: Option<&BTreeMapTrie>)
        ensures
            r.is_some() == self.descend(s@).is_some(),
            r.is_some() ==> *r.unwrap() == self.descend(s@).unwrap(),
    {
        broadcast use vstd::std_specs::btree::group_btree_axioms;

        proof {
            lemma_keys_ordered();
        }
        let mut t: &BTreeMapTrie = self;
        proof {
            assert(s@.skip(0) =~= s@);
        }
        for c in it: s.chars()
            invariant
                it.seq() == s@,
                self.descend(s@) == t.descend(s@.skip(it.index())),
        {
            proof {
                assert(s@.skip(it.index()).drop_first() =~= s@.skip(it.index() + 1));
            }
            let k = code_of(c);
            match t.node.get(&k) {
                None => {
                    return None;
                },
                Some(next) => {
                    t = next;
                },
            }
        }
        Some(t)
    }

    /// The sub-trie reached by following the characters of `p` from the
    /// root, if every one of them has a branch.
    closed spec fn descend(self, p: Seq<char>) -> Option<BTreeMapTrie>
        decreases p.len(),
    {
        if p.len() == 0 {
            Some(self)
        } else {
            match self.child(p[0]) {
                None => None,
                Some(t) => t.descend(p.drop_first()),
            }
        }
    }
}

/// A node without branches holds no word unless it accepts.
proof fn lemma_leaf_has(t: BTreeMapTrie)
    requires
        t.node@ == Map::<u32, BTreeMapTrie>::empty(),
    ensures
        forall|w: Seq<char>| t.has(w) == (t.accept && w.len() == 0),
{
    assert forall|w: Seq<char>| t.has(w) == (t.accept && w.len() == 0) by {
        reveal_with_fuel(BTreeMapTrie::has, 2);
    }
}

impl BTreeMapTrie {
    /// The code points of the branches, in ascending order.
    closed spec fn keys(self) -> Seq<u32> {
        in_order(self.node@.dom())
    }

    /// The sub-trie behind the branch with the code point `k`, where `k` is
    /// the code point of a character and the node has that branch.
    closed spec fn below(self, k: u32) -> Option<(char, BTreeMapTrie)> {
        match letter(k) {
            Some(c) if self.node@.dom().finite() && self.node@.contains_key(k) => Some(
                (c, self.node@[k]),
            ),
            _ => None,
        }
    }

    /// The words below this node, each written behind `p`, in the order of
    /// the dictionary: `p` itself where the node accepts, then the words
    /// behind each branch.
    closed spec fn listing(self, p: Seq<char>) -> Seq<Seq<char>>
        decreases self, self.keys().len() + 1,
    {
        (if self.accept {
            seq![p]
        } else {
            Seq::empty()
        }) + self.listing_from(0, p)
    }

    /// The words behind the branches from the `n`-th on, each written behind
    /// `p`.
    closed spec fn listing_from(self, n: int, p: Seq<char>) -> Seq<Seq<char>>
        decreases self, self.keys().len() - n,
    {
        if 0 <= n < self.keys().len() {
            (match self.below(self.keys()[n]) {
                Some((c, sub)) => sub.listing(p.push(c)),
                None => Seq::empty(),
            }) + self.listing_from(n + 1, p)
        } else {
            Seq::empty()
        }
    }

    /// The steps that a traversal spends on this node and below it.
    closed spec fn steps(self) -> nat
        decreases self, self.keys().len() + 1,
    {
        self.steps_from(0)
    }

    /// The steps that a traversal spends on the branches from the `n`-th on.
    closed spec fn steps_from(self, n: int) -> nat
        decreases self, self.keys().len() - n,
    {
        if 0 <= n < self.keys().len() {
            1 + (match self.below(self.keys()[n]) {
                Some((c, sub)) => sub.steps(),
                None => 0,
            }) + self.steps_from(n + 1)
        } else {
            1
        }
    }

    /// The learned words that begin with `p`, in the order in which a
    /// traversal hands them out.
    pub closed spec fn matches(self, p: Seq<char>) -> Seq<Seq<char>> {
        match self.descend(p) {
            None => Seq::empty(),
            Some(t) => t.listing(p),
        }
    }

    /// The code points of the branches, in ascending order.
    fn sorted_keys(&self) -> (ks: Vec<u32>)
        ensures
            ks@ == self.keys(),
    {
        broadcast use vstd::std_specs::btree::group_btree_axioms;

        proof {
            lemma_keys_ordered();
        }
        let mut ks: Vec<u32> = Vec::new();
        let ghost all = vstd::std_specs::btree::spec_btree_map_iter(&self.node).remaining();
        for kv in it: self.node.iter()
            invariant
                it.seq() == all,
                forall|i: int|
                    0 <= i < it.seq().len() ==> self.node@.contains_key(
                        *(#[trigger] it.seq()[i]).0,
                    ),
                forall|k: u32| #[trigger]
                    self.node@.contains_key(k) ==> it.seq().contains((&k, &self.node@[k])),
                ascending(ks@),
                forall|k: u32|
                    ks@.contains(k) <==> exists|i: int|
                        0 <= i < it.index() && *(#[trigger] it.seq()[i]).0 == k,
        {
            let ghost before = ks@;
            let ghost idx = it.index();
            let k = *kv.0;
            ks = ks.inc(k);
            proof {
                assert(kv == all[idx]);
                assert forall|x: u32|
                    ks@.contains(x) <==> exists|i: int|
                        0 <= i < idx + 1 && *(#[trigger] all[i]).0 == x by {
                    assert(ks@.to_set().contains(x) <==> before.to_set().insert(k).contains(x));
                    if before.contains(x) {
                        let i = choose|i: int| 0 <= i < idx && *(#[trigger] all[i]).0 == x;
                        assert(0 <= i < idx + 1);
                    }
                    if x == k {
                        assert(*all[idx].0 == x);
                    }
                    if exists|i: int| 0 <= i < idx + 1 && *(#[trigger] all[i]).0 == x {
                        let i = choose|i: int| 0 <= i < idx + 1 && *(#[trigger] all[i]).0 == x;
                        if i < idx {
                            assert(before.contains(x));
                        }
                    }
                }
            }
        }
        proof {
            lemma_in_order(self.node@.dom());
            assert forall|k: u32| ks@.to_set().contains(k) <==> self.node@.dom().contains(k) by {
                if self.node@.contains_key(k) {
                    assert(all.contains((&k, &self.node@[k])));
                    let i = choose|i: int| 0 <= i < all.len() && all[i] == (&k, &self.node@[k]);
                    assert(*all[i].0 == k);
                }
                if ks@.contains(k) {
                    let i = choose|i: int| 0 <= i < all.len() && *(#[trigger] all[i]).0 == k;
                }
            }
            assert(ks@.to_set() =~= self.node@.dom());
            lemma_ascending_unique(ks@, self.keys());
        }
        ks
    }
}

/// What a traversal with this stack and path buffer still yields; the top of
/// the stack is its last entry.
spec fn stack_rest(stack: Seq<(&BTreeMapTrie, Vec<u32>, usize)>, buf: Seq<char>) -> Seq<Seq<char>>
    decreases stack.len(),
{
    if stack.len() == 0 {
        Seq::empty()
    } else {
        stack.last().0.listing_from(stack.last().2 as int, buf) + stack_rest(
            stack.drop_last(),
            shorter(buf),
        )
    }
}

/// The path buffer without its last character.
spec fn shorter(buf: Seq<char>) -> Seq<char> {
    if buf.len() > 0 {
        buf.drop_last()
    } else {
        buf
    }
}

/// Every frame holds the sorted keys of its node and a place among them.
spec fn stack_wf(stack: Seq<(&BTreeMapTrie, Vec<u32>, usize)>) -> bool {
    forall|i: int|
        0 <= i < stack.len() ==> (#[trigger] stack[i]).1@ == stack[i].0.keys() && stack[i].2
            <= stack[i].1@.len()
}

spec fn stack_steps(stack: Seq<(&BTreeMapTrie, Vec<u32>, usize)>) -> nat
    decreases stack.len(),
{
    if stack.len() == 0 {
        0
    } else {
        stack.last().0.steps_from(stack.last().2 as int) + stack_steps(stack.drop_last())
    }
}

/// A traversal of the words below one node, which hands out one word at a
/// time. It holds the way from that node to where it stands: for every node
/// on it the sorted keys of its branches and the place among them at which
/// to go on, and the characters of the way in `prefix`.
pub struct Iter<'a> {
    stack: Vec<(&'a BTreeMapTrie, Vec<u32>, usize)>,
    prefix: String,
    head: bool,
}

impl<'a> Cursor for Iter<'a> {
    closed spec fn wf(&self) -> bool {
        stack_wf(self.stack@)
    }

    closed spec fn rest(&self) -> Seq<Seq<char>> {
        (if self.head {
            seq![self.prefix@]
        } else {
            Seq::empty()
        }) + stack_rest(self.stack@, self.prefix@)
    }

    fn next(&mut self) -> (r: Option<String>) {
        broadcast use vstd::std_specs::btree::group_btree_axioms;

        proof {
            lemma_keys_ordered();
        }
        if self.head {
            self.head = false;
            let w = self.prefix.clone();
            proof {
                assert(self.rest() =~= old(self).rest().drop_first());
            }
            return Some(w);
        }
        loop
            invariant
                self.wf(),
                !self.head,
                self.rest() == old(self).rest(),
            decreases stack_steps(self.stack@),
        {
            let ghost before = self.stack@;
            let ghost buf = self.prefix@;
            match self.stack.pop() {
                None => {
                    return None;
                },
                Some((node, keys, at)) => {
                    let ghost below = before.drop_last();
                    proof {
                        assert(before =~= below.push((node, keys, at)));
                        assert(before[before.len() - 1] == (node, keys, at));
                        assert forall|i: int| 0 <= i < below.len() implies before[i]
                            == below[i] by {}
                    }
                    if at < keys.len() {
                        let k = keys[at];
                        let ghost kept = keys;
                        self.stack.push((node, keys, at + 1));
                        let ghost mid = self.stack@;
                        proof {
                            lemma_stack_push(below, (node, kept, at), buf);
                            lemma_stack_push(below, (node, kept, (at + 1) as usize), buf);
                            assert(node.listing_from(at as int, buf) == (match node.below(k) {
                                Some((c, sub)) => sub.listing(buf.push(c)),
                                None => Seq::empty(),
                            }) + node.listing_from(at + 1, buf));
                            assert(node.steps_from(at as int) == 1 + (match node.below(k) {
                                Some((c, sub)) => sub.steps(),
                                None => 0,
                            }) + node.steps_from(at + 1));
                        }
                        match (node.node.get(&k), letter_of(k)) {
                            (Some(sub), Some(c)) => {
                                self.prefix.push(c);
                                let ks = sub.sorted_keys();
                                self.stack.push((sub, ks, 0));
                                proof {
                                    assert(node.below(k) == Some((c, *sub)));
                                    assert(shorter(self.prefix@) =~= buf);
                                    lemma_stack_push(mid, (sub, ks, 0usize), self.prefix@);
                                    assert(sub.listing(self.prefix@) == (if sub.accept {
                                        seq![self.prefix@]
                                    } else {
                                        Seq::empty()
                                    }) + sub.listing_from(0, self.prefix@));
                                    assert(sub.steps() == sub.steps_from(0));
                                }
                                if sub.accept {
                                    let w = self.prefix.clone();
                                    proof {
                                        assert(old(self).rest() =~= seq![self.prefix@]
                                            + self.rest());
                                        assert(self.rest() =~= old(self).rest().drop_first());
                                    }
                                    return Some(w);
                                }
                                proof {
                                    assert(self.rest() =~= old(self).rest());
                                }
                            },
                            _ => {
                                proof {
                                    assert(node.below(k).is_none());
                                    assert(self.rest() =~= old(self).rest());
                                }
                            },
                        }
                    } else {
                        self.prefix.pop();
                        proof {
                            lemma_stack_push(below, (node, keys, at), buf);
                            assert(node.listing_from(at as int, buf) =~= Seq::<
                                Seq<char>,
                            >::empty());
                            assert(self.prefix@ == shorter(buf));
                            assert(self.rest() =~= old(self).rest());
                        }
                    }
                },
            }
        }
    }
}

/// A frame put on top of a stack comes first in what the stack yields.
proof fn lemma_stack_push(
    stack: Seq<(&BTreeMapTrie, Vec<u32>, usize)>,
    f: (&BTreeMapTrie, Vec<u32>, usize),
    buf: Seq<char>,
)
    ensures
        stack_rest(stack.push(f), buf) == f.0.listing_from(f.2 as int, buf) + stack_rest(
            stack,
            shorter(buf),
        ),
        stack_wf(stack.push(f)) == (stack_wf(stack) && f.1@ == f.0.keys() && f.2 <= f.1@.len()),
        stack_steps(stack.push(f)) == f.0.steps_from(f.2 as int) + stack_steps(stack),
{
    assert(stack.push(f).drop_last() =~= stack);
    assert(stack.push(f).last() == f);
    if stack_wf(stack.push(f)) {
        assert(stack.push(f)[stack.len() as int] == f);
        assert forall|i: int| 0 <= i < stack.len() implies (#[trigger] stack[i]).1@
            == stack[i].0.keys() && stack[i].2 <= stack[i].1@.len() by {
            assert(stack.push(f)[i] == stack[i]);
        }
    }
    if stack_wf(stack) && f.1@ == f.0.keys() && f.2 <= f.1@.len() {
        assert forall|i: int| 0 <= i < stack.push(f).len() implies (#[trigger] stack.push(
            f,
        )[i]).1@ == stack.push(f)[i].0.keys() && stack.push(f)[i].2 <= stack.push(f)[i].1@.len() by {
            if i < stack.len() {
                assert(stack.push(f)[i] == stack[i]);
            }
        }
    }
}

impl<'a> Walk<'a> for BTreeMapTrie {
    type Iter = Iter<'a>;

    fn prefix_iter(&'a self, s: &str) -> (it: Iter<'a>)
        ensures
            it.rest() == self.matches(s@),
    {
        proof {
            lemma_matches(*self, s@);
        }
        match self.search(s) {
            None => {
                let it = Iter { stack: Vec::new(), prefix: String::new(), head: false };
                proof {
                    assert(it.rest() =~= self.matches(s@));
                }
                it
            },
            Some(t) => {
                let mut stack: Vec<(&BTreeMapTrie, Vec<u32>, usize)> = Vec::new();
                let ks = t.sorted_keys();
                stack.push((t, ks, 0));
                let it = Iter { stack: stack, prefix: s.to_owned(), head: t.accept };
                proof {
                    lemma_stack_push(Seq::empty(), (t, ks, 0usize), s@);
                    assert(it.stack@ =~= Seq::<(&BTreeMapTrie, Vec<u32>, usize)>::empty().push(
                        (t, ks, 0usize),
                    ));
                    assert(it.rest() =~= self.matches(s@));
                }
                it
            },
        }
    }
}

impl Trie for BTreeMapTrie {
    open spec fn words(&self) -> Set<Seq<char>> {
        self@
    }

    open spec fn inv(&self) -> bool {
        true
    }

    fn learn(self, s: &str) -> (t: Self) {
        let w = chars_of(s);
        let mut t = self;
        t.insert(&w, 0);
        proof {
            assert(w@.skip(0) =~= w@);
            assert(t@ =~= self@.insert(s@));
        }
        t
    }

    fn recognize(&self, s: &str) -> (b: bool) {
        proof {
            lemma_has_descend(*self, s@);
        }
        match self.search(s) {
            None => false,
            Some(t) => t.accept,
        }
    }

    fn prefix_search(&self, s: &str) -> (r: Vec<String>)
        ensures
            spelled(r@) == self.matches(s@),
    {
        drain(self.prefix_iter(s))
    }
}

/// Among the keys of `ks` from index `n` on, one is `k`.
spec fn key_from(ks: Seq<u32>, n: int, k: u32) -> bool {
    exists|m: int| n <= m < ks.len() && #[trigger] ks[m] == k
}

/// The words behind the branches from the `n`-th on: the words of the node
/// that go on with the character of one of those branches, in the order of
/// the dictionary.
proof fn lemma_listing_from(t: BTreeMapTrie, n: int, p: Seq<char>)
    requires
        0 <= n <= t.keys().len(),
    ensures
        ascending_words(t.listing_from(n, p)),
        forall|x: Seq<char>| #[trigger]
            t.listing_from(n, p).contains(x) <==> {
                &&& p.is_prefix_of(x)
                &&& x.len() > p.len()
                &&& t.has(x.skip(p.len() as int))
                &&& key_from(t.keys(), n, code(x[p.len() as int]))
            },
    decreases t, t.keys().len() - n,
{
    broadcast use vstd::std_specs::btree::group_btree_axioms;

    let ks = t.keys();
    lemma_in_order(t.node@.dom());
    if n < ks.len() {
        let k = ks[n];
        let b = t.listing_from(n + 1, p);
        lemma_listing_from(t, n + 1, p);
        assert(ks.to_set().contains(k));
        let a = match t.below(k) {
            Some((c, sub)) => sub.listing(p.push(c)),
            None => Seq::<Seq<char>>::empty(),
        };
        match t.below(k) {
            Some((c, sub)) => {
                lemma_listing(sub, p.push(c));
            },
            None => {},
        }
        assert forall|x: Seq<char>| #[trigger]
            (a + b).contains(x) <==> {
                &&& p.is_prefix_of(x)
                &&& x.len() > p.len()
                &&& t.has(x.skip(p.len() as int))
                &&& key_from(ks, n, code(x[p.len() as int]))
            } by {
            lemma_concat_contains(a, b, x);
            if x.len() > p.len() {
                let d = x[p.len() as int];
                lemma_letter(d);
                lemma_prefix_push(p, d, x);
                assert(x.skip(p.len() as int)[0] == d);
                assert(x.skip(p.len() as int).drop_first() =~= x.skip((p.len() + 1) as int));
                if key_from(ks, n, code(d)) {
                    let m = choose|m: int| n <= m < ks.len() && #[trigger] ks[m] == code(d);
                    if m > n {
                        assert(key_from(ks, n + 1, code(d)));
                    }
                }
                if key_from(ks, n + 1, code(d)) {
                    let m = choose|m: int| n + 1 <= m < ks.len() && #[trigger] ks[m] == code(d);
                    assert(key_from(ks, n, code(d)));
                    assert(ks[n] < ks[m]);
                }
                if code(d) == k {
                    assert(key_from(ks, n, code(d)));
                }
                match t.below(k) {
                    Some((c, sub)) => {
                        lemma_prefix_push(p, c, x);
                        lemma_letter(c);
                        if d == c {
                            assert(x.skip(p.push(c).len() as int) =~= x.skip((p.len() + 1) as int));
                        }
                    },
                    None => {},
                }
            }
        }
        assert forall|u: int, v: int| 0 <= u < a.len() && 0 <= v < b.len() implies precedes(
            #[trigger] a[u],
            #[trigger] b[v],
        ) by {
            assert(a.contains(a[u]));
            assert(b.contains(b[v]));
            match t.below(k) {
                Some((c, sub)) => {
                    lemma_prefix_push(p, c, a[u]);
                    let d = b[v][p.len() as int];
                    let m = choose|m: int| n + 1 <= m < ks.len() && #[trigger] ks[m] == code(d);
                    assert(ks[n] < ks[m]);
                    lemma_letter(c);
                    lemma_code_order(c, d);
                    lemma_precedes_behind(p, a[u], b[v]);
                },
                None => {},
            }
        }
        lemma_ascending_concat(a, b);
    }
}

/// The words below a node are the words that the node holds, each written
/// behind `p`, in the order of the dictionary.
proof fn lemma_listing(t: BTreeMapTrie, p: Seq<char>)
    ensures
        ascending_words(t.listing(p)),
        forall|x: Seq<char>| #[trigger]
            t.listing(p).contains(x) <==> p.is_prefix_of(x) && t.has(x.skip(p.len() as int)),
    decreases t, t.keys().len() + 1,
{
    let head = if t.accept {
        seq![p]
    } else {
        Seq::<Seq<char>>::empty()
    };
    let tail = t.listing_from(0, p);
    lemma_listing_from(t, 0, p);
    lemma_in_order(t.node@.dom());
    assert forall|x: Seq<char>| #[trigger]
        (head + tail).contains(x) <==> p.is_prefix_of(x) && t.has(x.skip(p.len() as int)) by {
        lemma_concat_contains(head, tail, x);
        assert(p.is_prefix_of(p));
        assert(p.skip(p.len() as int).len() == 0);
        if t.accept {
            assert(head[0] == p);
        }
        if p.is_prefix_of(x) && x.len() == p.len() {
            assert(x =~= p);
        }
        if p.is_prefix_of(x) && x.len() > p.len() && t.has(x.skip(p.len() as int)) {
            let k = code(x[p.len() as int]);
            assert(x.skip(p.len() as int)[0] == x[p.len() as int]);
            assert(t.node@.dom().contains(k));
            assert(t.keys().to_set().contains(k));
            let m = choose|m: int| 0 <= m < t.keys().len() && t.keys()[m] == k;
            assert(key_from(t.keys(), 0, k));
        }
    }
    assert forall|u: int, v: int| 0 <= u < head.len() && 0 <= v < tail.len() implies precedes(
        #[trigger] head[u],
        #[trigger] tail[v],
    ) by {
        assert(tail.contains(tail[v]));
        assert(p.is_prefix_of(p));
        lemma_precedes_behind(p, p, tail[v]);
    }
    lemma_ascending_concat(head, tail);
}

/// The words that a traversal from the prefix `p` hands out are exactly the
/// learned words that begin with `p`; they come in the order of the
/// dictionary, and none comes twice.
pub proof fn lemma_matches(t: BTreeMapTrie, p: Seq<char>)
    ensures
        ascending_words(t.matches(p)),
        t.matches(p).no_duplicates(),
        t.matches(p).to_set() == with_prefix(t@, p),
{
    assert forall|w: Seq<char>| #[trigger]
        t.matches(p).contains(w) <==> t@.contains(w) && p.is_prefix_of(w) by {
        if p.is_prefix_of(w) {
            assert(w =~= p + w.skip(p.len() as int));
            lemma_descend_concat(t, p, w.skip(p.len() as int));
        }
        match t.descend(p) {
            None => {},
            Some(sub) => {
                lemma_listing(sub, p);
            },
        }
    }
    match t.descend(p) {
        None => {},
        Some(sub) => {
            lemma_listing(sub, p);
        },
    }
    crate::words::lemma_ascending_distinct(t.matches(p));
    assert(t.matches(p).to_set() =~= with_prefix(t@, p));
}

/// Two tries that hold the same words list them alike, in whatever order
/// each has learned them.
pub proof fn lemma_order_of_learning(t: BTreeMapTrie, u: BTreeMapTrie, p: Seq<char>)
    requires
        t@ == u@,
    ensures
        t.matches(p) == u.matches(p),
{
    lemma_matches(t, p);
    lemma_matches(u, p);
    crate::words::lemma_ascending_unique(t.matches(p), u.matches(p));
}

/// Following `p` and then `v` is following `p + v`.
proof fn lemma_descend_concat(t: BTreeMapTrie, p: Seq<char>, v: Seq<char>)
    ensures
        t.descend(p + v) == match t.descend(p) {
            None => None,
            Some(sub) => sub.descend(v),
        },
        t.has(p + v) == match t.descend(p) {
            None => false,
            Some(sub) => sub.has(v),
        },
    decreases p.len(),
{
    if p.len() == 0 {
        assert(p + v =~= v);
        lemma_has_descend(t, v);
    } else {
        assert((p + v).drop_first() =~= p.drop_first() + v);
        match t.child(p[0]) {
            None => {},
            Some(sub) => {
                lemma_descend_concat(sub, p.drop_first(), v);
            },
        }
    }
}

/// A word is held exactly where its whole path exists and ends in an
/// accepting node.
proof fn lemma_has_descend(t: BTreeMapTrie, w: Seq<char>)
    ensures
        t.has(w) == match t.descend(w) {
            None => false,
            Some(sub) => sub.accept,
        },
    decreases w.len(),
{
    if w.len() > 0 {
        match t.child(w[0]) {
            None => {},
            Some(sub) => {
                lemma_has_descend(sub, w.drop_first());
            },
        }
    }
}

} // verus!
