//! What every trie of this library offers: learning a word, recognising a
//! word, and listing the words that begin with a prefix.

use vstd::prelude::*;
use crate::words::{ascending_words, lemma_ascending_unique, spelled};

pub use crate::array_trie::ArrayMapTrie;
pub use crate::btree_trie::BTreeMapTrie;
pub use crate::hash_trie::HashMapTrie;
pub use crate::ternary_trie::TernaryTrie;

verus! {

/// The words of `words` that begin with `p`.
pub open spec fn with_prefix(words: Set<Seq<char>>, p: Seq<char>) -> Set<Seq<char>> {
    Set::new(|w: Seq<char>| words.contains(w) && p.is_prefix_of(w))
}

/// A set of words that can grow, tell whether it holds a word, and list the
/// words under a prefix.
pub trait Trie: Sized {
    /// The set of the words that were learned.
    spec fn words(&self) -> Set<Seq<char>>;

    /// The structural invariant of the trie, which `new` establishes and
    /// `learn` keeps.
    spec fn inv(&self) -> bool;

    /// Adds the word `s`; a word that is already there changes nothing.
    fn learn(self, s: &str) -> (t: Self)
        requires
            self.inv(),
        ensures
            t.inv(),
            t.words() == self.words().insert(s@),
    ;

    /// Whether exactly the word `s` was learned.
    fn recognize(&self, s: &str) -> (b: bool)
        requires
            self.inv(),
        ensures
            b == self.words().contains(s@),
    ;

    /// Every learned word that begins with `s`, each one once, in the
    /// order of the dictionary.
    fn prefix_search(&self, s: &str) -> (r: Vec<String>)
        requires
            self.inv(),
        ensures
            ascending_words(spelled(r@)),
            spelled(r@).no_duplicates(),
            spelled(r@).to_set() == with_prefix(self.words(), s@),
    ;
}

/// A traversal that hands out words one at a time, so that a caller may stop
/// before the end.
pub trait Cursor {
    /// The words that the traversal has still to hand out, in order.
    spec fn rest(&self) -> Seq<Seq<char>>;

    /// The structural invariant of the traversal.
    spec fn wf(&self) -> bool;

    /// Hands out the next word, or `None` when none is left.
    fn next(&mut self) -> (r: Option<String>)
        requires
            old(self).wf(),
        ensures
            final(self).wf(),
            match r {
                Some(w) => {
                    &&& old(self).rest().len() > 0
                    &&& w@ == old(self).rest()[0]
                    &&& final(self).rest() == old(self).rest().drop_first()
                },
                None => old(self).rest().len() == 0 && final(self).rest().len() == 0,
            },
    ;
}

/// A trie that can list the words under a prefix one at a time.
pub trait Walk<'a>: Trie {
    type Iter: Cursor;

    /// Starts a traversal of the learned words that begin with `s`, which
    /// hands them out in the order of the dictionary.
    fn prefix_iter(&'a self, s: &str) -> (it: Self::Iter)
        requires
            self.inv(),
        ensures
            it.wf(),
            ascending_words(it.rest()),
            it.rest().no_duplicates(),
            it.rest().to_set() == with_prefix(self.words(), s@),
    ;
}

/// Takes all the words that a traversal has left.
pub fn drain<C: Cursor>(c: C) -> (r: Vec<String>)
    requires
        c.wf(),
    ensures
        spelled(r@) == c.rest(),
{
    let mut c = c;
    let ghost all = c.rest();
    let mut r: Vec<String> = Vec::new();
    proof {
        assert(spelled(r@) + c.rest() =~= all);
    }
    loop
        invariant_except_break
            c.wf(),
            spelled(r@) + c.rest() == all,
        ensures
            spelled(r@) == all,
        decreases c.rest().len(),
    {
        let ghost before = spelled(r@);
        match c.next() {
            None => {
                proof {
                    assert(spelled(r@) + c.rest() =~= spelled(r@));
                }
                break ;
            },
            Some(w) => {
                r.push(w);
                proof {
                    assert(spelled(r@) =~= before.push(w@));
                    assert(spelled(r@) + c.rest() =~= all);
                }
            },
        }
    }
    r
}

/// What a trie lists under a prefix is decided by the set of its words
/// alone: two lists that meet the contract of `prefix_search` for the same
/// words and the same prefix are the same list. So neither the make of a
/// trie nor the order of learning nor learning a word twice shows in its
/// answers.
pub proof fn lemma_listing_decided(
    words: Set<Seq<char>>,
    p: Seq<char>,
    a: Seq<Seq<char>>,
    b: Seq<Seq<char>>,
)
    requires
        ascending_words(a),
        a.to_set() == with_prefix(words, p),
        ascending_words(b),
        b.to_set() == with_prefix(words, p),
    ensures
        a == b,
{
    lemma_ascending_unique(a, b);
}

/// Learning a word twice leaves the same set of words as learning it once.
pub proof fn lemma_learn_twice(words: Set<Seq<char>>, w: Seq<char>)
    ensures
        words.insert(w).insert(w) == words.insert(w),
        words.insert(w).contains(w),
        forall|v: Seq<char>| v != w ==> (#[trigger] words.insert(w).contains(v) <==> words.contains(v)),
{
    assert(words.insert(w).insert(w) =~= words.insert(w));
}

} // verus!
