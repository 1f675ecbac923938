//! Numbers for strings: every string gets the next free number the first time
//! it is seen, and keeps it.

use vstd::prelude::*;
use crate::words::spelled;

verus! {

/// An injective mapping from strings to numbers.
pub trait Numberer {
    /// The strings that have a number, each at the index that is its number.
    spec fn names(&self) -> Seq<Seq<char>>;

    /// No string has two numbers.
    spec fn inv(&self) -> bool;

    /// The number of `s`; a string that has none yet gets the next free one.
    fn number(&mut self, s: &str) -> (n: usize)
        requires
            old(self).inv(),
        ensures
            final(self).inv(),
            n < final(self).names().len(),
            final(self).names()[n as int] == s@,
            final(self).names() == if old(self).names().contains(s@) {
                old(self).names()
            } else {
                old(self).names().push(s@)
            },
    ;
}

/// A numberer that keeps the strings in the order of their numbers.
pub struct HashMapNumberer(Vec<String>);

impl HashMapNumberer {
    /// The numberer that has given out no number yet.
    pub fn new() -> (r: Self)
        ensures
            r.inv(),
            r.names() == Seq::<Seq<char>>::empty(),
    {
        let r = HashMapNumberer(Vec::new());
        proof {
            assert(r.names() =~= Seq::<Seq<char>>::empty());
        }
        r
    }
}

impl Numberer for HashMapNumberer {
    closed spec fn names(&self) -> Seq<Seq<char>> {
        spelled(self.0@)
    }

    closed spec fn inv(&self) -> bool {
        spelled(self.0@).no_duplicates()
    }

    fn number(&mut self, s: &str) -> (n: usize) {
        let key = s.to_owned();
        let mut i: usize = 0;
        while i < self.0.len()
            invariant
                i <= self.0.len(),
                self.0 == old(self).0,
                spelled(self.0@).no_duplicates(),
                key@ == s@,
                forall|j: int| 0 <= j < i ==> spelled(self.0@)[j] != s@,
            decreases self.0.len() - i,
        {
            if self.0[i] == key {
                proof {
                    assert(spelled(self.0@)[i as int] == s@);
                    assert(spelled(self.0@).contains(s@));
                }
                return i;
            }
            i += 1;
        }
        let ghost before = spelled(self.0@);
        self.0.push(key);
        proof {
            assert(spelled(self.0@) =~= before.push(s@));
            assert(!before.contains(s@));
        }
        i
    }
}

} // verus!
