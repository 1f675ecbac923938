//! A vector for indexing that allows for missing elements.

use vstd::prelude::*;

verus! {

/// The dimension of a vector: one more than the greatest index it can hold
/// an element at.
pub trait Dimension {
    spec fn dimension(&self) -> nat;

    fn dim(&self) -> (d: usize)
        ensures
            d == self.dimension(),
    ;
}

/// A vec that is useful for indexing, but allows for missing elements.
pub struct DenseVec<T> {
    vec: Vec<Option<T>>,
    len: usize,
}

/// The number of elements that are present in `s`.
pub open spec fn occupied<T>(s: Seq<Option<T>>) -> nat
    decreases s.len(),
{
    if s.len() == 0 {
        0
    } else {
        occupied(s.drop_last()) + if s.last() is Some {
            1nat
        } else {
            0nat
        }
    }
}

/// `Vec::shrink_to_fit` gives back spare capacity and keeps the elements.
#[verifier::external_body]
fn shrink_vec<T>(v: &mut Vec<Option<T>>)
    ensures
        final(v)@ == old(v)@,
{
    v.shrink_to_fit()
}

impl<T> View for DenseVec<T> {
    type V = Seq<Option<T>>;

    /// The slots of the vector, present or missing, by index.
    closed spec fn view(&self) -> Seq<Option<T>> {
        self.vec@
    }
}

impl<T> DenseVec<T> {
    /// The element count that the vector keeps is the number of its
    /// present elements.
    pub closed spec fn wf(&self) -> bool {
        self.len == occupied(self.vec@)
    }

    /// The element at `i`, where there is one.
    pub open spec fn at(&self, i: int) -> Option<T> {
        if 0 <= i < self@.len() {
            self@[i]
        } else {
            None
        }
    }

    /// The slots of the vector.
    pub fn view_content(&self) -> (s: &[Option<T>])
        ensures
            s@ == self@,
    {
        self.vec.as_slice()
    }

    /// The vector without slots.
    pub fn new() -> (v: Self)
        ensures
            v.wf(),
            v@ == Seq::<Option<T>>::empty(),
    {
        DenseVec { vec: Vec::new(), len: 0 }
    }

    /// The number of elements that are present.
    pub fn len(&self) -> (n: usize)
        requires
            self.wf(),
        ensures
            n == occupied(self@),
    {
        self.len
    }

    /// Ensures that the `i`-th element is missing, and that the dimension is
    /// at least `i + 1`. Returns the old element at `i` if any.
    pub fn make_space(&mut self, i: usize) -> (old_e: Option<T>)
        requires
            old(self).wf(),
        ensures
            final(self).wf(),
            old_e == old(self).at(i as int),
            final(self)@.len() == if i < old(self)@.len() {
                old(self)@.len()
            } else {
                (i + 1) as nat
            },
            forall|j: int|
                0 <= j < final(self)@.len() ==> #[trigger] final(self)@[j] == if j == i {
                    None
                } else {
                    old(self).at(j)
                },
    {
        if self.vec.len() <= i {
            while self.vec.len() <= i
                invariant
                    old(self)@.len() <= self.vec@.len() <= i + 1,
                    self.len == old(self).len,
                    self.len == occupied(self.vec@),
                    forall|j: int|
                        0 <= j < self.vec@.len() ==> #[trigger] self.vec@[j] == old(self).at(j),
                decreases i + 1 - self.vec.len(),
            {
                proof {
                    lemma_occupied_push(self.vec@, None);
                }
                self.vec.push(None);
            }
            None
        } else {
            let ghost before = self.vec@;
            self.vec.push(None);
            let old_e = self.vec.swap_remove(i);
            proof {
                assert(self.vec@ =~= before.update(i as int, None));
                lemma_occupied_update(before, i as int, None);
            }
            if old_e.is_some() {
                self.len -= 1;
            }
            old_e
        }
    }

    /// Puts `e` at index `i` and returns the element that was there, if any.
    pub fn insert(&mut self, i: usize, e: T) -> (old_e: Option<T>)
        requires
            old(self).wf(),
        ensures
            final(self).wf(),
            old_e == old(self).at(i as int),
            final(self)@.len() == if i < old(self)@.len() {
                old(self)@.len()
            } else {
                (i + 1) as nat
            },
            forall|j: int|
                0 <= j < final(self)@.len() ==> #[trigger] final(self)@[j] == if j == i {
                    Some(e)
                } else {
                    old(self).at(j)
                },
    {
        let old_e = self.make_space(i);
        let ghost before = self.vec@;
        let slots = self.vec.len();
        proof {
            assert(self@[i as int].is_none());
            lemma_occupied_update(before, i as int, Some(e));
            lemma_occupied_bound(before.update(i as int, Some(e)));
            assert(before.update(i as int, Some(e)).len() == slots);
        }
        self.vec[i] = Some(e);
        self.len += 1;
        old_e
    }

    /// Takes the element at `i` out and returns it, if there is one. The
    /// dimension stays.
    pub fn remove(&mut self, i: usize) -> (old_e: Option<T>)
        requires
            old(self).wf(),
        ensures
            final(self).wf(),
            old_e == old(self).at(i as int),
            final(self)@.len() == old(self)@.len(),
            forall|j: int|
                0 <= j < final(self)@.len() ==> #[trigger] final(self)@[j] == if j == i {
                    None
                } else {
                    old(self)@[j]
                },
    {
        if i < self.vec.len() {
            self.make_space(i)
        } else {
            None
        }
    }

    /// The element at `i`, if there is one.
    pub fn get(&self, i: usize) -> (e: Option<&T>)
        ensures
            match e {
                Some(r) => self.at(i as int) == Some(*r),
                None => self.at(i as int).is_none(),
            },
    {
        if i < self.vec.len() {
            match &self.vec[i] {
                Some(e) => Some(e),
                None => None,
            }
        } else {
            None
        }
    }

    /// Replaces the element at `i` by what `f` makes of it; `f` gets `None`
    /// where there is no element yet.
    pub fn update<F>(self, i: usize, f: F) -> (r: Self) where F: FnOnce(Option<T>) -> T
        requires
            self.wf(),
            f.requires((self.at(i as int),)),
        ensures
            r.wf(),
            r@.len() == if i < self@.len() {
                self@.len()
            } else {
                (i + 1) as nat
            },
            r@[i as int] is Some,
            f.ensures((self.at(i as int),), r@[i as int]->0),
            forall|j: int| 0 <= j < r@.len() && j != i ==> #[trigger] r@[j] == self.at(j),
    {
        let mut r = self;
        let old_e = r.make_space(i);
        let e = f(old_e);
        let ghost before = r.vec@;
        let slots = r.vec.len();
        proof {
            assert(r@[i as int].is_none());
            lemma_occupied_update(before, i as int, Some(e));
            lemma_occupied_bound(before.update(i as int, Some(e)));
            assert(before.update(i as int, Some(e)).len() == slots);
        }
        r.vec[i] = Some(e);
        r.len += 1;
        r
    }

    /// Replaces every element by what `f` makes of it.
    pub fn update_all<F>(self, f: F) -> (r: Self) where F: Fn(T) -> T
        requires
            self.wf(),
            forall|e: T| #[trigger] f.requires((e,)),
        ensures
            r.wf(),
            r@.len() == self@.len(),
            forall|j: int|
                0 <= j < r@.len() ==> match self@[j] {
                    Some(e) => (#[trigger] r@[j]) is Some && f.ensures((e,), r@[j]->0),
                    None => r@[j].is_none(),
                },
    {
        let mut r = self;
        let mut i: usize = 0;
        while i < r.vec.len()
            invariant
                i <= r.vec@.len(),
                r.vec@.len() == self@.len(),
                r.len == self.len,
                r.len == occupied(r.vec@),
                forall|e: T| #[trigger] f.requires((e,)),
                forall|j: int| i <= j < r.vec@.len() ==> #[trigger] r.vec@[j] == self@[j],
                forall|j: int|
                    0 <= j < i ==> match self@[j] {
                        Some(e) => (#[trigger] r.vec@[j]) is Some && f.ensures((e,), r.vec@[j]->0),
                        None => r.vec@[j].is_none(),
                    },
            decreases r.vec@.len() - i,
        {
            let ghost before = r.vec@;
            r.vec.push(None);
            let taken = r.vec.swap_remove(i);
            proof {
                assert(r.vec@ =~= before.update(i as int, None));
            }
            match taken {
                Some(e) => {
                    let e2 = f(e);
                    r.vec[i] = Some(e2);
                    proof {
                        assert(r.vec@ =~= before.update(i as int, Some(e2)));
                        lemma_occupied_update(before, i as int, Some(e2));
                    }
                },
                None => {
                    proof {
                        assert(r.vec@ =~= before);
                    }
                },
            }
            i += 1;
        }
        r
    }

    /// The vector that holds the elements of `pairs`, each at its index; of
    /// two elements with the same index the later one stays.
    pub fn from_pairs(pairs: Vec<(usize, T)>) -> (r: Self)
        ensures
            r.wf(),
            forall|i: int|
                0 <= i < r@.len() ==> #[trigger] r@[i] == last_at(
                    pairs@,
                    pairs@.len() as int,
                    i,
                ),
            forall|k: int| 0 <= k < pairs@.len() ==> (#[trigger] pairs@[k]).0 < r@.len(),
    {
        let mut r: DenseVec<T> = DenseVec::new();
        let mut pairs = pairs;
        let ghost all = pairs@;
        let mut taken: Vec<(usize, T)> = Vec::new();
        while pairs.len() > 0
            invariant
                taken@.len() + pairs@.len() == all.len(),
                forall|k: int| 0 <= k < pairs@.len() ==> pairs@[k] == all[k],
                forall|k: int|
                    0 <= k < taken@.len() ==> taken@[k] == all[all.len() - 1 - k],
            decreases pairs.len(),
        {
            let e = pairs.pop().unwrap();
            taken.push(e);
        }
        let ghost mut done: int = 0;
        while taken.len() > 0
            invariant
                r.wf(),
                0 <= done <= all.len(),
                done + taken@.len() == all.len(),
                forall|k: int|
                    0 <= k < taken@.len() ==> taken@[k] == all[all.len() - 1 - k],
                forall|i: int| 0 <= i < r@.len() ==> #[trigger] r@[i] == last_at(all, done, i),
                forall|k: int| 0 <= k < done ==> (#[trigger] all[k]).0 < r@.len(),
            decreases taken.len(),
        {
            let ghost before = r@;
            let (i, e) = taken.pop().unwrap();
            proof {
                assert(all[done] == (i, e));
            }
            r.insert(i, e);
            proof {
                assert forall|j: int| 0 <= j < r@.len() implies #[trigger] r@[j] == last_at(
                    all,
                    done + 1,
                    j,
                ) by {
                    if j != i && j >= before.len() {
                        lemma_last_at_beyond(all, done, j);
                    }
                }
                done = done + 1;
            }
        }
        r
    }

    /// Gives back the spare capacity.
    pub fn shrink(self) -> (r: Self)
        ensures
            r@ == self@,
            self.wf() ==> r.wf(),
    {
        let mut r = self;
        shrink_vec(&mut r.vec);
        r
    }
}

impl<T> Dimension for DenseVec<T> {
    open spec fn dimension(&self) -> nat {
        self@.len()
    }

    fn dim(&self) -> (d: usize) {
        self.vec.len()
    }
}

/// The element of the last of the first `n` pairs that has the index `i`, if
/// there is one.
pub open spec fn last_at<T>(pairs: Seq<(usize, T)>, n: int, i: int) -> Option<T>
    decreases n,
{
    if n <= 0 {
        None
    } else if pairs[n - 1].0 == i {
        Some(pairs[n - 1].1)
    } else {
        last_at(pairs, n - 1, i)
    }
}

/// No pair has an index beyond all the indices of the pairs.
proof fn lemma_last_at_beyond<T>(pairs: Seq<(usize, T)>, n: int, i: int)
    requires
        0 <= n <= pairs.len(),
        forall|k: int| 0 <= k < n ==> (#[trigger] pairs[k]).0 < i,
    ensures
        last_at(pairs, n, i).is_none(),
    decreases n,
{
    if n > 0 {
        lemma_last_at_beyond(pairs, n - 1, i);
    }
}

/// One more slot adds one to the count where it holds an element.
pub proof fn lemma_occupied_push<T>(s: Seq<Option<T>>, e: Option<T>)
    ensures
        occupied(s.push(e)) == occupied(s) + if e is Some {
            1nat
        } else {
            0nat
        },
{
    assert(s.push(e).drop_last() =~= s);
}

/// Replacing a slot changes the count by what goes and what comes.
pub proof fn lemma_occupied_update<T>(s: Seq<Option<T>>, i: int, e: Option<T>)
    requires
        0 <= i < s.len(),
    ensures
        occupied(s.update(i, e)) + (if s[i] is Some {
            1nat
        } else {
            0nat
        }) == occupied(s) + if e is Some {
            1nat
        } else {
            0nat
        },
    decreases s.len(),
{
    if i == s.len() - 1 {
        assert(s.update(i, e).drop_last() =~= s.drop_last());
    } else {
        assert(s.update(i, e).drop_last() =~= s.drop_last().update(i, e));
        lemma_occupied_update(s.drop_last(), i, e);
    }
}

/// No more elements are present than there are slots.
pub proof fn lemma_occupied_bound<T>(s: Seq<Option<T>>)
    ensures
        occupied(s) <= s.len(),
    decreases s.len(),
{
    if s.len() > 0 {
        lemma_occupied_bound(s.drop_last());
    }
}

} // verus!
