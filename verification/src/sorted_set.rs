//! Sets of document numbers kept as strictly ascending vectors.

use vstd::prelude::*;

verus! {

/// A set whose members are kept in ascending order.
pub trait SortedSet<T>: Sized {
    /// The members of the set.
    spec fn members(&self) -> Set<T>;

    /// The members stand in strictly ascending order.
    spec fn sorted(&self) -> bool;

    /// The set with `i` added.
    fn inc(self, i: T) -> (r: Self)
        requires
            self.sorted(),
        ensures
            r.sorted(),
            r.members() == self.members().insert(i),
    ;

    /// The members that this set and `s` share.
    fn intersection(&self, s: &Self) -> (r: Self)
        requires
            self.sorted(),
            s.sorted(),
        ensures
            r.sorted(),
            r.members() == self.members().intersect(s.members()),
    ;
}

/// `s` is strictly ascending.
pub open spec fn ascending(s: Seq<u32>) -> bool {
    forall|i: int, j: int| 0 <= i < j < s.len() ==> s[i] < s[j]
}

/// Looks for `x` in the ascending vector `v` from index `from` on: `Ok` with
/// the index of `x`, or `Err` with the index at which `x` would have to be
/// inserted.
pub fn search_from(v: &Vec<u32>, from: usize, x: u32) -> (r: Result<usize, usize>)
    requires
        ascending(v@),
        from <= v.len(),
        forall|i: int| 0 <= i < from ==> v[i] < x,
    ensures
        match r {
            Ok(i) => from <= i < v.len() && v[i as int] == x,
            Err(i) => {
                &&& from <= i <= v.len()
                &&& forall|j: int| 0 <= j < i ==> v[j] < x
                &&& forall|j: int| i <= j < v.len() ==> x < v[j]
            },
        },
{
    let mut lo: usize = from;
    let mut hi: usize = v.len();
    while lo < hi
        invariant
            from <= lo <= hi <= v.len(),
            ascending(v@),
            forall|j: int| 0 <= j < lo ==> v[j] < x,
            forall|j: int| hi <= j < v.len() ==> x < v[j],
        decreases hi - lo,
    {
        let mid = lo + (hi - lo) / 2;
        if v[mid] == x {
            return Ok(mid);
        } else if v[mid] < x {
            lo = mid + 1;
        } else {
            hi = mid;
        }
    }
    Err(lo)
}

impl SortedSet<u32> for Vec<u32> {
    open spec fn members(&self) -> Set<u32> {
        self@.to_set()
    }

    open spec fn sorted(&self) -> bool {
        ascending(self@)
    }

    fn inc(self, i: u32) -> (r: Self) {
        let mut r = self;
        match search_from(&r, 0, i) {
            Ok(at) => {
                proof {
                    assert(r@.contains(i));
                    assert(r@.to_set() =~= r@.to_set().insert(i));
                }
            },
            Err(at) => {
                r.insert(at, i);
                proof {
                    assert forall|x: u32| r@.to_set().contains(x) <==> self@.to_set().insert(
                        i,
                    ).contains(x) by {
                        if self@.contains(x) {
                            let j = choose|j: int| 0 <= j < self@.len() && self@[j] == x;
                            if j < at {
                                assert(r@[j] == x);
                            } else {
                                assert(r@[j + 1] == x);
                            }
                        }
                        if x == i {
                            assert(r@[at as int] == x);
                        }
                        if r@.contains(x) {
                            let j = choose|j: int| 0 <= j < r@.len() && r@[j] == x;
                            if j < at {
                                assert(self@[j] == x);
                            } else if j > at {
                                assert(self@[j - 1] == x);
                            }
                        }
                    }
                    assert(r@.to_set() =~= self@.to_set().insert(i));
                }
            },
        }
        r
    }

    fn intersection(&self, other: &Self) -> (inter: Self) {
        let mut inter: Vec<u32> = Vec::new();
        let (smaller, larger) = if self.len() < other.len() {
            (self, other)
        } else {
            (other, self)
        };
        let mut offset: usize = 0;
        let mut n: usize = 0;
        while n < smaller.len()
            invariant
                n <= smaller.len(),
                offset <= larger.len(),
                ascending(smaller@),
                ascending(larger@),
                ascending(inter@),
                forall|j: int| 0 <= j < offset && n < smaller.len() ==> larger[j] < smaller[n as int],
                forall|j: int| 0 <= j < inter.len() && n < smaller.len() ==> inter[j] < smaller[n as int],
                forall|x: u32|
                    inter@.contains(x) <==> smaller@.take(n as int).contains(x) && larger@.contains(
                        x,
                    ),
            decreases smaller.len() - n,
        {
            let doc = smaller[n];
            let ghost before = inter@;
            let ghost seen = smaller@.take(n as int);
            let found = search_from(larger, offset, doc);
            offset = match found {
                Ok(at) => {
                    inter.push(doc);
                    at
                },
                Err(at) => at,
            };
            proof {
                let seen_more = smaller@.take(n + 1);
                assert(seen_more =~= seen.push(doc));
                assert forall|x: u32|
                    inter@.contains(x) <==> seen_more.contains(x) && larger@.contains(x) by {
                    if seen.contains(x) {
                        let j = choose|j: int| 0 <= j < seen.len() && seen[j] == x;
                        assert(seen_more[j] == x);
                    }
                    if before.contains(x) {
                        let j = choose|j: int| 0 <= j < before.len() && before[j] == x;
                        assert(inter@[j] == x);
                    }
                    if seen_more.contains(x) {
                        let j = choose|j: int| 0 <= j < seen_more.len() && seen_more[j] == x;
                        if j < seen.len() {
                            assert(seen[j] == x);
                        }
                    }
                    if inter@.contains(x) {
                        let j = choose|j: int| 0 <= j < inter@.len() && inter@[j] == x;
                        if j < before.len() {
                            assert(before[j] == x);
                        }
                    }
                    match found {
                        Ok(at) => {
                            assert(seen_more[n as int] == doc);
                            assert(larger@[at as int] == doc);
                            assert(inter@[before.len() as int] == doc);
                        },
                        Err(at) => {
                            if larger@.contains(doc) {
                                let j = choose|j: int| 0 <= j < larger@.len() && larger@[j] == doc;
                                assert(false);
                            }
                        },
                    }
                }
            }
            n += 1;
        }
        proof {
            assert(smaller@.take(smaller.len() as int) =~= smaller@);
            assert(inter@.to_set() =~= self@.to_set().intersect(other@.to_set()));
        }
        inter
    }
}

/// The members of `dom` below `n`, in ascending order.
pub open spec fn members_below(dom: Set<u32>, n: nat) -> Seq<u32>
    decreases n,
{
    if n == 0 {
        Seq::empty()
    } else if n <= 0x1_0000_0000 && dom.contains((n - 1) as u32) {
        members_below(dom, (n - 1) as nat).push((n - 1) as u32)
    } else {
        members_below(dom, (n - 1) as nat)
    }
}

/// The members of `dom` in ascending order.
pub open spec fn in_order(dom: Set<u32>) -> Seq<u32> {
    members_below(dom, 0x1_0000_0000)
}

/// `members_below` lists the members below the bound, and those only, in
/// ascending order.
pub proof fn lemma_members_below(dom: Set<u32>, n: nat)
    requires
        n <= 0x1_0000_0000,
    ensures
        ascending(members_below(dom, n)),
        forall|k: u32| #[trigger] members_below(dom, n).contains(k) <==> dom.contains(k) && k < n,
    decreases n,
{
    if n > 0 {
        let rest = members_below(dom, (n - 1) as nat);
        let all = members_below(dom, n);
        lemma_members_below(dom, (n - 1) as nat);
        assert forall|k: u32| #[trigger] all.contains(k) <==> dom.contains(k) && k < n by {
            if rest.contains(k) {
                let i = choose|i: int| 0 <= i < rest.len() && rest[i] == k;
                assert(all[i] == k);
            }
            if dom.contains(k) && k == n - 1 {
                assert(all[all.len() - 1] == k);
            }
            if all.contains(k) {
                let i = choose|i: int| 0 <= i < all.len() && all[i] == k;
                if i < rest.len() {
                    assert(rest[i] == k);
                }
            }
        }
        assert forall|i: int, j: int| 0 <= i < j < all.len() implies all[i] < all[j] by {
            if j < rest.len() {
                assert(rest[i] < rest[j]);
            } else {
                assert(rest.contains(rest[i]));
            }
        }
    }
}

/// `in_order` lists exactly the members of the set, in ascending order.
pub proof fn lemma_in_order(dom: Set<u32>)
    ensures
        ascending(in_order(dom)),
        in_order(dom).to_set() == dom,
{
    lemma_members_below(dom, 0x1_0000_0000);
    assert(in_order(dom).to_set() =~= dom);
}

/// Two ascending lists with the same members are the same list.
pub proof fn lemma_ascending_unique(a: Seq<u32>, b: Seq<u32>)
    requires
        ascending(a),
        ascending(b),
        a.to_set() == b.to_set(),
    ensures
        a == b,
    decreases a.len(),
{
    if a.len() == 0 {
        if b.len() > 0 {
            assert(b.to_set().contains(b[0]));
            assert(a.contains(b[0]));
        }
        assert(a =~= b);
    } else {
        let x = a.last();
        assert(a.to_set().contains(x));
        assert(b.contains(x));
        let j = choose|j: int| 0 <= j < b.len() && b[j] == x;
        let y = b.last();
        assert(b.to_set().contains(y));
        assert(a.contains(y));
        let i = choose|i: int| 0 <= i < a.len() && a[i] == y;
        assert(x == y);
        let a0 = a.drop_last();
        let b0 = b.drop_last();
        assert forall|w: u32| a0.to_set().contains(w) <==> b0.to_set().contains(w) by {
            if a0.contains(w) {
                let k = choose|k: int| 0 <= k < a0.len() && a0[k] == w;
                assert(a[k] < a[a.len() - 1]);
                assert(a.to_set().contains(a[k]));
                assert(b.contains(w));
                let m = choose|m: int| 0 <= m < b.len() && b[m] == w;
                assert(b0[m] == w);
            }
            if b0.contains(w) {
                let k = choose|k: int| 0 <= k < b0.len() && b0[k] == w;
                assert(b[k] < b[b.len() - 1]);
                assert(b.to_set().contains(b[k]));
                assert(a.contains(w));
                let m = choose|m: int| 0 <= m < a.len() && a[m] == w;
                assert(a0[m] == w);
            }
        }
        assert(a0.to_set() =~= b0.to_set());
        lemma_ascending_unique(a0, b0);
        assert(a =~= a0.push(x));
        assert(b =~= b0.push(y));
    }
}

} // verus!
