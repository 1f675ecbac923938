//! Queries with one wildcard over a pair of tries: the forward trie holds the
//! words as they are, the reverse trie holds each word read backwards.

use vstd::prelude::*;
use crate::trie::{drain, with_prefix, Cursor, Trie, Walk};
use crate::words::{
    ascending_words, chars_of, has_prefix, has_suffix, lemma_concat_contains, lemma_reverse_prefix,
    lemma_reverse_twice, reversed, spelled, string_of,
};

verus! {

/// Why a pattern was turned down.
#[derive(Debug, Clone, Copy, PartialEq, Eq, Structural)]
pub enum QueryError {
    /// The pattern does not hold exactly one `*`.
    InvalidPattern,
    /// The pattern is `*` alone, which every word fits.
    DegenerateQuery,
}

impl QueryError {
    /// The sentence that tells a user what was wrong with the pattern.
    pub fn message(&self) -> (m: &'static str)
        ensures
            m@ == match *self {
                QueryError::InvalidPattern => "sorry, only queries with one * are supported."@,
                QueryError::DegenerateQuery => "you don't want to do this."@,
            },
    {
        match self {
            QueryError::InvalidPattern => "sorry, only queries with one * are supported.",
            QueryError::DegenerateQuery => "you don't want to do this.",
        }
    }
}

/// `rev` holds exactly the words of `fwd`, each read backwards.
pub open spec fn mirrored(fwd: Set<Seq<char>>, rev: Set<Seq<char>>) -> bool {
    forall|w: Seq<char>| #[trigger] fwd.contains(w) <==> rev.contains(w.reverse())
}

/// The words that end with `s`, where `rev` holds the words read backwards.
pub open spec fn with_suffix(rev: Set<Seq<char>>, s: Seq<char>) -> Set<Seq<char>> {
    Set::new(|w: Seq<char>| rev.contains(w.reverse()) && s.is_suffix_of(w))
}

/// `w` begins with `p`, ends with `s`, and is long enough for the two not to
/// overlap.
pub open spec fn fits(p: Seq<char>, s: Seq<char>, w: Seq<char>) -> bool {
    p.is_prefix_of(w) && s.is_suffix_of(w) && p.len() + s.len() <= w.len()
}

/// Whether a query for `p*s` walks the forward trie (and filters by `s`)
/// rather than the reverse trie (and filters by `p`). The forward trie is
/// chosen where the suffix is at least twice as long as the prefix.
pub open spec fn forward_drives(p: Seq<char>, s: Seq<char>) -> bool {
    2 * p.len() <= s.len()
}

/// The words that fit `p*s`, taken from the trie that drives the search.
pub open spec fn circumfix_answer(
    fwd: Set<Seq<char>>,
    rev: Set<Seq<char>>,
    p: Seq<char>,
    s: Seq<char>,
) -> Set<Seq<char>> {
    Set::new(
        |w: Seq<char>|
            fits(p, s, w) && if forward_drives(p, s) {
                fwd.contains(w)
            } else {
                rev.contains(w.reverse())
            },
    )
}

/// The answer to the pattern `p*s`, of which at most one part is empty.
pub open spec fn answer(fwd: Set<Seq<char>>, rev: Set<Seq<char>>, p: Seq<char>, s: Seq<char>) -> Set<
    Seq<char>,
> {
    if s.len() == 0 {
        with_prefix(fwd, p)
    } else if p.len() == 0 {
        with_suffix(rev, s)
    } else {
        circumfix_answer(fwd, rev, p, s)
    }
}

/// The one `*` of the pattern `q` stands at index `i`.
pub open spec fn star_at(q: Seq<char>, i: int) -> bool {
    &&& 0 <= i < q.len()
    &&& q[i] == '*'
    &&& forall|j: int| 0 <= j < q.len() && j != i ==> q[j] != '*'
}

/// What a query makes of a word that a traversal hands out: the word
/// itself, or the word read backwards where the traversal is one of the
/// reverse trie.
pub open spec fn turned(backwards: bool, w: Seq<char>) -> Seq<char> {
    if backwards {
        w.reverse()
    } else {
        w
    }
}

/// Whether a query keeps the word `x`: always where it does not sift, else
/// where `x` holds `affix` (at its end where `at_end`, else at its start) and
/// `room` characters besides.
pub open spec fn kept(sift: bool, at_end: bool, affix: Seq<char>, room: nat, x: Seq<char>) -> bool {
    sift ==> {
        &&& affix.len() + room <= x.len()
        &&& if at_end {
            affix.is_suffix_of(x)
        } else {
            affix.is_prefix_of(x)
        }
    }
}

/// The words of `src`, turned, without those that the query does not keep.
pub open spec fn picked(
    src: Seq<Seq<char>>,
    backwards: bool,
    sift: bool,
    at_end: bool,
    affix: Seq<char>,
    room: nat,
) -> Seq<Seq<char>>
    decreases src.len(),
{
    if src.len() == 0 {
        Seq::empty()
    } else {
        (if kept(sift, at_end, affix, room, turned(backwards, src[0])) {
            seq![turned(backwards, src[0])]
        } else {
            Seq::empty()
        }) + picked(src.drop_first(), backwards, sift, at_end, affix, room)
    }
}

/// The answer to a query, one word at a time: the words of a traversal of
/// one of the two tries, turned and sifted as the query asks.
pub struct Matches<C: Cursor> {
    source: C,
    backwards: bool,
    sift: bool,
    at_end: bool,
    affix: Vec<char>,
    room: usize,
}

impl<C: Cursor> Cursor for Matches<C> {
    closed spec fn wf(&self) -> bool {
        self.source.wf()
    }

    closed spec fn rest(&self) -> Seq<Seq<char>> {
        picked(
            self.source.rest(),
            self.backwards,
            self.sift,
            self.at_end,
            self.affix@,
            self.room as nat,
        )
    }

    fn next(&mut self) -> (r: Option<String>) {
        loop
            invariant
                self.source.wf(),
                self.backwards == old(self).backwards,
                self.sift == old(self).sift,
                self.at_end == old(self).at_end,
                self.affix == old(self).affix,
                self.room == old(self).room,
                self.rest() == old(self).rest(),
            decreases self.source.rest().len(),
        {
            let ghost before = self.source.rest();
            match self.source.next() {
                None => {
                    return None;
                },
                Some(w) => {
                    let x = if self.backwards {
                        reversed(w.as_str())
                    } else {
                        w
                    };
                    proof {
                        assert(x@ == turned(self.backwards, before[0]));
                        assert(self.source.rest() == before.drop_first());
                    }
                    let keep = if self.sift {
                        let xc = chars_of(x.as_str());
                        xc.len() >= self.affix.len() && xc.len() - self.affix.len() >= self.room
                            && if self.at_end {
                            has_suffix(&xc, &self.affix)
                        } else {
                            has_prefix(&xc, &self.affix)
                        }
                    } else {
                        true
                    };
                    if keep {
                        proof {
                            assert(self.rest() =~= old(self).rest().drop_first());
                        }
                        return Some(x);
                    }
                    proof {
                        assert(self.rest() =~= old(self).rest());
                    }
                },
            }
        }
    }
}

/// Finds the `*` of a pattern that holds exactly one.
pub fn find_star(q: &Vec<char>) -> (r: Option<usize>)
    ensures
        match r {
            Some(i) => star_at(q@, i as int),
            None => forall|i: int| !star_at(q@, i),
        },
{
    let mut first: Option<usize> = None;
    let mut i: usize = 0;
    while i < q.len()
        invariant
            i <= q.len(),
            match first {
                Some(k) => k < i && q[k as int] == '*' && forall|j: int|
                    0 <= j < i && j != k ==> q[j] != '*',
                None => forall|j: int| 0 <= j < i ==> q[j] != '*',
            },
        decreases q.len() - i,
    {
        if q[i] == '*' {
            match first {
                Some(k) => {
                    proof {
                        assert forall|n: int| !star_at(q@, n) by {
                            if star_at(q@, n) {
                                if n == k {
                                    assert(q[i as int] != '*');
                                } else {
                                    assert(q[k as int] != '*');
                                }
                            }
                        }
                    }
                    return None;
                },
                None => {
                    first = Some(i);
                },
            }
        }
        i += 1;
    }
    first
}

/// The traversal of all strings with prefix `p` in the trie `t`.
pub fn prefix_matches<'a, T: Walk<'a>>(t: &'a T, p: &str) -> (m: Matches<T::Iter>)
    requires
        t.inv(),
    ensures
        m.wf(),
        ascending_words(m.rest()),
        m.rest().no_duplicates(),
        m.rest().to_set() == with_prefix(t.words(), p@),
{
    let source = t.prefix_iter(p);
    let m = Matches {
        source: source,
        backwards: false,
        sift: false,
        at_end: false,
        affix: Vec::new(),
        room: 0,
    };
    proof {
        lemma_picked_all(source.rest(), false, m.affix@, 0);
    }
    m
}

/// The traversal of all strings with suffix `s`, found in the reverse trie
/// `r`.
pub fn suffix_matches<'a, T: Walk<'a>>(r: &'a T, s: &str) -> (m: Matches<T::Iter>)
    requires
        r.inv(),
    ensures
        m.wf(),
        m.rest().no_duplicates(),
        m.rest().to_set() == with_suffix(r.words(), s@),
{
    let back = reversed(s);
    let source = r.prefix_iter(back.as_str());
    let m = Matches {
        source: source,
        backwards: true,
        sift: false,
        at_end: false,
        affix: Vec::new(),
        room: 0,
    };
    proof {
        lemma_picked(source.rest(), true, false, false, m.affix@, 0);
        assert forall|x: Seq<char>| m.rest().to_set().contains(x) <==> with_suffix(
            r.words(),
            s@,
        ).contains(x) by {
            lemma_reverse_prefix(s@, x);
            assert(source.rest().to_set().contains(x.reverse()) <==> source.rest().contains(
                x.reverse(),
            ));
        }
        assert(m.rest().to_set() =~= with_suffix(r.words(), s@));
    }
    m
}

/// The traversal of all strings with prefix `p` and suffix `s` that are
/// long enough to hold both side by side, from the trie `t` or the reverse
/// trie `r`, whichever `forward_drives` picks.
pub fn circumfix_matches<'a, T: Walk<'a>>(t: &'a T, r: &'a T, p: &str, s: &str) -> (m: Matches<
    T::Iter,
>)
    requires
        t.inv(),
        r.inv(),
    ensures
        m.wf(),
        m.rest().no_duplicates(),
        m.rest().to_set() == circumfix_answer(t.words(), r.words(), p@, s@),
{
    let pc = chars_of(p);
    let sc = chars_of(s);
    if pc.len() <= sc.len() && pc.len() <= sc.len() - pc.len() {
        let source = t.prefix_iter(p);
        let room = pc.len();
        let m = Matches {
            source: source,
            backwards: false,
            sift: true,
            at_end: true,
            affix: sc,
            room: room,
        };
        proof {
            lemma_picked(source.rest(), false, true, true, s@, p@.len());
            assert forall|x: Seq<char>| m.rest().to_set().contains(x) <==> circumfix_answer(
                t.words(),
                r.words(),
                p@,
                s@,
            ).contains(x) by {
                assert(source.rest().to_set().contains(x) <==> source.rest().contains(x));
            }
            assert(m.rest().to_set() =~= circumfix_answer(t.words(), r.words(), p@, s@));
        }
        m
    } else {
        let back = reversed(s);
        let source = r.prefix_iter(back.as_str());
        let room = sc.len();
        let m = Matches {
            source: source,
            backwards: true,
            sift: true,
            at_end: false,
            affix: pc,
            room: room,
        };
        proof {
            lemma_picked(source.rest(), true, true, false, p@, s@.len());
            assert forall|x: Seq<char>| m.rest().to_set().contains(x) <==> circumfix_answer(
                t.words(),
                r.words(),
                p@,
                s@,
            ).contains(x) by {
                lemma_reverse_prefix(s@, x);
                assert(source.rest().to_set().contains(x.reverse()) <==> source.rest().contains(
                    x.reverse(),
                ));
            }
            assert(m.rest().to_set() =~= circumfix_answer(t.words(), r.words(), p@, s@));
        }
        m
    }
}

/// The traversal of all strings that fit the pattern `q`; as
/// `wildcard_query`, but the words come one at a time.
pub fn wildcard_matches<'a, T: Walk<'a>>(t: &'a T, r: &'a T, q: &str) -> (res: Result<
    Matches<T::Iter>,
    QueryError,
>)
    requires
        t.inv(),
        r.inv(),
    ensures
        (forall|i: int| !star_at(q@, i)) <==> res matches Err(QueryError::InvalidPattern),
        q@ == seq!['*'] <==> res matches Err(QueryError::DegenerateQuery),
        res matches Ok(m) ==> m.wf(),
        forall|i: int|
            star_at(q@, i) && q@.len() > 1 ==> {
                &&& res is Ok
                &&& res->Ok_0.rest().no_duplicates()
                &&& res->Ok_0.rest().to_set() == answer(
                    t.words(),
                    r.words(),
                    q@.take(i),
                    q@.skip(i + 1),
                )
                &&& i + 1 == q@.len() ==> ascending_words(res->Ok_0.rest())
            },
{
    let qc = chars_of(q);
    let at = match find_star(&qc) {
        None => {
            proof {
                assert(seq!['*'][0] == '*');
                assert(q@ == seq!['*'] ==> star_at(q@, 0));
            }
            return Err(QueryError::InvalidPattern);
        },
        Some(at) => at,
    };
    proof {
        assert forall|i: int| star_at(q@, i) implies i == at by {}
    }
    if qc.len() == 1 {
        proof {
            assert(q@ =~= seq!['*']);
        }
        return Err(QueryError::DegenerateQuery);
    }
    proof {
        assert(q@ != seq!['*']) by {
            assert(seq!['*'].len() == 1);
        }
    }
    let p = string_of(&qc, 0, at);
    let s = string_of(&qc, at + 1, qc.len());
    proof {
        assert(p@ =~= q@.take(at as int));
        assert(s@ =~= q@.skip(at + 1));
    }
    if at + 1 == qc.len() {
        Ok(prefix_matches(t, p.as_str()))
    } else if at == 0 {
        Ok(suffix_matches(r, s.as_str()))
    } else {
        Ok(circumfix_matches(t, r, p.as_str(), s.as_str()))
    }
}

/// All strings with prefix `p` in the trie `t`.
pub fn prefix_query<'a, T: Walk<'a>>(t: &'a T, p: &str) -> (r: Vec<String>)
    requires
        t.inv(),
    ensures
        ascending_words(spelled(r@)),
        spelled(r@).no_duplicates(),
        spelled(r@).to_set() == with_prefix(t.words(), p@),
{
    drain(prefix_matches(t, p))
}

/// All strings with suffix `s`, found in the reverse trie `r`.
pub fn suffix_query<'a, T: Walk<'a>>(r: &'a T, s: &str) -> (out: Vec<String>)
    requires
        r.inv(),
    ensures
        spelled(out@).no_duplicates(),
        spelled(out@).to_set() == with_suffix(r.words(), s@),
{
    drain(suffix_matches(r, s))
}

/// All strings with prefix `p` and suffix `s` that are long enough to hold
/// both side by side, from the trie `t` or the reverse trie `r`, whichever
/// `forward_drives` picks.
pub fn circumfix_query<'a, T: Walk<'a>>(t: &'a T, r: &'a T, p: &str, s: &str) -> (out: Vec<String>)
    requires
        t.inv(),
        r.inv(),
    ensures
        spelled(out@).no_duplicates(),
        spelled(out@).to_set() == circumfix_answer(t.words(), r.words(), p@, s@),
        forall|i: int| 0 <= i < out.len() ==> (#[trigger] out[i])@.len() >= p@.len() + s@.len(),
        mirrored(t.words(), r.words()) ==> spelled(out@).to_set() == Set::new(
            |w: Seq<char>| t.words().contains(w) && fits(p@, s@, w),
        ),
{
    let out = drain(circumfix_matches(t, r, p, s));
    proof {
        assert forall|i: int| 0 <= i < out.len() implies (#[trigger] out[i])@.len() >= p@.len()
            + s@.len() by {
            assert(spelled(out@)[i] == out[i]@);
            assert(spelled(out@).to_set().contains(out[i]@));
        }
        if mirrored(t.words(), r.words()) {
            lemma_drive_either(t.words(), r.words(), p@, s@);
        }
    }
    out
}

/// All strings that fit the pattern `q`, which must hold exactly one `*` and
/// something besides it: `p*` asks the trie `t` for the prefix `p`, `*s` asks
/// the reverse trie `r` for the suffix `s`, and `p*s` asks for both.
pub fn wildcard_query<'a, T: Walk<'a>>(t: &'a T, r: &'a T, q: &str) -> (res: Result<
    Vec<String>,
    QueryError,
>)
    requires
        t.inv(),
        r.inv(),
    ensures
        (forall|i: int| !star_at(q@, i)) <==> res matches Err(QueryError::InvalidPattern),
        q@ == seq!['*'] <==> res matches Err(QueryError::DegenerateQuery),
        forall|i: int|
            star_at(q@, i) && q@.len() > 1 ==> {
                &&& res is Ok
                &&& spelled(res->Ok_0@).no_duplicates()
                &&& spelled(res->Ok_0@).to_set() == answer(
                    t.words(),
                    r.words(),
                    q@.take(i),
                    q@.skip(i + 1),
                )
                &&& i + 1 == q@.len() ==> ascending_words(spelled(res->Ok_0@))
            },
{
    match wildcard_matches(t, r, q) {
        Err(e) => Err(e),
        Ok(m) => Ok(drain(m)),
    }
}

/// Learns every word of `words` into `forward` and, read backwards, into
/// `reverse`.
pub fn load_tries<T: Trie>(words: &Vec<String>, forward: T, reverse: T) -> (pair: (T, T))
    requires
        forward.inv(),
        reverse.inv(),
    ensures
        pair.0.inv(),
        pair.1.inv(),
        pair.0.words() == forward.words().union(spelled(words@).to_set()),
        pair.1.words() == reverse.words().union(
            spelled(words@).map_values(|w: Seq<char>| w.reverse()).to_set(),
        ),
        mirrored(forward.words(), reverse.words()) ==> mirrored(pair.0.words(), pair.1.words()),
{
    let mut t = forward;
    let mut r = reverse;
    let ghost back = |w: Seq<char>| w.reverse();
    let mut i: usize = 0;
    while i < words.len()
        invariant
            i <= words.len(),
            t.inv(),
            r.inv(),
            back == |w: Seq<char>| w.reverse(),
            t.words() == forward.words().union(spelled(words@).take(i as int).to_set()),
            r.words() == reverse.words().union(
                spelled(words@).take(i as int).map_values(back).to_set(),
            ),
        decreases words.len() - i,
    {
        let ghost seen = spelled(words@).take(i as int);
        let ghost seen_more = spelled(words@).take(i + 1);
        let w = words[i].as_str();
        let b = reversed(w);
        proof {
            assert(seen_more =~= seen.push(w@));
            assert(seen_more.map_values(back) =~= seen.map_values(back).push(w@.reverse()));
            lemma_push_to_set(seen, w@);
            lemma_push_to_set(seen.map_values(back), w@.reverse());
            assert(forward.words().union(seen.to_set()).insert(w@) =~= forward.words().union(
                seen_more.to_set(),
            ));
            assert(reverse.words().union(seen.map_values(back).to_set()).insert(w@.reverse())
                =~= reverse.words().union(seen_more.map_values(back).to_set()));
        }
        t = t.learn(w);
        r = r.learn(b.as_str());
        i += 1;
    }
    proof {
        assert(spelled(words@).take(words.len() as int) =~= spelled(words@));
        if mirrored(forward.words(), reverse.words()) {
            let a = spelled(words@);
            assert forall|w: Seq<char>| #[trigger]
                t.words().contains(w) <==> r.words().contains(w.reverse()) by {
                lemma_reverse_twice(w);
                if a.contains(w) {
                    let j = choose|j: int| 0 <= j < a.len() && a[j] == w;
                    assert(a.map_values(back)[j] == w.reverse());
                }
                if a.map_values(back).contains(w.reverse()) {
                    let j = choose|j: int|
                        0 <= j < a.map_values(back).len() && a.map_values(back)[j] == w.reverse();
                    lemma_reverse_twice(a[j]);
                    assert(a[j] == w);
                }
            }
        }
    }
    (t, r)
}

proof fn lemma_push_to_set(a: Seq<Seq<char>>, x: Seq<char>)
    ensures
        a.push(x).to_set() == a.to_set().insert(x),
{
    assert forall|y: Seq<char>| a.push(x).to_set().contains(y) <==> a.to_set().insert(x).contains(
        y,
    ) by {
        if a.contains(y) {
            let j = choose|j: int| 0 <= j < a.len() && a[j] == y;
            assert(a.push(x)[j] == y);
        }
        if y == x {
            assert(a.push(x)[a.len() as int] == y);
        }
    }
    assert(a.push(x).to_set() =~= a.to_set().insert(x));
}

/// With a reverse trie that mirrors the forward trie, a query for `p*s` has
/// the same answer whichever trie drives it: the words of the vocabulary
/// that fit the pattern.
pub proof fn lemma_drive_either(fwd: Set<Seq<char>>, rev: Set<Seq<char>>, p: Seq<char>, s: Seq<char>)
    requires
        mirrored(fwd, rev),
    ensures
        circumfix_answer(fwd, rev, p, s) == Set::new(|w: Seq<char>| fwd.contains(w) && fits(p, s, w)),
        Set::new(|w: Seq<char>| fwd.contains(w) && fits(p, s, w)) == Set::new(
            |w: Seq<char>| rev.contains(w.reverse()) && fits(p, s, w),
        ),
{
    assert(circumfix_answer(fwd, rev, p, s) =~= Set::new(
        |w: Seq<char>| fwd.contains(w) && fits(p, s, w),
    ));
    assert(Set::new(|w: Seq<char>| fwd.contains(w) && fits(p, s, w)) =~= Set::new(
        |w: Seq<char>| rev.contains(w.reverse()) && fits(p, s, w),
    ));
}

/// With a reverse trie that mirrors the vocabulary, the suffix query returns
/// exactly the words of the vocabulary that end with `s`.
pub proof fn lemma_suffix_exact(fwd: Set<Seq<char>>, rev: Set<Seq<char>>, s: Seq<char>)
    requires
        mirrored(fwd, rev),
    ensures
        with_suffix(rev, s) == Set::new(|w: Seq<char>| fwd.contains(w) && s.is_suffix_of(w)),
{
    assert(with_suffix(rev, s) =~= Set::new(|w: Seq<char>| fwd.contains(w) && s.is_suffix_of(w)));
}

/// With a reverse trie that mirrors the forward trie, the answer to any
/// pattern `p*s` is the set of the words of the vocabulary that fit it.
pub proof fn lemma_answer_mirrored(
    fwd: Set<Seq<char>>,
    rev: Set<Seq<char>>,
    p: Seq<char>,
    s: Seq<char>,
)
    requires
        mirrored(fwd, rev),
    ensures
        answer(fwd, rev, p, s) == Set::new(|w: Seq<char>| fwd.contains(w) && fits(p, s, w)),
{
    let want = Set::new(|w: Seq<char>| fwd.contains(w) && fits(p, s, w));
    assert forall|w: Seq<char>| answer(fwd, rev, p, s).contains(w) <==> want.contains(w) by {
        if s.len() == 0 {
            assert(s.is_suffix_of(w) <==> true) by {
                assert(w.subrange(w.len() as int, w.len() as int) =~= s);
            }
        }
        if p.len() == 0 {
            assert(p.is_prefix_of(w)) by {
                assert(w.subrange(0, 0) =~= p);
            }
        }
    }
    assert(answer(fwd, rev, p, s) =~= want);
}

/// No word in the answer to `p*s` is shorter than `p` and `s` together.
pub proof fn lemma_circumfix_length(
    fwd: Set<Seq<char>>,
    rev: Set<Seq<char>>,
    p: Seq<char>,
    s: Seq<char>,
    w: Seq<char>,
)
    requires
        circumfix_answer(fwd, rev, p, s).contains(w),
    ensures
        w.len() >= p.len() + s.len(),
{
}

/// A query that neither turns nor sifts picks every word.
pub proof fn lemma_picked_all(src: Seq<Seq<char>>, at_end: bool, affix: Seq<char>, room: nat)
    ensures
        picked(src, false, false, at_end, affix, room) == src,
    decreases src.len(),
{
    if src.len() > 0 {
        lemma_picked_all(src.drop_first(), at_end, affix, room);
        assert(seq![src[0]] + src.drop_first() =~= src);
    }
}

/// What a query picks from a traversal without repetitions: no word twice,
/// and exactly the kept words whose turned form the traversal holds.
pub proof fn lemma_picked(
    src: Seq<Seq<char>>,
    backwards: bool,
    sift: bool,
    at_end: bool,
    affix: Seq<char>,
    room: nat,
)
    requires
        src.no_duplicates(),
    ensures
        picked(src, backwards, sift, at_end, affix, room).no_duplicates(),
        forall|x: Seq<char>| #[trigger]
            picked(src, backwards, sift, at_end, affix, room).contains(x) <==> kept(
                sift,
                at_end,
                affix,
                room,
                x,
            ) && src.contains(turned(backwards, x)),
    decreases src.len(),
{
    let all = picked(src, backwards, sift, at_end, affix, room);
    if src.len() > 0 {
        let x0 = turned(backwards, src[0]);
        let head = if kept(sift, at_end, affix, room, x0) {
            seq![x0]
        } else {
            Seq::<Seq<char>>::empty()
        };
        let tail = picked(src.drop_first(), backwards, sift, at_end, affix, room);
        lemma_picked(src.drop_first(), backwards, sift, at_end, affix, room);
        lemma_reverse_twice(src[0]);
        assert forall|x: Seq<char>| #[trigger]
            all.contains(x) <==> kept(sift, at_end, affix, room, x) && src.contains(
                turned(backwards, x),
            ) by {
            lemma_concat_contains(head, tail, x);
            lemma_reverse_twice(x);
            let y = turned(backwards, x);
            if src.contains(y) {
                let i = choose|i: int| 0 <= i < src.len() && src[i] == y;
                if i > 0 {
                    assert(src.drop_first()[i - 1] == y);
                }
            }
            if src.drop_first().contains(y) {
                let i = choose|i: int| 0 <= i < src.drop_first().len() && src.drop_first()[i] == y;
                assert(src[i + 1] == y);
            }
            if head.len() > 0 {
                assert(head[0] == x0);
            }
            if x == x0 {
                assert(src[0] == y);
            }
        }
        assert forall|i: int, j: int| 0 <= i < head.len() && 0 <= j < tail.len() implies head[i]
            != tail[j] by {
            assert(tail.contains(tail[j]));
            if head[i] == tail[j] {
                let k = choose|k: int|
                    0 <= k < src.drop_first().len() && src.drop_first()[k] == src[0];
                assert(src[k + 1] == src[0]);
            }
        }
        vstd::seq_lib::lemma_no_dup_in_concat(head, tail);
    }
}

} // verus!
