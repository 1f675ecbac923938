//! Words as sequences of characters, and the conversions between `str`,
//! `String` and `Vec<char>` that the tries and the queries share.

use vstd::prelude::*;

verus! {

/// `String::push` appends one character to the end of the string.
pub assume_specification[ String::push ](s: &mut String, c: char)
    ensures
        final(s)@ == old(s)@.push(c),
;

/// `String::pop` removes the last character and returns it, or returns `None`
/// and leaves the string as it is when it is empty.
pub assume_specification[ String::pop ](s: &mut String) -> (r: Option<char>)
    ensures
        old(s)@.len() == 0 ==> r.is_none() && final(s)@ == old(s)@,
        old(s)@.len() > 0 ==> r == Some(old(s)@.last()) && final(s)@ == old(s)@.drop_last(),
;

/// `char::from_u32` gives the character whose code point is `k`, or `None`
/// where no character has that code point.
pub assume_specification[ char::from_u32 ](k: u32) -> (r: Option<char>)
    ensures
        match r {
            Some(c) => code(c) == k,
            None => forall|c: char| code(c) != k,
        },
;

/// The character with the code point `k`, if there is one.
pub open spec fn letter(k: u32) -> Option<char> {
    if exists|c: char| code(c) == k {
        Some(choose|c: char| code(c) == k)
    } else {
        None
    }
}

/// The character with the code point `k`, if there is one.
pub fn letter_of(k: u32) -> (r: Option<char>)
    ensures
        r == letter(k),
{
    let r = char::from_u32(k);
    proof {
        if let Some(c) = r {
            lemma_letter(c);
        }
    }
    r
}

/// A character is the letter of its code point.
pub proof fn lemma_letter(c: char)
    ensures
        letter(code(c)) == Some(c),
{
    let d = choose|d: char| code(d) == code(c);
    lemma_code_injective(c, d);
}

/// The characters stand in the order of their code points.
pub proof fn lemma_code_order(c: char, d: char)
    ensures
        c < d <==> code(c) < code(d),
{
}

/// The code point of `c`, by which the map-based tries key their branches.
pub open spec fn code(c: char) -> u32 {
    c as u32
}

/// The code point of `c`.
pub fn code_of(c: char) -> (k: u32)
    ensures
        k == code(c),
{
    c as u32
}

/// Two characters with the same code point are the same character.
pub proof fn lemma_code_injective(c: char, d: char)
    requires
        code(c) == code(d),
    ensures
        c == d,
{
}

/// The words that a list of strings spells, in the list's order.
pub open spec fn spelled(v: Seq<String>) -> Seq<Seq<char>> {
    v.map_values(|s: String| s@)
}

/// The characters of `s`, in order.
pub fn chars_of(s: &str) -> (v: Vec<char>)
    ensures
        v@ == s@,
{
    let mut v: Vec<char> = Vec::new();
    for c in it: s.chars()
        invariant
            v@ == it.seq().take(it.index() as int),
            it.seq() == s@,
    {
        v.push(c);
    }
    v
}

/// The string that spells the characters `v[from..to]`.
pub fn string_of(v: &Vec<char>, from: usize, to: usize) -> (s: String)
    requires
        from <= to <= v.len(),
    ensures
        s@ == v@.subrange(from as int, to as int),
{
    let mut s = String::new();
    let mut i: usize = from;
    while i < to
        invariant
            from <= i <= to <= v.len(),
            s@ == v@.subrange(from as int, i as int),
        decreases to - i,
    {
        s.push(v[i]);
        i += 1;
    }
    s
}

/// The characters of `v` in reverse order.
pub fn reversed_chars(v: &Vec<char>) -> (r: Vec<char>)
    ensures
        r@ == v@.reverse(),
{
    let mut r: Vec<char> = Vec::new();
    let mut i: usize = v.len();
    while i > 0
        invariant
            i <= v.len(),
            r.len() == v.len() - i,
            forall|j: int| 0 <= j < r.len() ==> r[j] == v[v.len() - 1 - j],
        decreases i,
    {
        i -= 1;
        r.push(v[i]);
    }
    r
}

/// The string `s` read backwards.
pub fn reversed(s: &str) -> (r: String)
    ensures
        r@ == s@.reverse(),
{
    let v = chars_of(s);
    let r = reversed_chars(&v);
    string_of(&r, 0, r.len())
}

/// Whether `w` begins with `p`.
pub fn has_prefix(w: &Vec<char>, p: &Vec<char>) -> (b: bool)
    ensures
        b == p@.is_prefix_of(w@),
{
    if p.len() > w.len() {
        return false;
    }
    let mut i: usize = 0;
    while i < p.len()
        invariant
            i <= p.len() <= w.len(),
            forall|j: int| 0 <= j < i ==> p[j] == w[j],
        decreases p.len() - i,
    {
        if p[i] != w[i] {
            assert(w@.subrange(0, p.len() as int)[i as int] == w[i as int]);
            return false;
        }
        i += 1;
    }
    true
}

/// Whether `w` ends with `s`.
pub fn has_suffix(w: &Vec<char>, s: &Vec<char>) -> (b: bool)
    ensures
        b == s@.is_suffix_of(w@),
{
    if s.len() > w.len() {
        return false;
    }
    let d: usize = w.len() - s.len();
    let mut i: usize = 0;
    while i < s.len()
        invariant
            i <= s.len() <= w.len(),
            d == w.len() - s.len(),
            forall|j: int| 0 <= j < i ==> s[j] == w[d + j],
        decreases s.len() - i,
    {
        if s[i] != w[d + i] {
            assert(w@.subrange(d as int, w.len() as int)[i as int] == w[d + i]);
            return false;
        }
        i += 1;
    }
    true
}

/// A word belongs to `a + b` exactly where it belongs to `a` or to `b`.
pub proof fn lemma_concat_contains(a: Seq<Seq<char>>, b: Seq<Seq<char>>, x: Seq<char>)
    ensures
        (a + b).contains(x) == (a.contains(x) || b.contains(x)),
{
    if a.contains(x) {
        let i = choose|i: int| 0 <= i < a.len() && a[i] == x;
        assert((a + b)[i] == x);
    }
    if b.contains(x) {
        let i = choose|i: int| 0 <= i < b.len() && b[i] == x;
        assert((a + b)[a.len() + i] == x);
    }
    if (a + b).contains(x) {
        let i = choose|i: int| 0 <= i < (a + b).len() && (a + b)[i] == x;
        if i < a.len() {
            assert(a[i] == x);
        } else {
            assert(b[i - a.len()] == x);
        }
    }
}

/// `p` with `c` behind it begins `x` exactly where `p` begins `x` and `c`
/// comes next in `x`.
pub proof fn lemma_prefix_push(p: Seq<char>, c: char, x: Seq<char>)
    ensures
        p.push(c).is_prefix_of(x) <==> p.is_prefix_of(x) && x.len() > p.len() && x[p.len() as int]
            == c,
{
    if p.push(c).is_prefix_of(x) {
        let q = x.subrange(0, (p.len() + 1) as int);
        assert(q[p.len() as int] == c);
        assert forall|i: int| 0 <= i < p.len() implies p[i] == x.subrange(0, p.len() as int)[i] by {
            assert(q[i] == p.push(c)[i]);
        }
        assert(p =~= x.subrange(0, p.len() as int));
    }
    if p.is_prefix_of(x) && x.len() > p.len() && x[p.len() as int] == c {
        assert forall|i: int| 0 <= i < p.len() + 1 implies p.push(c)[i] == x.subrange(
            0,
            (p.len() + 1) as int,
        )[i] by {
            if i < p.len() {
                assert(x.subrange(0, p.len() as int)[i] == p[i]);
            }
        }
        assert(p.push(c) =~= x.subrange(0, (p.len() + 1) as int));
    }
}

/// Reversing turns a prefix into a suffix.
pub proof fn lemma_reverse_prefix(p: Seq<char>, w: Seq<char>)
    ensures
        p.reverse().is_prefix_of(w.reverse()) <==> p.is_suffix_of(w),
{
    if p.len() <= w.len() {
        let d = w.len() - p.len();
        if p.is_suffix_of(w) {
            assert forall|j: int| 0 <= j < p.len() implies p.reverse()[j] == w.reverse().subrange(
                0,
                p.len() as int,
            )[j] by {
                assert(w.subrange(d, w.len() as int)[p.len() - 1 - j] == p[p.len() - 1 - j]);
            }
            assert(p.reverse() =~= w.reverse().subrange(0, p.len() as int));
        }
        if p.reverse().is_prefix_of(w.reverse()) {
            assert forall|j: int| 0 <= j < p.len() implies p[j] == w.subrange(
                d,
                w.len() as int,
            )[j] by {
                assert(w.reverse().subrange(0, p.len() as int)[p.len() - 1 - j] == p.reverse()[p.len()
                    - 1 - j]);
            }
            assert(p =~= w.subrange(d, w.len() as int));
        }
    }
}

/// Reversing twice gives the word back.
pub proof fn lemma_reverse_twice(w: Seq<char>)
    ensures
        w.reverse().reverse() == w,
{
    assert(w.reverse().reverse() =~= w);
}

/// `a` and `b` agree on their first `k` characters, and there `a` ends and
/// `b` goes on, or `a` has the smaller character.
pub open spec fn precedes_at(a: Seq<char>, b: Seq<char>, k: int) -> bool {
    &&& 0 <= k <= a.len()
    &&& k <= b.len()
    &&& a.take(k) == b.take(k)
    &&& if k == a.len() {
        k < b.len()
    } else {
        k < b.len() && a[k] < b[k]
    }
}

/// `a` comes before `b` in the dictionary.
pub open spec fn precedes(a: Seq<char>, b: Seq<char>) -> bool {
    exists|k: int| precedes_at(a, b, k)
}

/// The words of `s` stand in the order of the dictionary, strictly
/// ascending.
pub open spec fn ascending_words(s: Seq<Seq<char>>) -> bool {
    forall|i: int, j: int| 0 <= i < j < s.len() ==> precedes(#[trigger] s[i], #[trigger] s[j])
}

/// Of two words at most one comes before the other.
pub proof fn lemma_precedes_asymmetric(a: Seq<char>, b: Seq<char>)
    ensures
        !(precedes(a, b) && precedes(b, a)),
{
    if precedes(a, b) && precedes(b, a) {
        let k = choose|k: int| precedes_at(a, b, k);
        let m = choose|m: int| precedes_at(b, a, m);
        if k < m {
            assert(b.take(m)[k] == a.take(m)[k]);
        } else if m < k {
            assert(a.take(k)[m] == b.take(k)[m]);
        }
    }
}

/// Two words that begin alike and then differ stand in the order of the
/// characters at which they differ; and a word comes before those that go
/// on from it.
pub proof fn lemma_precedes_behind(p: Seq<char>, a: Seq<char>, b: Seq<char>)
    requires
        p.is_prefix_of(a),
        p.is_prefix_of(b),
        b.len() > p.len(),
        a.len() == p.len() || a[p.len() as int] < b[p.len() as int],
    ensures
        precedes(a, b),
{
    assert(a.take(p.len() as int) =~= p);
    assert(b.take(p.len() as int) =~= p);
    assert(precedes_at(a, b, p.len() as int));
}

/// No word comes twice in an ascending list.
pub proof fn lemma_ascending_distinct(s: Seq<Seq<char>>)
    requires
        ascending_words(s),
    ensures
        s.no_duplicates(),
{
    assert forall|i: int, j: int| 0 <= i < s.len() && 0 <= j < s.len() && i != j implies s[i]
        != s[j] by {
        lemma_precedes_asymmetric(s[i], s[j]);
        if i < j {
            assert(precedes(s[i], s[j]));
        } else {
            assert(precedes(s[j], s[i]));
        }
    }
}

/// Two ascending lists, all of the first before all of the second, make an
/// ascending list.
pub proof fn lemma_ascending_concat(a: Seq<Seq<char>>, b: Seq<Seq<char>>)
    requires
        ascending_words(a),
        ascending_words(b),
        forall|i: int, j: int|
            0 <= i < a.len() && 0 <= j < b.len() ==> precedes(#[trigger] a[i], #[trigger] b[j]),
    ensures
        ascending_words(a + b),
{
    assert forall|i: int, j: int| 0 <= i < j < (a + b).len() implies precedes(
        #[trigger] (a + b)[i],
        #[trigger] (a + b)[j],
    ) by {
        if j < a.len() {
            assert(precedes(a[i], a[j]));
        } else if i < a.len() {
            assert(precedes(a[i], b[j - a.len()]));
        } else {
            assert(precedes(b[i - a.len()], b[j - a.len()]));
        }
    }
}

/// Two ascending lists of the same words are the same list.
pub proof fn lemma_ascending_unique(a: Seq<Seq<char>>, b: Seq<Seq<char>>)
    requires
        ascending_words(a),
        ascending_words(b),
        a.to_set() == b.to_set(),
    ensures
        a == b,
    decreases a.len(),
{
    if a.len() == 0 {
        if b.len() > 0 {
            assert(b.to_set().contains(b[0]));
            assert(a.contains(b[0]));
        }
        assert(a =~= b);
    } else {
        let x = a.last();
        assert(a.to_set().contains(x));
        assert(b.contains(x));
        let j = choose|j: int| 0 <= j < b.len() && b[j] == x;
        let y = b.last();
        assert(b.to_set().contains(y));
        assert(a.contains(y));
        let i = choose|i: int| 0 <= i < a.len() && a[i] == y;
        lemma_precedes_asymmetric(x, y);
        if j < b.len() - 1 {
            assert(precedes(b[j], b[b.len() - 1]));
            if i < a.len() - 1 {
                assert(precedes(a[i], a[a.len() - 1]));
            }
        }
        assert(x == y);
        let a0 = a.drop_last();
        let b0 = b.drop_last();
        assert forall|w: Seq<char>| a0.to_set().contains(w) <==> b0.to_set().contains(w) by {
            lemma_precedes_asymmetric(w, x);
            lemma_precedes_asymmetric(x, w);
            if a0.contains(w) {
                let k = choose|k: int| 0 <= k < a0.len() && a0[k] == w;
                assert(precedes(a[k], a[a.len() - 1]));
                assert(a.to_set().contains(a[k]));
                assert(b.contains(w));
                let m = choose|m: int| 0 <= m < b.len() && b[m] == w;
                assert(b0[m] == w);
            }
            if b0.contains(w) {
                let k = choose|k: int| 0 <= k < b0.len() && b0[k] == w;
                assert(precedes(b[k], b[b.len() - 1]));
                assert(b.to_set().contains(b[k]));
                assert(a.contains(w));
                let m = choose|m: int| 0 <= m < a.len() && a[m] == w;
                assert(a0[m] == w);
            }
        }
        assert(a0.to_set() =~= b0.to_set());
        assert(ascending_words(a0)) by {
            assert forall|i: int, j: int| 0 <= i < j < a0.len() implies precedes(
                #[trigger] a0[i],
                #[trigger] a0[j],
            ) by {
                assert(precedes(a[i], a[j]));
            }
        }
        assert(ascending_words(b0)) by {
            assert forall|i: int, j: int| 0 <= i < j < b0.len() implies precedes(
                #[trigger] b0[i],
                #[trigger] b0[j],
            ) by {
                assert(precedes(b[i], b[j]));
            }
        }
        lemma_ascending_unique(a0, b0);
        assert(a =~= a0.push(x));
        assert(b =~= b0.push(y));
    }
}

} // verus!
