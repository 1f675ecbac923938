use wildcard::query::{
    circumfix_matches, circumfix_query, find_star, load_tries, prefix_matches, prefix_query,
    suffix_matches, suffix_query, wildcard_matches, wildcard_query, QueryError,
};
use wildcard::trie::{
    drain, ArrayMapTrie, BTreeMapTrie, Cursor, HashMapTrie, TernaryTrie, Trie, Walk,
};
use wildcard::words::{
    chars_of, code_of, has_prefix, has_suffix, letter_of, reversed, reversed_chars, string_of,
};

fn sorted(mut v: Vec<String>) -> Vec<String> {
    v.sort();
    v
}

fn strings(v: &[&str]) -> Vec<String> {
    v.iter().map(|s| s.to_string()).collect()
}

fn scenarios<T: Trie + for<'a> Walk<'a>>(zero_forward: T, zero_reverse: T) {
    let words = strings(&["hello", "help", "held"]);
    let (t, r) = load_tries(&words, zero_forward, zero_reverse);
    assert_eq!(
        sorted(wildcard_query(&t, &r, "hel*").unwrap()),
        strings(&["held", "hello", "help"])
    );
    assert_eq!(wildcard_query(&t, &r, "*lp").unwrap(), strings(&["help"]));
    assert_eq!(wildcard_query(&t, &r, "h*p").unwrap(), strings(&["help"]));
    assert_eq!(wildcard_query(&t, &r, "h*z").unwrap(), Vec::<String>::new());
    assert_eq!(wildcard_query(&t, &r, "*"), Err(QueryError::DegenerateQuery));
    assert_eq!(wildcard_query(&t, &r, "a*b*c"), Err(QueryError::InvalidPattern));
    assert_eq!(wildcard_query(&t, &r, "abc"), Err(QueryError::InvalidPattern));
    assert_eq!(wildcard_query(&t, &r, ""), Err(QueryError::InvalidPattern));
    assert_eq!(wildcard_query(&t, &r, "**"), Err(QueryError::InvalidPattern));
}

fn suffixes<T: Trie + for<'a> Walk<'a>>(zero_forward: T, zero_reverse: T) {
    let vocabulary = ["walking", "talking", "king", "kin", "ring", "rings", "g", ""];
    let words = strings(&vocabulary);
    let (_, r) = load_tries(&words, zero_forward, zero_reverse);
    for s in ["ing", "king", "g", "s", "", "x", "walking", "awalking"] {
        let want: Vec<String> =
            sorted(vocabulary.iter().filter(|w| w.ends_with(s)).map(|w| w.to_string()).collect());
        assert_eq!(sorted(suffix_query(&r, s)), want, "suffix {:?}", s);
    }
}

fn circumfixes<T: Trie + for<'a> Walk<'a>>(zero_forward: T, zero_reverse: T) {
    let vocabulary = [
        "a", "aa", "aba", "abba", "ab", "ba", "abcab", "abab", "ababab", "abxab", "abxxxxab", "b",
    ];
    let words = strings(&vocabulary);
    let (t, r) = load_tries(&words, zero_forward, zero_reverse);
    let parts = ["a", "ab", "b", "ba", "aba", "abab", "xab", "abxxxxab"];
    for p in parts {
        for s in parts {
            let want: Vec<String> = sorted(
                vocabulary
                    .iter()
                    .filter(|w| {
                        w.starts_with(p) && w.ends_with(s) && w.len() >= p.len() + s.len()
                    })
                    .map(|w| w.to_string())
                    .collect(),
            );
            let got = circumfix_query(&t, &r, p, s);
            for w in got.iter() {
                assert!(w.chars().count() >= p.chars().count() + s.chars().count());
            }
            assert_eq!(sorted(got), want, "pattern {}*{}", p, s);
            let pattern = format!("{}*{}", p, s);
            assert_eq!(sorted(wildcard_query(&t, &r, &pattern).unwrap()), want);
            assert_eq!(sorted(drain(circumfix_matches(&t, &r, p, s))), want);
        }
    }
}

#[test]
fn ternary_scenarios() {
    scenarios(TernaryTrie::new(), TernaryTrie::new());
}

#[test]
fn hash_scenarios() {
    scenarios(HashMapTrie::new(), HashMapTrie::new());
}

#[test]
fn btree_scenarios() {
    scenarios(BTreeMapTrie::new(), BTreeMapTrie::new());
}

#[test]
fn array_scenarios() {
    scenarios(ArrayMapTrie::new(), ArrayMapTrie::new());
}

#[test]
fn ternary_suffixes() {
    suffixes(TernaryTrie::new(), TernaryTrie::new());
}

#[test]
fn hash_suffixes() {
    suffixes(HashMapTrie::new(), HashMapTrie::new());
}

#[test]
fn btree_suffixes() {
    suffixes(BTreeMapTrie::new(), BTreeMapTrie::new());
}

#[test]
fn array_suffixes() {
    suffixes(ArrayMapTrie::new(), ArrayMapTrie::new());
}

#[test]
fn ternary_circumfixes() {
    circumfixes(TernaryTrie::new(), TernaryTrie::new());
}

#[test]
fn hash_circumfixes() {
    circumfixes(HashMapTrie::new(), HashMapTrie::new());
}

#[test]
fn btree_circumfixes() {
    circumfixes(BTreeMapTrie::new(), BTreeMapTrie::new());
}

#[test]
fn array_circumfixes() {
    circumfixes(ArrayMapTrie::new(), ArrayMapTrie::new());
}

#[test]
fn circumfix_needs_room_for_both_parts() {
    let words = strings(&["aba", "ababa", "abaaba", "abab"]);
    let (t, r) = load_tries(&words, TernaryTrie::new(), TernaryTrie::new());
    assert_eq!(wildcard_query(&t, &r, "aba*aba").unwrap(), strings(&["abaaba"]));
    assert_eq!(sorted(wildcard_query(&t, &r, "ab*ab").unwrap()), strings(&["abab"]));
    assert_eq!(sorted(wildcard_query(&t, &r, "ab*a").unwrap()), strings(&["aba", "abaaba", "ababa"]));
}

#[test]
fn circumfix_gives_the_same_from_either_side() {
    let words = strings(&["prefixsuffix", "prefix", "suffix", "prexsuffix", "prefixxsuffix", "presuffix"]);
    let (t, r) = load_tries(&words, TernaryTrie::new(), TernaryTrie::new());
    // the suffix is at least twice as long as the prefix: the forward trie drives
    assert_eq!(
        sorted(circumfix_query(&t, &r, "pre", "suffix")),
        strings(&["prefixsuffix", "prefixxsuffix", "presuffix", "prexsuffix"])
    );
    // otherwise the reverse trie drives
    assert_eq!(
        sorted(circumfix_query(&t, &r, "prefix", "fix")),
        strings(&["prefixsuffix", "prefixxsuffix"])
    );
    assert_eq!(
        sorted(circumfix_query(&t, &r, "pref", "suffix")),
        strings(&["prefixsuffix", "prefixxsuffix"])
    );
    // a reverse trie that does not mirror the forward trie shows which side drove
    let lone = strings(&["xyzzy"]);
    let (_, other) = load_tries(&lone, TernaryTrie::new(), TernaryTrie::new());
    assert_eq!(circumfix_query(&t, &other, "pre", "suffix").len(), 4);
    assert_eq!(circumfix_query(&t, &other, "prefix", "fix"), Vec::<String>::new());
    assert_eq!(circumfix_query(&t, &other, "xy", "zy"), strings(&["xyzzy"]));
    // twice the prefix against the suffix: six characters drive forward, five do not
    assert_eq!(circumfix_query(&t, &other, "pre", "suffix").len(), 4);
    assert_eq!(circumfix_query(&t, &other, "pre", "uffix"), Vec::<String>::new());
    assert_eq!(circumfix_query(&t, &r, "pre", "uffix").len(), 4);
}

#[test]
fn queries_beyond_ascii() {
    let words = strings(&["größe", "große", "grüße", "maß", "spaß", "ße"]);
    let (t, r) = load_tries(&words, HashMapTrie::new(), HashMapTrie::new());
    assert_eq!(sorted(wildcard_query(&t, &r, "gr*ße").unwrap()), strings(&["große", "größe", "grüße"]));
    assert_eq!(sorted(wildcard_query(&t, &r, "*aß").unwrap()), strings(&["maß", "spaß"]));
    assert_eq!(sorted(wildcard_query(&t, &r, "grö*").unwrap()), strings(&["größe"]));
    assert_eq!(wildcard_query(&t, &r, "ß*ße").unwrap(), Vec::<String>::new());
    assert_eq!(wildcard_query(&t, &r, "ße*e").unwrap(), Vec::<String>::new());
}

#[test]
fn prefix_query_is_prefix_search() {
    let t = TernaryTrie::new().learn("abc").learn("abd").learn("aaa");
    assert_eq!(prefix_query(&t, "ab"), strings(&["abc", "abd"]));
    assert_eq!(prefix_query(&t, "ab"), t.prefix_search("ab"));
}

#[test]
fn load_tries_builds_both_directions() {
    let words = strings(&["abc", "", "abc", "xy"]);
    let (t, r) = load_tries(&words, BTreeMapTrie::new(), BTreeMapTrie::new());
    assert!(t.recognize("abc"));
    assert!(t.recognize(""));
    assert!(t.recognize("xy"));
    assert!(!t.recognize("cba"));
    assert!(r.recognize("cba"));
    assert!(r.recognize(""));
    assert!(r.recognize("yx"));
    assert!(!r.recognize("abc"));
    assert_eq!(sorted(t.prefix_search("")), strings(&["", "abc", "xy"]));
    let (t2, r2) = load_tries(&Vec::new(), t, r);
    assert_eq!(sorted(t2.prefix_search("")), strings(&["", "abc", "xy"]));
    assert_eq!(sorted(r2.prefix_search("")), strings(&["", "cba", "yx"]));
}

#[test]
fn error_messages() {
    assert_eq!(
        QueryError::InvalidPattern.message(),
        "sorry, only queries with one * are supported."
    );
    assert_eq!(QueryError::DegenerateQuery.message(), "you don't want to do this.");
}

#[test]
fn find_star_wants_exactly_one() {
    let q = |s: &str| find_star(&s.chars().collect::<Vec<char>>());
    assert_eq!(q("a*b"), Some(1));
    assert_eq!(q("*"), Some(0));
    assert_eq!(q("ab*"), Some(2));
    assert_eq!(q(""), None);
    assert_eq!(q("ab"), None);
    assert_eq!(q("a*b*"), None);
    assert_eq!(q("**"), None);
}

#[test]
fn word_helpers() {
    assert_eq!(chars_of("aß日"), vec!['a', 'ß', '日']);
    assert_eq!(chars_of(""), Vec::<char>::new());
    let v = vec!['h', 'e', 'l', 'l', 'o'];
    assert_eq!(string_of(&v, 0, 5), "hello");
    assert_eq!(string_of(&v, 1, 3), "el");
    assert_eq!(string_of(&v, 2, 2), "");
    assert_eq!(reversed("hello"), "olleh");
    assert_eq!(reversed("aß日"), "日ßa");
    assert_eq!(reversed(""), "");
    let w = vec!['a', 'b', 'c'];
    assert!(has_prefix(&w, &vec!['a', 'b']));
    assert!(has_prefix(&w, &vec![]));
    assert!(has_prefix(&w, &w));
    assert!(!has_prefix(&w, &vec!['b']));
    assert!(!has_prefix(&w, &vec!['a', 'b', 'c', 'd']));
    assert!(has_suffix(&w, &vec!['b', 'c']));
    assert!(has_suffix(&w, &vec![]));
    assert!(has_suffix(&w, &w));
    assert!(!has_suffix(&w, &vec!['b']));
    assert!(!has_suffix(&w, &vec!['z', 'a', 'b', 'c']));
}

#[test]
fn matches_come_one_at_a_time() {
    let words = strings(&["hello", "help", "held", "shelf", "elf"]);
    let (t, r) = load_tries(&words, TernaryTrie::new(), TernaryTrie::new());
    let mut m = wildcard_matches(&t, &r, "hel*").ok().unwrap();
    assert_eq!(m.next(), Some("held".to_string()));
    assert_eq!(m.next(), Some("hello".to_string()));
    assert_eq!(m.next(), Some("help".to_string()));
    assert_eq!(m.next(), None);
    assert_eq!(m.next(), None);
    let mut m = wildcard_matches(&t, &r, "*elf").ok().unwrap();
    assert_eq!(m.next(), Some("elf".to_string()));
    assert_eq!(m.next(), Some("shelf".to_string()));
    assert_eq!(m.next(), None);
    let mut m = wildcard_matches(&t, &r, "h*p").ok().unwrap();
    assert_eq!(m.next(), Some("help".to_string()));
    assert_eq!(m.next(), None);
    let mut first = wildcard_matches(&t, &r, "h*").ok().unwrap();
    assert_eq!(first.next(), Some("held".to_string()));
    assert!(matches!(wildcard_matches(&t, &r, "*"), Err(QueryError::DegenerateQuery)));
    assert!(matches!(wildcard_matches(&t, &r, "h*l*"), Err(QueryError::InvalidPattern)));
    assert!(matches!(wildcard_matches(&t, &r, "help"), Err(QueryError::InvalidPattern)));
}

#[test]
fn matches_agree_with_queries() {
    let words = strings(&["walking", "talking", "king", "kin", "ring", "rings", "g", ""]);
    let (t, r) = load_tries(&words, ArrayMapTrie::new(), ArrayMapTrie::new());
    for p in ["", "k", "ki", "w", "ring", "x"] {
        assert_eq!(drain(prefix_matches(&t, p)), prefix_query(&t, p));
        assert_eq!(drain(prefix_matches(&t, p)), t.prefix_search(p));
    }
    for s in ["", "g", "ing", "ings", "x"] {
        assert_eq!(drain(suffix_matches(&r, s)), suffix_query(&r, s));
    }
    for q in ["k*", "*g", "k*g", "w*ing", "ta*g", "r*s", "*", "k"] {
        match (wildcard_matches(&t, &r, q), wildcard_query(&t, &r, q)) {
            (Ok(m), Ok(v)) => assert_eq!(drain(m), v),
            (Err(a), Err(b)) => assert_eq!(a, b),
            _ => panic!("the two disagree on {:?}", q),
        }
    }
}

#[test]
fn letters_and_their_code_points() {
    assert_eq!(code_of('a'), 97);
    assert_eq!(code_of('日'), 0x65E5);
    assert_eq!(letter_of(97), Some('a'));
    assert_eq!(letter_of(0x65E5), Some('日'));
    assert_eq!(letter_of(0), Some('\0'));
    assert_eq!(letter_of(0x10FFFF), Some('\u{10FFFF}'));
    assert_eq!(letter_of(0xD800), None);
    assert_eq!(letter_of(0xDFFF), None);
    assert_eq!(letter_of(0x110000), None);
    assert_eq!(letter_of(u32::MAX), None);
    assert_eq!(reversed_chars(&vec!['a', 'b', 'c']), vec!['c', 'b', 'a']);
    assert_eq!(reversed_chars(&Vec::new()), Vec::<char>::new());
}
