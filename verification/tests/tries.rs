use wildcard::btree_map_trie;
use wildcard::hash_map_trie;
use wildcard::trie::{
    drain, ArrayMapTrie, BTreeMapTrie, Cursor, HashMapTrie, TernaryTrie, Trie, Walk,
};

fn sorted(mut v: Vec<String>) -> Vec<String> {
    v.sort();
    v
}

fn strings(v: &[&str]) -> Vec<String> {
    v.iter().map(|s| s.to_string()).collect()
}

fn learn_all<T: Trie>(zero: T, words: &[&str]) -> T {
    let mut t = zero;
    for w in words {
        t = t.learn(w);
    }
    t
}

fn membership<T: Trie>(zero: T) {
    let t = learn_all(zero, &["abc", "abd", "aaa"]);
    assert!(t.recognize("abd"));
    assert!(t.recognize("abc"));
    assert!(t.recognize("aaa"));
    assert!(!t.recognize("ab"));
    assert!(!t.recognize("a"));
    assert!(!t.recognize("abcd"));
    assert!(!t.recognize("abe"));
    assert!(!t.recognize("b"));
    assert!(!t.recognize(""));
}

fn prefixes<T: Trie>(zero: T) {
    let t = learn_all(zero, &["abc", "abd", "aaa"]);
    assert_eq!(sorted(t.prefix_search("ab")), strings(&["abc", "abd"]));
    assert_eq!(sorted(t.prefix_search("a")), strings(&["aaa", "abc", "abd"]));
    assert_eq!(sorted(t.prefix_search("")), strings(&["aaa", "abc", "abd"]));
    assert_eq!(sorted(t.prefix_search("abc")), strings(&["abc"]));
    assert_eq!(t.prefix_search("abcd"), Vec::<String>::new());
    assert_eq!(t.prefix_search("x"), Vec::<String>::new());
}

fn prefix_completeness<T: Trie>(zero: T) {
    let words = ["car", "card", "care", "cat", "dog", "do", "", "zebra"];
    let t = learn_all(zero, &words);
    for w in words.iter() {
        let chars: Vec<char> = w.chars().collect();
        for n in 0..=chars.len() {
            let p: String = chars[..n].iter().collect();
            let found = t.prefix_search(&p);
            assert!(found.contains(&w.to_string()), "{:?} under {:?}", w, p);
            for f in found.iter() {
                assert!(f.starts_with(&p));
                assert!(words.contains(&f.as_str()));
            }
            let mut once = found.clone();
            once.sort();
            once.dedup();
            assert_eq!(once.len(), found.len());
        }
    }
}

fn idempotence<T: Trie>(zero_once: T, zero_twice: T) {
    let once = learn_all(zero_once, &["help", "hello", "held"]);
    let twice = learn_all(zero_twice, &["help", "hello", "help", "held", "held", "hello"]);
    for w in ["help", "hello", "held", "hel", "he", "", "helps"] {
        assert_eq!(once.recognize(w), twice.recognize(w));
        assert_eq!(sorted(once.prefix_search(w)), sorted(twice.prefix_search(w)));
    }
    assert_eq!(twice.prefix_search("hel").len(), 3);
}

fn empty_vocabulary<T: Trie>(zero: T) {
    assert_eq!(zero.prefix_search(""), Vec::<String>::new());
    assert_eq!(zero.prefix_search("a"), Vec::<String>::new());
    assert!(!zero.recognize(""));
    assert!(!zero.recognize("a"));
}

fn empty_word<T: Trie>(zero: T) {
    let t = learn_all(zero, &["", "a"]);
    assert!(t.recognize(""));
    assert!(t.recognize("a"));
    assert_eq!(sorted(t.prefix_search("")), strings(&["", "a"]));
    assert_eq!(t.prefix_search("a"), strings(&["a"]));
}

fn beyond_ascii<T: Trie>(zero: T) {
    let t = learn_all(zero, &["über", "übel", "uber", "日本語", "日本"]);
    assert!(t.recognize("über"));
    assert!(!t.recognize("üb"));
    assert!(t.recognize("日本"));
    assert_eq!(sorted(t.prefix_search("üb")), strings(&["übel", "über"]));
    assert_eq!(sorted(t.prefix_search("日")), strings(&["日本", "日本語"]));
    assert_eq!(t.prefix_search("u"), strings(&["uber"]));
}

#[test]
fn ternary_membership() {
    membership(TernaryTrie::new());
}

#[test]
fn ternary_prefixes() {
    prefixes(TernaryTrie::new());
}

#[test]
fn ternary_prefix_completeness() {
    prefix_completeness(TernaryTrie::new());
}

#[test]
fn ternary_idempotence() {
    idempotence(TernaryTrie::new(), TernaryTrie::new());
}

#[test]
fn ternary_empty_vocabulary() {
    empty_vocabulary(TernaryTrie::new());
}

#[test]
fn ternary_empty_word() {
    empty_word(TernaryTrie::new());
}

#[test]
fn ternary_beyond_ascii() {
    beyond_ascii(TernaryTrie::new());
}

#[test]
fn ternary_lists_in_ascending_order() {
    let t = learn_all(TernaryTrie::new(), &["m", "b", "x", "a", "ba", "c", "bb", "z", ""]);
    assert_eq!(
        t.prefix_search(""),
        strings(&["", "a", "b", "ba", "bb", "c", "m", "x", "z"])
    );
    assert_eq!(t.prefix_search("b"), strings(&["b", "ba", "bb"]));
}

#[test]
fn ternary_iter_hands_out_one_word_at_a_time() {
    let t = learn_all(TernaryTrie::new(), &["abc", "abd", "aaa", "ab"]);
    let mut it = t.prefix_iter("ab");
    assert_eq!(it.next(), Some("ab".to_string()));
    assert_eq!(it.next(), Some("abc".to_string()));
    assert_eq!(it.next(), Some("abd".to_string()));
    assert_eq!(it.next(), None);
    assert_eq!(it.next(), None);
    let mut none = t.prefix_iter("b");
    assert_eq!(none.next(), None);
    let mut first_only = t.prefix_iter("");
    assert_eq!(first_only.next(), Some("aaa".to_string()));
}

#[test]
fn ternary_iter_agrees_with_prefix_search() {
    let t = learn_all(TernaryTrie::new(), &["car", "card", "care", "cat", "dog", "do", ""]);
    for p in ["", "c", "ca", "car", "d", "do", "dog", "x"] {
        let mut it = t.prefix_iter(p);
        let mut got = Vec::new();
        while let Some(w) = it.next() {
            got.push(w);
        }
        assert_eq!(got, t.prefix_search(p));
    }
}

#[test]
fn hash_membership() {
    membership(HashMapTrie::new());
}

#[test]
fn hash_prefixes() {
    prefixes(HashMapTrie::new());
}

#[test]
fn hash_prefix_completeness() {
    prefix_completeness(HashMapTrie::new());
}

#[test]
fn hash_idempotence() {
    idempotence(HashMapTrie::new(), HashMapTrie::new());
}

#[test]
fn hash_empty_vocabulary() {
    empty_vocabulary(HashMapTrie::new());
}

#[test]
fn hash_empty_word() {
    empty_word(HashMapTrie::new());
}

#[test]
fn hash_beyond_ascii() {
    beyond_ascii(HashMapTrie::new());
}

#[test]
fn hash_shrink_keeps_the_words() {
    let mut t = learn_all(HashMapTrie::new(), &["car", "card", "care", "cat", "dog"]);
    t.shrink_to_fit();
    assert!(t.recognize("card"));
    assert!(!t.recognize("ca"));
    assert_eq!(sorted(t.prefix_search("ca")), strings(&["car", "card", "care", "cat"]));
    let t = t.learn("ca");
    assert!(t.recognize("ca"));
}

#[test]
fn btree_membership() {
    membership(BTreeMapTrie::new());
}

#[test]
fn btree_prefixes() {
    prefixes(BTreeMapTrie::new());
}

#[test]
fn btree_prefix_completeness() {
    prefix_completeness(BTreeMapTrie::new());
}

#[test]
fn btree_idempotence() {
    idempotence(BTreeMapTrie::new(), BTreeMapTrie::new());
}

#[test]
fn btree_empty_vocabulary() {
    empty_vocabulary(BTreeMapTrie::new());
}

#[test]
fn btree_empty_word() {
    empty_word(BTreeMapTrie::new());
}

#[test]
fn btree_beyond_ascii() {
    beyond_ascii(BTreeMapTrie::new());
}

#[test]
fn array_membership() {
    membership(ArrayMapTrie::new());
}

#[test]
fn array_prefixes() {
    prefixes(ArrayMapTrie::new());
}

#[test]
fn array_prefix_completeness() {
    prefix_completeness(ArrayMapTrie::new());
}

#[test]
fn array_idempotence() {
    idempotence(ArrayMapTrie::new(), ArrayMapTrie::new());
}

#[test]
fn array_empty_vocabulary() {
    empty_vocabulary(ArrayMapTrie::new());
}

#[test]
fn array_empty_word() {
    empty_word(ArrayMapTrie::new());
}

#[test]
fn array_beyond_ascii() {
    beyond_ascii(ArrayMapTrie::new());
}

#[test]
fn array_lists_in_ascending_order() {
    let t = learn_all(ArrayMapTrie::new(), &["m", "b", "x", "a", "ba", "c", "bb", "z", ""]);
    assert_eq!(
        t.prefix_search(""),
        strings(&["", "a", "b", "ba", "bb", "c", "m", "x", "z"])
    );
}

#[test]
fn array_iter_hands_out_one_word_at_a_time() {
    let t = learn_all(ArrayMapTrie::new(), &["abc", "abd", "aaa", "ab"]);
    let mut it = t.prefix_iter("ab");
    assert_eq!(it.next(), Some("ab".to_string()));
    assert_eq!(it.next(), Some("abc".to_string()));
    assert_eq!(it.next(), Some("abd".to_string()));
    assert_eq!(it.next(), None);
    assert_eq!(it.next(), None);
    let mut none = t.prefix_iter("b");
    assert_eq!(none.next(), None);
    let mut first_only = t.prefix_iter("");
    assert_eq!(first_only.next(), Some("aaa".to_string()));
}

#[test]
fn array_iter_agrees_with_prefix_search() {
    let t = learn_all(ArrayMapTrie::new(), &["car", "card", "care", "cat", "dog", "do", ""]);
    for p in ["", "c", "ca", "car", "d", "do", "dog", "x"] {
        let mut it = t.prefix_iter(p);
        let mut got = Vec::new();
        while let Some(w) = it.next() {
            got.push(w);
        }
        assert_eq!(got, t.prefix_search(p));
    }
    assert_eq!(t.prefix_search("d"), strings(&["do", "dog"]));
}

#[test]
fn array_shrink_keeps_the_words() {
    let mut t = learn_all(ArrayMapTrie::new(), &["car", "card", "care", "cat", "dog"]);
    t.shrink_to_fit();
    assert!(t.recognize("card"));
    assert!(!t.recognize("ca"));
    assert_eq!(t.prefix_search("ca"), strings(&["car", "card", "care", "cat"]));
    let t = t.learn("ca");
    assert!(t.recognize("ca"));
    assert_eq!(t.prefix_search("ca"), strings(&["ca", "car", "card", "care", "cat"]));
}

#[test]
fn hash_enum_membership() {
    membership(hash_map_trie::HashMapTrie::new());
}

#[test]
fn hash_enum_prefixes() {
    prefixes(hash_map_trie::HashMapTrie::new());
}

#[test]
fn hash_enum_prefix_completeness() {
    prefix_completeness(hash_map_trie::HashMapTrie::new());
}

#[test]
fn hash_enum_idempotence() {
    idempotence(hash_map_trie::HashMapTrie::new(), hash_map_trie::HashMapTrie::new());
}

#[test]
fn hash_enum_empty_vocabulary() {
    empty_vocabulary(hash_map_trie::HashMapTrie::new());
}

#[test]
fn hash_enum_empty_word() {
    empty_word(hash_map_trie::HashMapTrie::new());
}

#[test]
fn hash_enum_accept_and_content() {
    let t = hash_map_trie::HashMapTrie::new();
    assert!(!t.is_accept());
    assert_eq!(t.view_content().len(), 0);
    let t = t.learn("ab").learn("c").learn("");
    assert!(t.is_accept());
    assert_eq!(t.view_content().len(), 2);
    let a = &t.view_content()[&('a' as u32)];
    assert!(!a.is_accept());
    assert!(a.view_content()[&('b' as u32)].is_accept());
    assert!(t.view_content()[&('c' as u32)].is_accept());
}

#[test]
fn btree_enum_membership() {
    membership(btree_map_trie::BTreeMapTrie::new());
}

#[test]
fn btree_enum_prefixes() {
    prefixes(btree_map_trie::BTreeMapTrie::new());
}

#[test]
fn btree_enum_prefix_completeness() {
    prefix_completeness(btree_map_trie::BTreeMapTrie::new());
}

#[test]
fn btree_enum_idempotence() {
    idempotence(btree_map_trie::BTreeMapTrie::new(), btree_map_trie::BTreeMapTrie::new());
}

#[test]
fn btree_enum_empty_vocabulary() {
    empty_vocabulary(btree_map_trie::BTreeMapTrie::new());
}

#[test]
fn btree_enum_empty_word() {
    empty_word(btree_map_trie::BTreeMapTrie::new());
}

#[test]
fn btree_enum_accept_and_content() {
    let t = btree_map_trie::BTreeMapTrie::new();
    assert!(!t.is_accept());
    assert!(t.view_content().is_empty());
    let t = t.learn("ab").learn("c");
    assert!(!t.is_accept());
    let keys: Vec<u32> = t.view_content().keys().copied().collect();
    assert_eq!(keys, vec!['a' as u32, 'c' as u32]);
    assert!(t.view_content()[&('c' as u32)].is_accept());
}

fn iter_agrees<'a, T: Walk<'a>>(t: &'a T) {
    for p in ["", "c", "ca", "car", "d", "do", "dog", "x"] {
        let mut it = t.prefix_iter(p);
        let mut got = Vec::new();
        while let Some(w) = it.next() {
            got.push(w);
        }
        assert_eq!(it.next(), None);
        assert_eq!(got, t.prefix_search(p));
        assert_eq!(drain(t.prefix_iter(p)), t.prefix_search(p));
    }
    let mut it = t.prefix_iter("ca");
    assert_eq!(it.next(), Some("car".to_string()));
    assert_eq!(it.next(), Some("card".to_string()));
    let mut rest = drain(it);
    assert_eq!(rest.pop(), Some("cat".to_string()));
    assert_eq!(rest.pop(), Some("care".to_string()));
    assert_eq!(rest.pop(), None);
}

fn ascending_order<T: Trie>(zero: T) {
    let t = learn_all(zero, &["m", "b", "x", "a", "ba", "c", "bb", "z", "", "ä", "日", "B"]);
    assert_eq!(
        t.prefix_search(""),
        strings(&["", "B", "a", "b", "ba", "bb", "c", "m", "x", "z", "ä", "日"])
    );
    assert_eq!(t.prefix_search("b"), strings(&["b", "ba", "bb"]));
}

#[test]
fn ternary_ascending_order() {
    ascending_order(TernaryTrie::new());
}

#[test]
fn array_ascending_order() {
    ascending_order(ArrayMapTrie::new());
}

#[test]
fn hash_ascending_order() {
    ascending_order(HashMapTrie::new());
}

#[test]
fn btree_ascending_order() {
    ascending_order(BTreeMapTrie::new());
}

#[test]
fn hash_enum_ascending_order() {
    ascending_order(hash_map_trie::HashMapTrie::new());
}

#[test]
fn btree_enum_ascending_order() {
    ascending_order(btree_map_trie::BTreeMapTrie::new());
}

#[test]
fn ternary_iter_agrees() {
    let t = learn_all(TernaryTrie::new(), &["car", "card", "care", "cat", "dog", "do", ""]);
    iter_agrees(&t);
}

#[test]
fn array_iter_agrees() {
    let t = learn_all(ArrayMapTrie::new(), &["car", "card", "care", "cat", "dog", "do", ""]);
    iter_agrees(&t);
}

#[test]
fn hash_iter_agrees_with_prefix_search() {
    let t = learn_all(HashMapTrie::new(), &["car", "card", "care", "cat", "dog", "do", ""]);
    iter_agrees(&t);
}

#[test]
fn btree_iter_agrees_with_prefix_search() {
    let t = learn_all(BTreeMapTrie::new(), &["car", "card", "care", "cat", "dog", "do", ""]);
    iter_agrees(&t);
}

#[test]
fn hash_enum_iter_agrees_with_prefix_search() {
    let t = learn_all(
        hash_map_trie::HashMapTrie::new(),
        &["car", "card", "care", "cat", "dog", "do", ""],
    );
    iter_agrees(&t);
}

#[test]
fn btree_enum_iter_agrees_with_prefix_search() {
    let t = learn_all(
        btree_map_trie::BTreeMapTrie::new(),
        &["car", "card", "care", "cat", "dog", "do", ""],
    );
    iter_agrees(&t);
}
