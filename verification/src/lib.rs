//! A wildcard string-search engine.
//!
//! A trie holds a vocabulary: it learns words, tells whether it holds a word,
//! and lists the words under a prefix. One trie over the words as they are
//! and one over the words read backwards answer patterns with one `*`:
//! `p*` by prefix, `*s` by suffix, and `p*s` from whichever of the two tries
//! the lengths of `p` and `s` favour.
//!
//! The tries come in several makes that all meet the contract of
//! `trie::Trie`: a ternary search trie, tries with a hash map or an ordered
//! map in every node, and a trie with sorted array maps. Beside them stand a
//! few small collections for indexing by number.

pub mod words;
pub mod trie;
pub mod ternary_trie;
pub mod array_trie;
pub mod hash_trie;
pub mod btree_trie;
pub mod hash_map_trie;
pub mod btree_map_trie;
pub mod query;
pub mod sparse_dense_vec;
pub mod sorted_set;
pub mod numberer;
pub mod error;
