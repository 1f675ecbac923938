use wildcard::error::{FormatError, LoadError};
use wildcard::numberer::{HashMapNumberer, Numberer};
use wildcard::sorted_set::{search_from, SortedSet};
use wildcard::sparse_dense_vec::{DenseVec, Dimension};

fn sample() -> DenseVec<i32> {
    let mut dv = DenseVec::new();
    dv.insert(1, 1);
    dv.insert(4, 4);
    dv.insert(3, 3);
    dv
}

#[test]
fn dense_vec_insert_and_get() {
    let dv = sample();
    assert_eq!(dv.len(), 3);
    assert_eq!(dv.get(0), None);
    assert_eq!(dv.get(1), Some(&1));
    assert_eq!(dv.get(2), None);
    assert_eq!(dv.get(3), Some(&3));
    assert_eq!(dv.get(4), Some(&4));
    assert_eq!(dv.get(5), None);
    assert_eq!(dv.dim(), 5);
    assert_eq!(dv.view_content(), &[None, Some(1), None, Some(3), Some(4)]);
}

#[test]
fn dense_vec_insert_returns_the_old_element() {
    let mut dv = sample();
    assert_eq!(dv.insert(3, 30), Some(3));
    assert_eq!(dv.insert(2, 20), None);
    assert_eq!(dv.insert(7, 70), None);
    assert_eq!(dv.len(), 5);
    assert_eq!(dv.dim(), 8);
    assert_eq!(dv.get(3), Some(&30));
    assert_eq!(dv.get(7), Some(&70));
    assert_eq!(dv.get(6), None);
}

#[test]
fn dense_vec_update() {
    let dv = sample();
    let dv = dv.update(0, |opt_e| opt_e.unwrap_or(0));
    assert_eq!(dv.get(0), Some(&0));
    assert_eq!(dv.len(), 4);
    assert_eq!(dv.dim(), 5);
    let dv = dv.update(4, |opt_e| opt_e.unwrap_or(0) + 10);
    assert_eq!(dv.get(4), Some(&14));
    assert_eq!(dv.len(), 4);
    let dv = dv.update(6, |opt_e| opt_e.unwrap_or(-1));
    assert_eq!(dv.get(6), Some(&-1));
    assert_eq!(dv.len(), 5);
    assert_eq!(dv.dim(), 7);
}

#[test]
fn dense_vec_update_all() {
    let dv = sample();
    let dv = dv.update(0, |opt_e| opt_e.unwrap_or(0));
    let dv = dv.update_all(|n| n + 1);
    assert_eq!(dv.get(0), Some(&1));
    assert_eq!(dv.get(1), Some(&2));
    assert_eq!(dv.get(2), None);
    assert_eq!(dv.get(3), Some(&4));
    assert_eq!(dv.get(4), Some(&5));
    assert_eq!(dv.len(), 4);
    assert_eq!(dv.dim(), 5);
}

#[test]
fn dense_vec_make_space_and_remove() {
    let mut dv = sample();
    assert_eq!(dv.make_space(1), Some(1));
    assert_eq!(dv.len(), 2);
    assert_eq!(dv.dim(), 5);
    assert_eq!(dv.make_space(1), None);
    assert_eq!(dv.make_space(5), None);
    assert_eq!(dv.dim(), 6);
    assert_eq!(dv.make_space(9), None);
    assert_eq!(dv.dim(), 10);
    assert_eq!(dv.len(), 2);
    assert_eq!(dv.remove(4), Some(4));
    assert_eq!(dv.remove(4), None);
    assert_eq!(dv.remove(10), None);
    assert_eq!(dv.remove(100), None);
    assert_eq!(dv.dim(), 10);
    assert_eq!(dv.len(), 1);
    assert_eq!(dv.get(3), Some(&3));
}

#[test]
fn dense_vec_shrink_keeps_the_elements() {
    let dv = sample().shrink();
    assert_eq!(dv.view_content(), &[None, Some(1), None, Some(3), Some(4)]);
    assert_eq!(dv.len(), 3);
    let empty: DenseVec<u8> = DenseVec::new().shrink();
    assert_eq!(empty.dim(), 0);
    assert_eq!(empty.len(), 0);
}

#[test]
fn sorted_set_inc() {
    let s: Vec<u32> = Vec::new();
    let s = s.inc(5).inc(1).inc(9).inc(5).inc(3).inc(1);
    assert_eq!(s, vec![1, 3, 5, 9]);
    assert_eq!(s.inc(0).inc(10), vec![0, 1, 3, 5, 9, 10]);
}

#[test]
fn sorted_set_intersection() {
    let a: Vec<u32> = vec![1, 3, 5, 7, 9, 11];
    let b: Vec<u32> = vec![0, 3, 4, 5, 11, 12, 13, 14];
    assert_eq!(a.intersection(&b), vec![3, 5, 11]);
    assert_eq!(b.intersection(&a), vec![3, 5, 11]);
    assert_eq!(a.intersection(&a), a);
    assert_eq!(a.intersection(&Vec::new()), Vec::<u32>::new());
    assert_eq!(Vec::<u32>::new().intersection(&a), Vec::<u32>::new());
    assert_eq!(vec![2u32, 4, 6].intersection(&a), Vec::<u32>::new());
}

#[test]
fn search_from_finds_or_places() {
    let v: Vec<u32> = vec![10, 20, 30, 40];
    assert_eq!(search_from(&v, 0, 10), Ok(0));
    assert_eq!(search_from(&v, 0, 40), Ok(3));
    assert_eq!(search_from(&v, 2, 40), Ok(3));
    assert_eq!(search_from(&v, 0, 5), Err(0));
    assert_eq!(search_from(&v, 0, 25), Err(2));
    assert_eq!(search_from(&v, 2, 25), Err(2));
    assert_eq!(search_from(&v, 0, 45), Err(4));
    assert_eq!(search_from(&v, 4, 45), Err(4));
    assert_eq!(search_from(&Vec::new(), 0, 1), Err(0));
}

#[test]
fn numberer_numbers_in_order_of_first_sight() {
    let mut n = HashMapNumberer::new();
    assert_eq!(n.number("b"), 0);
    assert_eq!(n.number("a"), 1);
    assert_eq!(n.number("b"), 0);
    assert_eq!(n.number(""), 2);
    assert_eq!(n.number("ab"), 3);
    assert_eq!(n.number("a"), 1);
    assert_eq!(n.number(""), 2);
}

#[test]
fn format_error_names_the_trouble() {
    let e = FormatError::new("no tab here");
    assert_eq!(e.message(), "illformed: no tab here");
    assert_eq!(e.description(), "unknown format.");
    assert_eq!(FormatError::new("").message(), "illformed: ");
}

#[test]
fn load_error_wraps_its_causes() {
    let e = LoadError::from(FormatError::new("x"));
    match e {
        LoadError::Format(f) => assert_eq!(f.message(), "illformed: x"),
        _ => panic!("wrong variant"),
    }
    let parse = "x".parse::<usize>().unwrap_err();
    assert!(matches!(LoadError::from(parse), LoadError::Parse(_)));
    let io = std::io::Error::new(std::io::ErrorKind::Other, "gone");
    assert!(matches!(LoadError::from(io), LoadError::Io(_)));
}

#[test]
fn dense_vec_from_pairs() {
    let dv = DenseVec::from_pairs(vec![(1, 'a'), (4, 'b'), (3, 'c'), (1, 'd')]);
    assert_eq!(dv.view_content(), &[None, Some('d'), None, Some('c'), Some('b')]);
    assert_eq!(dv.len(), 3);
    assert_eq!(dv.dim(), 5);
    let empty: DenseVec<char> = DenseVec::from_pairs(Vec::new());
    assert_eq!(empty.dim(), 0);
}
