use sort_search::sort::{merge, merge_sort};
use std::cmp::Ordering;

#[derive(Clone, Copy, Debug)]
struct Entry {
    key: i32,
    tag: char,
}

impl PartialEq for Entry {
    fn eq(&self, other: &Entry) -> bool {
        self.key == other.key
    }
}

impl Eq for Entry {}

impl PartialOrd for Entry {
    fn partial_cmp(&self, other: &Entry) -> Option<Ordering> {
        Some(self.cmp(other))
    }
}

impl Ord for Entry {
    fn cmp(&self, other: &Entry) -> Ordering {
        self.key.cmp(&other.key)
    }
}

fn entries(items: &[(i32, char)]) -> Vec<Entry> {
    items.iter().map(|&(key, tag)| Entry { key, tag }).collect()
}

fn tags(v: &[Entry]) -> Vec<(i32, char)> {
    v.iter().map(|e| (e.key, e.tag)).collect()
}

#[test]
fn sorts_the_example() {
    let mut v = vec![10, 5, 2, 3, 7, 6, 8, 9, 4, 1];
    merge_sort(&mut v);
    assert_eq!(v, vec![1, 2, 3, 4, 5, 6, 7, 8, 9, 10]);
}

#[test]
fn sorts_empty_and_single() {
    let mut e: Vec<i32> = vec![];
    merge_sort(&mut e);
    assert!(e.is_empty());
    let mut one = vec![42];
    merge_sort(&mut one);
    assert_eq!(one, vec![42]);
}

#[test]
fn keeps_duplicates_and_extremes() {
    let mut v = vec![3, i64::MAX, -1, 3, i64::MIN, 0, 3, -1];
    merge_sort(&mut v);
    assert_eq!(v, vec![i64::MIN, -1, -1, 0, 3, 3, 3, i64::MAX]);
}

#[test]
fn result_is_sorted_permutation() {
    let original = vec![9, 1, 8, 2, 7, 3, 6, 4, 5, 5, 0, 9];
    let mut v = original.clone();
    merge_sort(&mut v);
    assert!(v.windows(2).all(|w| w[0] <= w[1]));
    let mut expected = original.clone();
    expected.sort();
    assert_eq!(v, expected);
}

#[test]
fn equal_keys_keep_their_order() {
    let mut v = entries(&[(3, 'a'), (1, 'b'), (3, 'c'), (2, 'd'), (1, 'e'), (3, 'f'), (2, 'g')]);
    merge_sort(&mut v);
    assert_eq!(
        tags(&v),
        vec![(1, 'b'), (1, 'e'), (2, 'd'), (2, 'g'), (3, 'a'), (3, 'c'), (3, 'f')]
    );
}

#[test]
fn all_equal_keys_stay_in_place() {
    let mut v = entries(&[(5, 'p'), (5, 'q'), (5, 'r'), (5, 's'), (5, 't')]);
    merge_sort(&mut v);
    assert_eq!(tags(&v), vec![(5, 'p'), (5, 'q'), (5, 'r'), (5, 's'), (5, 't')]);
}

#[test]
fn sorted_input_is_unchanged() {
    let mut v = vec![1, 2, 2, 3, 4, 8, 10, 15];
    merge_sort(&mut v);
    assert_eq!(v, vec![1, 2, 2, 3, 4, 8, 10, 15]);
}

#[test]
fn sorting_twice_equals_sorting_once() {
    let mut once = entries(&[(2, 'a'), (0, 'b'), (2, 'c'), (1, 'd'), (0, 'e')]);
    merge_sort(&mut once);
    let mut twice = once.clone();
    merge_sort(&mut twice);
    assert_eq!(tags(&twice), tags(&once));
}

#[test]
fn merge_interleaves_sorted_halves() {
    assert_eq!(merge(&[1, 4, 7], &[2, 4, 5, 9]), vec![1, 2, 4, 4, 5, 7, 9]);
    assert_eq!(merge(&[], &[1, 2]), vec![1, 2]);
    assert_eq!(merge(&[3], &[]), vec![3]);
}

#[test]
fn merge_takes_left_on_ties() {
    let left = entries(&[(1, 'l'), (4, 'l')]);
    let right = entries(&[(1, 'r'), (4, 'r')]);
    assert_eq!(tags(&merge(&left, &right)), vec![(1, 'l'), (1, 'r'), (4, 'l'), (4, 'r')]);
}
