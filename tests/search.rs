use sort_search::search::{binary_search, recursive_binary_search};

const SORTED: [i32; 7] = [1, 2, 3, 4, 8, 10, 15];

#[test]
fn finds_three_at_index_two() {
    assert_eq!(binary_search(&SORTED, &3), Some(2));
    assert_eq!(recursive_binary_search(&SORTED, &3), Some(2));
}

#[test]
fn finds_ten_at_index_five() {
    assert_eq!(binary_search(&SORTED, &10), Some(5));
    assert_eq!(recursive_binary_search(&SORTED, &10), Some(5));
}

#[test]
fn misses_value_above_all() {
    assert_eq!(binary_search(&SORTED, &99), None);
    assert_eq!(recursive_binary_search(&SORTED, &99), None);
}

#[test]
fn misses_value_below_all() {
    assert_eq!(binary_search(&SORTED, &0), None);
    assert_eq!(recursive_binary_search(&SORTED, &0), None);
    assert_eq!(binary_search(&SORTED, &i32::MIN), None);
}

#[test]
fn misses_values_between_neighbours() {
    for t in [5, 6, 7, 9, 11, 14] {
        assert_eq!(binary_search(&SORTED, &t), None);
        assert_eq!(recursive_binary_search(&SORTED, &t), None);
    }
}

#[test]
fn empty_slice_finds_nothing() {
    let empty: [i32; 0] = [];
    for t in [i32::MIN, -1, 0, 1, i32::MAX] {
        assert_eq!(binary_search(&empty, &t), None);
        assert_eq!(recursive_binary_search(&empty, &t), None);
    }
}

#[test]
fn single_element_slice() {
    assert_eq!(binary_search(&[7], &7), Some(0));
    assert_eq!(binary_search(&[7], &6), None);
    assert_eq!(binary_search(&[7], &8), None);
    assert_eq!(recursive_binary_search(&[7], &7), Some(0));
    assert_eq!(recursive_binary_search(&[7], &6), None);
}

#[test]
fn every_element_is_found() {
    let s = [-20, -3, 0, 0, 5, 9, 9, 9, 40, 41, 100];
    for i in 0..s.len() {
        let j = binary_search(&s, &s[i]).expect("present");
        assert_eq!(s[j], s[i]);
        let k = recursive_binary_search(&s, &s[i]).expect("present");
        assert_eq!(s[k], s[i]);
    }
}

#[test]
fn both_forms_agree() {
    let s = [1, 2, 2, 2, 3, 7, 7, 12];
    for t in -2..15 {
        assert_eq!(binary_search(&s, &t), recursive_binary_search(&s, &t));
    }
}

#[test]
fn duplicates_give_a_matching_index() {
    let s = [4, 4, 4, 4, 4];
    let j = binary_search(&s, &4).expect("present");
    assert!(j < s.len());
    assert_eq!(recursive_binary_search(&s, &4), Some(j));
}

#[test]
fn searches_strings() {
    let s = ["ant", "bee", "cat", "dog"];
    assert_eq!(binary_search(&s, &"cat"), Some(2));
    assert_eq!(binary_search(&s, &"cow"), None);
    assert_eq!(recursive_binary_search(&s, &"ant"), Some(0));
}
