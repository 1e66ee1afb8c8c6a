use std::collections::HashMap;

use ranges::Distinct;
use ranges::GroupBy;
use ranges::ToVec;

#[derive(Debug, Clone, PartialEq)]
struct Grouped {
    cat: &'static str,
    val: i32,
}

#[test]
fn to_vec() {
    let jarak = (0..100).filter(|i| i % 2 == 0).to_vec();
    println!("Result : {:?}", jarak);
    let expected: Vec<i32> = (0..50).map(|i| 2 * i).collect();
    assert_eq!(jarak.len(), 50);
    assert_eq!(jarak, expected);
}

#[test]
fn distinct() {
    let result = (0..100).map(|x| x % 3).distinct();
    println!("Result : {:?}", result);
    assert_eq!(result, vec![0, 1, 2]);
}

#[test]
fn group_by() {
    let result = (0..10)
        .map(|i| Grouped {
            cat: if i % 2 == 0 { "Genap" } else { "Ganjil" },
            val: i,
        })
        .group_by(|g| g.cat);
    println!("Result : {:?}", result);
    assert_eq!(result.len(), 2);
    let even: Vec<i32> = result["Genap"].iter().map(|g| g.val).collect();
    let odd: Vec<i32> = result["Ganjil"].iter().map(|g| g.val).collect();
    assert_eq!(even, vec![0, 2, 4, 6, 8]);
    assert_eq!(odd, vec![1, 3, 5, 7, 9]);
    assert!(result["Genap"].iter().all(|g| g.cat == "Genap"));
    assert!(result["Ganjil"].iter().all(|g| g.cat == "Ganjil"));
}

#[test]
fn to_vec_keeps_every_element_in_order() {
    let source = vec![3, 1, 3, 2, 1];
    let result = source.clone().into_iter().to_vec();
    assert_eq!(result, source);
}

#[test]
fn to_vec_of_strings() {
    let words = vec!["b".to_string(), "a".to_string(), "b".to_string()];
    let result = words.iter().cloned().to_vec();
    assert_eq!(result, words);
}

#[test]
fn distinct_keeps_first_occurrence_order() {
    let result = vec![5, 3, 5, 1, 3, 9, 1].into_iter().distinct();
    assert_eq!(result, vec![5, 3, 1, 9]);
}

#[test]
fn distinct_twice_is_distinct_once() {
    let source = vec![4, 4, 2, 7, 2, 4, 0];
    let once = source.into_iter().distinct();
    let twice = once.clone().into_iter().distinct();
    assert_eq!(once, vec![4, 2, 7, 0]);
    assert_eq!(twice, once);
}

#[test]
fn distinct_elements_come_from_source_and_differ() {
    let source = vec!["x", "y", "x", "z", "y", "x"];
    let result = source.iter().copied().distinct();
    for e in &result {
        assert!(source.contains(e));
    }
    for j in 0..result.len() {
        for k in 0..result.len() {
            if j != k {
                assert_ne!(result[j], result[k]);
            }
        }
    }
    assert_eq!(result, vec!["x", "y", "z"]);
}

#[test]
fn distinct_all_equal() {
    let result = std::iter::repeat(7u8).take(20).distinct();
    assert_eq!(result, vec![7u8]);
}

#[test]
fn group_by_sizes_sum_to_source_length() {
    let source: Vec<u32> = (0..37).collect();
    let groups = source.clone().into_iter().group_by(|x| x % 5);
    let total: usize = groups.values().map(|g| g.len()).sum();
    assert_eq!(total, source.len());
    assert_eq!(groups.len(), 5);
}

#[test]
fn group_by_element_lies_in_own_group_only() {
    let source: Vec<u32> = vec![10, 11, 12, 20, 21, 30];
    let groups = source.clone().into_iter().group_by(|x| x / 10);
    for e in &source {
        let k = e / 10;
        assert!(groups[&k].contains(e));
        for (other, list) in &groups {
            if *other != k {
                assert!(!list.contains(e));
            }
        }
    }
    assert_eq!(groups[&1], vec![10, 11, 12]);
    assert_eq!(groups[&2], vec![20, 21]);
    assert_eq!(groups[&3], vec![30]);
}

#[test]
fn group_by_keeps_source_order_within_group() {
    let source = vec![9, 2, 7, 4, 1, 8];
    let groups = source.into_iter().group_by(|x| x % 2 == 0);
    assert_eq!(groups[&true], vec![2, 4, 8]);
    assert_eq!(groups[&false], vec![9, 7, 1]);
}

#[test]
fn group_by_single_key() {
    let groups = vec![3, 3, 3].into_iter().group_by(|_| "all");
    assert_eq!(groups.len(), 1);
    assert_eq!(groups["all"], vec![3, 3, 3]);
}

#[test]
fn empty_source() {
    let empty: Vec<i64> = Vec::new();
    assert!(empty.clone().into_iter().to_vec().is_empty());
    assert!(empty.clone().into_iter().distinct().is_empty());
    let groups: HashMap<i64, Vec<i64>> = empty.into_iter().group_by(|x| *x);
    assert!(groups.is_empty());
}
