use counter::Counter;
use std::collections::HashMap;

fn chars(s: &str) -> Vec<u64> {
    s.chars().map(|c| c as u64).collect()
}

fn map_of(pairs: &[(u64, i64)]) -> HashMap<u64, i64> {
    pairs.iter().cloned().collect()
}

#[test]
fn test_update_counts_occurrences() {
    let mut counter = Counter::init(&chars("mississippi"));
    assert_eq!(counter.count_of('i' as u64), 4);
    assert_eq!(counter.count_of('s' as u64), 4);
    assert_eq!(counter.count_of('p' as u64), 2);
    assert_eq!(counter.count_of('m' as u64), 1);
    assert_eq!(counter.count_of('x' as u64), 0);
    counter.update(&chars("miss"));
    assert_eq!(counter.count_of('m' as u64), 2);
    assert_eq!(counter.count_of('i' as u64), 5);
    assert_eq!(counter.count_of('s' as u64), 6);
}

#[test]
fn test_subtract_never_leaves_identity() {
    let mut counter = Counter::init(&chars("abbccc"));
    counter.subtract(&chars("abba"));
    assert_eq!(counter.clone().into_map(), map_of(&[('c' as u64, 3)]));
    assert!(counter.map.values().all(|v| *v != 0));

    // An entry holding the identity is removed the first time its item is
    // seen, and a negative count survives untouched.
    counter.insert(7, 0);
    counter.insert(8, -2);
    counter.subtract(&vec![7, 8, 9]);
    assert_eq!(counter.map.get(&7), None);
    assert_eq!(counter.map.get(&8), Some(&-2));
    assert!(counter.map.values().all(|v| *v != 0));
}

#[test]
fn test_sum_with_empty_is_identity() {
    let counter = Counter::init(&chars("abbccc"));
    let out = counter.clone().sum(&Counter::new());
    assert!(out == counter);
    let out = Counter::new().sum(&counter);
    assert!(out == counter);
}

#[test]
fn test_difference_undoes_sum_on_disjoint_supports() {
    let a = Counter::init(&chars("aab"));
    let b = Counter::init(&chars("cdd"));
    let out = a.clone().sum(&b).difference(&b);
    assert!(out == a);
}

#[test]
fn test_intersection_union_duality() {
    let a = Counter::init(&chars("aaab"));
    let b = Counter::init(&chars("abb"));
    let inter = a.intersection(&b);
    let uni = a.union(&b);
    for key in ['a' as u64, 'b' as u64] {
        assert_eq!(
            inter.count_of(key) + uni.count_of(key),
            a.count_of(key) + b.count_of(key)
        );
    }
}

#[test]
fn test_subset_superset_symmetry() {
    let mut a = Counter::init(&chars("abb"));
    let mut b = Counter::init(&chars("abbcccc"));
    assert_eq!(a.is_subset(&b), b.is_superset(&a));
    a.insert('e' as u64, -2);
    assert_eq!(a.is_subset(&b), b.is_superset(&a));
    b.insert('e' as u64, -1);
    assert_eq!(a.is_subset(&b), b.is_superset(&a));
    assert_eq!(b.is_subset(&a), a.is_superset(&b));
}

#[test]
fn test_counting_scenario() {
    let counter = Counter::init(&chars("eaddbbccc"));
    let expected = map_of(&[
        ('c' as u64, 3),
        ('b' as u64, 2),
        ('d' as u64, 2),
        ('a' as u64, 1),
        ('e' as u64, 1),
    ]);
    assert_eq!(counter.clone().into_map(), expected);
    let by_common = counter.most_common_ordered();
    let ranking = vec![
        ('c' as u64, 3i64),
        ('b' as u64, 2),
        ('d' as u64, 2),
        ('a' as u64, 1),
        ('e' as u64, 1),
    ];
    assert_eq!(by_common, ranking);
}

#[test]
fn test_top_two_scenario() {
    let counter = Counter::init(&chars("eaddbbccc"));
    let top2 = counter.k_most_common_ordered(2);
    assert_eq!(top2, vec![('c' as u64, 3i64), ('b' as u64, 2)]);
}

#[test]
fn test_sum_scenario() {
    let a = Counter::init(&chars("aaab"));
    let b = Counter::init(&chars("abb"));
    let out = a.sum(&b);
    assert_eq!(out.into_map(), map_of(&[('a' as u64, 4), ('b' as u64, 3)]));
}

#[test]
fn test_difference_scenario() {
    let a = Counter::init(&chars("aaab"));
    let b = Counter::init(&chars("abb"));
    let out = a.difference(&b);
    assert_eq!(out.into_map(), map_of(&[('a' as u64, 2)]));
}

#[test]
fn test_intersection_union_scenario() {
    let a = Counter::init(&chars("aaab"));
    let b = Counter::init(&chars("abb"));
    let inter = a.intersection(&b);
    assert_eq!(
        inter.into_map(),
        map_of(&[('a' as u64, 1), ('b' as u64, 1)])
    );
    let uni = a.union(&b);
    assert_eq!(uni.into_map(), map_of(&[('a' as u64, 3), ('b' as u64, 2)]));
}

#[test]
fn test_empty_counter_indexing() {
    let mut counter = Counter::new();
    // Reading a missing key yields the additive identity and inserts nothing.
    assert_eq!(counter.count_of(5), 0);
    assert_eq!(counter.map.get(&5), None);
    assert!(counter.is_empty());
    // Indexing for write creates an entry initialized with the identity.
    let prev = counter.entry_or_zero(5);
    assert_eq!(prev, 0);
    assert_eq!(counter.map.get(&5), Some(&0));
    assert_eq!(counter.len(), 1);
}

#[test]
fn test_rehydrate_from_map() {
    let counter = Counter::init(&chars("abbccc"));
    let rebuilt = Counter::from_map(counter.clone().into_map());
    assert!(rebuilt == counter);
}

#[test]
fn test_with_capacity_counts_like_new() {
    let mut counter = Counter::with_capacity(3);
    counter.update(&chars("aaa"));
    assert_eq!(counter.count_of('a' as u64), 3);
    assert_eq!(counter.len(), 1);
    let total = counter.total();
    assert_eq!(total, 3);
}

#[test]
fn test_top_k_beyond_length() {
    let counter = Counter::init(&chars("eaddbbccc"));
    let all = counter.most_common_ordered();
    let clamped = counter.k_most_common_ordered(counter.len() + 5);
    assert_eq!(clamped, all);
}
