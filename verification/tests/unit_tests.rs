use counter::Counter;
use std::collections::HashMap;

fn chars(s: &str) -> Vec<u64> {
    s.chars().map(|c| c as u64).collect()
}

fn map_of(pairs: &[(u64, i64)]) -> HashMap<u64, i64> {
    pairs.iter().cloned().collect()
}

#[test]
fn test_creation() {
    let _ = Counter::new();

    let counter = Counter::init(&vec![1]);

    let mut expected = HashMap::new();
    expected.insert(1u64, 1i64);
    assert!(counter.map == expected);
}

#[test]
fn test_creation_with_capacity() {
    let counter = Counter::with_capacity(3);
    assert_eq!(counter.map.capacity(), 3);
}

#[test]
fn test_update() {
    let mut counter = Counter::init(&chars("abbccc"));
    let expected = map_of(&[('a' as u64, 1), ('b' as u64, 2), ('c' as u64, 3)]);
    assert!(counter.map == expected);

    counter.update(&chars("aeeeee"));
    let expected = map_of(&[
        ('a' as u64, 2),
        ('b' as u64, 2),
        ('c' as u64, 3),
        ('e' as u64, 5),
    ]);
    assert!(counter.map == expected);
}

#[test]
fn test_add_update_iterable() {
    let mut counter = Counter::init(&chars("abbccc"));
    let expected = map_of(&[('a' as u64, 1), ('b' as u64, 2), ('c' as u64, 3)]);
    assert!(counter.map == expected);

    counter.update(&chars("aeeeee"));
    let expected = map_of(&[
        ('a' as u64, 2),
        ('b' as u64, 2),
        ('c' as u64, 3),
        ('e' as u64, 5),
    ]);
    assert!(counter.map == expected);
}

#[test]
fn test_add_update_counter() {
    let mut counter = Counter::init(&chars("abbccc"));
    let expected = map_of(&[('a' as u64, 1), ('b' as u64, 2), ('c' as u64, 3)]);
    assert!(counter.map == expected);

    let other = Counter::init(&chars("aeeeee"));
    counter.sum_assign(&other);
    let expected = map_of(&[
        ('a' as u64, 2),
        ('b' as u64, 2),
        ('c' as u64, 3),
        ('e' as u64, 5),
    ]);
    assert!(counter.map == expected);
}

#[test]
fn test_subtract() {
    let mut counter = Counter::init(&chars("abbccc"));
    counter.subtract(&chars("bbccddd"));
    let expected = map_of(&[('a' as u64, 1), ('c' as u64, 1)]);
    assert!(counter.map == expected);
}

#[test]
fn test_sub_update_iterable() {
    let mut counter = Counter::init(&chars("abbccc"));
    counter.subtract(&chars("bbccddd"));
    let expected = map_of(&[('a' as u64, 1), ('c' as u64, 1)]);
    assert!(counter.map == expected);
}

#[test]
fn test_sub_update_counter() {
    let mut counter = Counter::init(&chars("abbccc"));
    let other = Counter::init(&chars("bbccddd"));
    counter.difference_assign(&other);
    let expected = map_of(&[('a' as u64, 1), ('c' as u64, 1)]);
    assert!(counter.map == expected);
}

#[test]
fn test_from_iter_simple() {
    let counter = Counter::init(&chars("abbccc"));
    let expected = map_of(&[('a' as u64, 1), ('b' as u64, 2), ('c' as u64, 3)]);
    assert!(counter.map == expected);
}

#[test]
fn test_from_iter_tuple() {
    let items: Vec<(u64, i64)> = vec![('a' as u64, 1), ('b' as u64, 2), ('c' as u64, 3)];
    let counter = Counter::from_pairs(&items);
    let expected: HashMap<u64, i64> = items.iter().cloned().collect();
    assert_eq!(counter.map, expected);
}

#[test]
fn test_from_iter_tuple_with_duplicates() {
    let items: Vec<(u64, i64)> = vec![('a' as u64, 1), ('b' as u64, 2), ('c' as u64, 3)];
    let doubled: Vec<(u64, i64)> = items
        .iter()
        .cycle()
        .take(items.len() * 2)
        .cloned()
        .collect();
    let counter = Counter::from_pairs(&doubled);
    let expected: HashMap<u64, i64> = items.iter().map(|(c, n)| (*c, n * 2)).collect();
    assert_eq!(counter.map, expected);
}

#[test]
fn test_extend_simple() {
    let mut counter = Counter::init(&chars("abbccc"));
    counter.update(&chars("bccddd"));
    let expected = map_of(&[
        ('a' as u64, 1),
        ('b' as u64, 3),
        ('c' as u64, 5),
        ('d' as u64, 3),
    ]);
    assert!(counter.map == expected);
}

#[test]
fn test_extend_tuple() {
    let mut counter = Counter::init(&chars("bccddd"));
    let items: Vec<(u64, i64)> = vec![('a' as u64, 1), ('b' as u64, 2), ('c' as u64, 3)];
    counter.extend(&items);
    let expected = map_of(&[
        ('a' as u64, 1),
        ('b' as u64, 3),
        ('c' as u64, 5),
        ('d' as u64, 3),
    ]);
    assert_eq!(counter.map, expected);
}

#[test]
fn test_extend_tuple_with_duplicates() {
    let mut counter = Counter::init(&chars("ccc"));
    let items: Vec<(u64, i64)> = vec![('a' as u64, 1), ('b' as u64, 2), ('c' as u64, 3)];
    let cycled: Vec<(u64, i64)> = items
        .iter()
        .cycle()
        .take(items.len() * 2 - 1)
        .cloned()
        .collect();
    counter.extend(&cycled);
    let expected: HashMap<u64, i64> = items.iter().map(|(c, n)| (*c, n * 2)).collect();
    assert_eq!(counter.map, expected);
}

#[test]
fn test_count_minimal_type() {
    // <https://en.wikipedia.org/wiki/867-5309/Jenny>
    let intys: Vec<u64> = vec![8, 0, 0, 8, 6, 7, 5, 3, 0, 9];

    let inty_counts = Counter::init(&intys);
    // {8: 2, 0: 3, 9: 1, 3: 1, 7: 1, 6: 1, 5: 1}
    assert!(inty_counts.map.get(&8) == Some(&2));
    assert!(inty_counts.map.get(&0) == Some(&3));
    assert!(inty_counts.map.get(&6) == Some(&1));
}

#[test]
fn test_collect() {
    let counter = Counter::init(&chars("abbccc"));
    let expected = map_of(&[('a' as u64, 1), ('b' as u64, 2), ('c' as u64, 3)]);
    assert!(counter.map == expected);
}

#[test]
fn test_non_usize_count() {
    let counter = Counter::init(&chars("abbccc"));
    let expected = map_of(&[('a' as u64, 1), ('b' as u64, 2), ('c' as u64, 3)]);
    assert!(counter.map == expected);
}
