use counter::Counter;
use rand::Rng;
use std::cell::Cell;

fn chars(s: &str) -> Vec<u64> {
    s.chars().map(|c| c as u64).collect()
}

fn word_code(w: &str) -> u64 {
    match w {
        "able" => 1,
        "babble" => 2,
        "table" => 3,
        "rabble" => 4,
        "fable" => 5,
        "scrabble" => 6,
        "cain" => 7,
        "and" => 8,
        "abel" => 9,
        "cable" => 10,
        "cabbie" => 11,
        _ => panic!("word without a code"),
    }
}

fn words(s: &str) -> Vec<u64> {
    s.split_whitespace().map(word_code).collect()
}

#[test]
fn test_composite_add_sub() {
    let mut counts = Counter::init(&words(
        "able babble table babble rabble table able fable scrabble",
    ));
    // add or subtract an iterable of the same type
    counts.update(&words("cain and abel fable table cable"));
    // or add or subtract from another Counter of the same type
    let other_counts = Counter::init(&words("scrabble cabbie fable babble"));
    let _diff = counts.difference(&other_counts);
}

#[test]
fn test_most_common() {
    let counter = Counter::init(&chars("abbccc"));
    let by_common = counter.most_common();
    let expected = vec![('c' as u64, 3i64), ('b' as u64, 2), ('a' as u64, 1)];
    assert!(by_common == expected);
}

#[test]
fn test_most_common_tiebreaker() {
    let counter = Counter::init(&chars("eaddbbccc"));
    let by_common = counter.most_common_tiebreaker(|a: &u64, b: &u64| a.cmp(b));
    let expected = vec![
        ('c' as u64, 3i64),
        ('b' as u64, 2),
        ('d' as u64, 2),
        ('a' as u64, 1),
        ('e' as u64, 1),
    ];
    assert!(by_common == expected);
}

#[test]
fn test_most_common_tiebreaker_reversed() {
    let counter = Counter::init(&chars("eaddbbccc"));
    let by_common = counter.most_common_tiebreaker(|a: &u64, b: &u64| b.cmp(a));
    let expected = vec![
        ('c' as u64, 3i64),
        ('d' as u64, 2),
        ('b' as u64, 2),
        ('e' as u64, 1),
        ('a' as u64, 1),
    ];
    assert!(by_common == expected);
}

// The main purpose of this test is to see that the tie-break function is
// consulted exactly once for each pair of entries that tie on their counts.
#[test]
fn test_most_common_tiebreaker_fn_mut() {
    let counter = Counter::init(&chars("abracadabra"));
    // Count how many times the tiebreaker is called.
    let num_ties = Cell::new(0);
    let sorted = counter.most_common_tiebreaker(|a: &u64, b: &u64| {
        num_ties.set(num_ties.get() + 1);
        a.cmp(b)
    });
    let expected = vec![
        ('a' as u64, 5i64),
        ('b' as u64, 2),
        ('r' as u64, 2),
        ('c' as u64, 1),
        ('d' as u64, 1),
    ];
    assert_eq!(sorted, expected);
    // The tiebreaker resolves the tie between 'b' and 'r' and the tie
    // between 'c' and 'd', once each.
    assert_eq!(num_ties.get(), 2);
}

#[test]
fn test_most_common_ordered() {
    let counter = Counter::init(&chars("eaddbbccc"));
    let by_common = counter.most_common_ordered();
    let expected = vec![
        ('c' as u64, 3i64),
        ('b' as u64, 2),
        ('d' as u64, 2),
        ('a' as u64, 1),
        ('e' as u64, 1),
    ];
    assert!(by_common == expected);
}

#[test]
fn test_k_most_common_ordered() {
    let counter = Counter::init(&chars("abracadabra"));
    let all = counter.most_common_ordered();
    for k in 0..=counter.len() {
        let topk = counter.k_most_common_ordered(k);
        assert_eq!(&topk[..], &all[..k]);
    }
}

/// This test is fundamentally the same as `test_k_most_common_ordered`, but
/// it operates on a wider variety of data. In particular, it tests both
/// longer, narrower, and wider distributions of data than the other test
/// does.
#[test]
fn test_k_most_common_ordered_heavy() {
    let mut rng = rand::thread_rng();

    for container_size in [5, 10, 25, 100, 256] {
        for max_value_factor in [0.25, 0.5, 1.0, 1.25, 2.0, 10.0, 100.0] {
            let max_value = ((container_size as f64) * max_value_factor) as u32;
            let mut values = vec![0u64; container_size];
            for value in values.iter_mut() {
                *value = rng.gen_range(0..=max_value) as u64;
            }

            let counter = Counter::init(&values);
            let all = counter.most_common_ordered();
            for k in 0..=counter.len() {
                let topk = counter.k_most_common_ordered(k);
                assert_eq!(&topk[..], &all[..k]);
            }
        }
    }
}

#[test]
fn test_total() {
    let counter = Counter::init(&chars(""));
    let total = counter.total();
    assert_eq!(total, 0);

    let counter = Counter::init(&chars("eaddbbccc"));
    let total = counter.total();
    assert_eq!(total, 9);
}

#[test]
fn test_add() {
    let d = Counter::init(&chars("abbccc"));
    let e = Counter::init(&chars("bccddd"));

    let out = d.sum(&e);
    let expected = Counter::init(&chars("abbbcccccddd"));
    assert!(out == expected);
}

#[test]
fn test_sub() {
    let d = Counter::init(&chars("abbccc"));
    let e = Counter::init(&chars("bccddd"));

    let out = d.difference(&e);
    let expected = Counter::init(&chars("abc"));
    assert!(out == expected);
}

#[test]
fn test_intersection() {
    let d = Counter::init(&chars("abbccc"));
    let e = Counter::init(&chars("bccddd"));

    let out = d.intersection(&e);
    let expected = Counter::init(&chars("bcc"));
    assert!(out == expected);
}

#[test]
fn test_union() {
    let d = Counter::init(&chars("abbccc"));
    let e = Counter::init(&chars("bccddd"));

    let out = d.union(&e);
    let expected = Counter::init(&chars("abbcccddd"));
    assert!(out == expected);
}

#[test]
fn test_delete_key_from_backing_map() {
    let mut counter = Counter::init(&chars("aa-bb-cc"));
    counter.remove('-' as u64);
    assert!(counter == Counter::init(&chars("aabbcc")));
}

#[test]
fn test_superset_non_usize_count() {
    let mut a = Counter::init(&chars("abbcccc"));
    let mut b = Counter::init(&chars("abb"));
    assert!(a.is_superset(&b));
    // Negative values are possible, a is no longer a superset
    a.insert('e' as u64, -1);
    assert!(!a.is_superset(&b));
    // Adjust b to make a a superset again
    b.insert('e' as u64, -2);
    assert!(a.is_superset(&b));
}

#[test]
fn test_subset_non_usize_count() {
    let mut a = Counter::init(&chars("abb"));
    let mut b = Counter::init(&chars("abbcccc"));
    assert!(a.is_subset(&b));
    // Negative values are possible; a is no longer a subset
    b.insert('e' as u64, -1);
    assert!(!a.is_subset(&b));
    // Adjust a to make it a subset again
    a.insert('e' as u64, -2);
    assert!(a.is_subset(&b));
}
