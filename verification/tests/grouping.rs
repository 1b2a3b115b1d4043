use group_by_key::GroupByKey;

#[derive(Debug, PartialEq)]
struct Foo(u8);

/// Drains the grouper into a vector of (key, run) pairs.
fn drain<'a, T, K: PartialEq, M: Fn(&T) -> K>(
    mut g: GroupByKey<'a, T, M>,
) -> Vec<(K, &'a [T])> {
    let mut out = Vec::new();
    while let Some(pair) = g.next() {
        out.push(pair);
    }
    out
}

#[test]
fn test() {
    let slice = [Foo(1), Foo(1), Foo(2), Foo(2), Foo(2), Foo(1), Foo(3)];
    let res: Vec<_> = drain(GroupByKey::new(&slice, |x| x.0));
    assert_eq!(
        res,
        &[
            (1, &[Foo(1), Foo(1)][..]),
            (2, &[Foo(2), Foo(2), Foo(2)][..]),
            (1, &[Foo(1)][..]),
            (3, &[Foo(3)][..])
        ]
    );

    let slice: [Foo; 0] = [];
    assert!(GroupByKey::new(&slice, |x| x.0).next().is_none());
}

#[test]
fn completeness_concatenation_rebuilds_input() {
    let slice = [3u32, 3, 7, 7, 7, 1, 1, 3, 9];
    let res = drain(GroupByKey::new(&slice, |x| *x));
    let mut rebuilt: Vec<u32> = Vec::new();
    for (_, sub) in &res {
        rebuilt.extend_from_slice(sub);
    }
    assert_eq!(rebuilt, slice.to_vec());
}

#[test]
fn run_purity_every_element_matches_key() {
    let slice = [10i64, 11, 12, 20, 21, 35, 5];
    let res = drain(GroupByKey::new(&slice, |x| *x / 10));
    assert!(!res.is_empty());
    for (k, sub) in &res {
        assert!(!sub.is_empty());
        for e in *sub {
            assert_eq!(*e / 10, *k);
        }
    }
}

#[test]
fn maximality_consecutive_keys_differ() {
    let slice = [1u8, 1, 2, 2, 2, 1, 1, 1, 3, 3];
    let res = drain(GroupByKey::new(&slice, |x| *x));
    for w in res.windows(2) {
        assert_ne!(w[0].0, w[1].0);
    }
    assert_eq!(res.len(), 4);
}

#[test]
fn empty_input_signals_end_immediately() {
    let slice: [u8; 0] = [];
    let mut g = GroupByKey::new(&slice, |x| *x);
    assert!(g.next().is_none());
}

#[test]
fn single_run_covers_whole_input() {
    let slice = [4u16, 14, 24, 34];
    let res = drain(GroupByKey::new(&slice, |x| *x % 10));
    assert_eq!(res, vec![(4u16, &slice[..])]);
}

#[test]
fn all_distinct_one_pair_per_element() {
    let slice = [5i32, 6, 7, 8];
    let res = drain(GroupByKey::new(&slice, |x| *x));
    assert_eq!(res.len(), slice.len());
    for (i, (k, sub)) in res.iter().enumerate() {
        assert_eq!(*k, slice[i]);
        assert_eq!(*sub, &slice[i..i + 1]);
    }
}

#[test]
fn exhaustion_is_permanent() {
    let slice = [9u8, 9];
    let mut g = GroupByKey::new(&slice, |x| *x);
    assert!(g.next().is_some());
    assert!(g.next().is_none());
    assert!(g.next().is_none());
    assert!(g.next().is_none());
}

#[test]
fn derived_key_groups_unequal_elements() {
    let words = ["to", "of", "tea", "sea", "bee", "a", "i", "go"];
    let res = drain(GroupByKey::new(&words, |w| w.len()));
    assert_eq!(
        res,
        vec![
            (2, &words[0..2]),
            (3, &words[2..5]),
            (1, &words[5..7]),
            (2, &words[7..8]),
        ]
    );
}
