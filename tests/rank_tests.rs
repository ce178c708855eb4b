use librank::{Rank, RankedExt};

#[derive(Debug, PartialEq)]
struct Item {
    id: usize,
    value: i32,
}

#[test]
fn test_rank_by_unique_keys() {
    let data = vec![3, 7, 4, 1, 5, 9, 2, 6];
    let ranked: Vec<(Rank, i32)> = data.rank_by(|&x| x).collect();
    let expected = vec![
        (Rank(1), 1),
        (Rank(2), 2),
        (Rank(3), 3),
        (Rank(4), 4),
        (Rank(5), 5),
        (Rank(6), 6),
        (Rank(7), 7),
        (Rank(8), 9),
    ];
    assert_eq!(ranked, expected);
}

#[test]
fn test_rank_by_duplicate_keys() {
    let data = vec![10, 20, 10, 30, 20, 10];
    let ranked: Vec<(Rank, i32)> = data.rank_by(|&x| x).collect();
    let expected = vec![
        (Rank(1), 10),
        (Rank(1), 10),
        (Rank(1), 10),
        (Rank(2), 20),
        (Rank(2), 20),
        (Rank(3), 30),
    ];
    assert_eq!(ranked, expected);
}

#[test]
fn test_rank_by_empty_iterator() {
    let data: Vec<i32> = Vec::new();
    let ranked: Vec<(Rank, i32)> = data.rank_by(|&x| x).collect();
    assert!(ranked.is_empty());
}

#[test]
fn test_rank_by_pre_sorted_data() {
    let data = vec![1, 2, 3, 4, 5];
    let ranked: Vec<(Rank, i32)> = data.rank_by(|&x| x).collect();
    let expected = vec![
        (Rank(1), 1),
        (Rank(2), 2),
        (Rank(3), 3),
        (Rank(4), 4),
        (Rank(5), 5),
    ];
    assert_eq!(ranked, expected);
}

#[test]
fn test_rank_by_reverse_sorted_data() {
    let data = vec![5, 4, 3, 2, 1];
    let ranked: Vec<(Rank, i32)> = data.rank_by(|&x| x).collect();
    let expected = vec![
        (Rank(1), 1),
        (Rank(2), 2),
        (Rank(3), 3),
        (Rank(4), 4),
        (Rank(5), 5),
    ];
    assert_eq!(ranked, expected);
}

#[test]
fn test_rank_by_complex_key() {
    let data = vec![
        Item { id: 1, value: 30 },
        Item { id: 2, value: 10 },
        Item { id: 3, value: 20 },
        Item { id: 4, value: 10 },
        Item { id: 5, value: 30 },
    ];

    let ranked: Vec<(Rank, Item)> = data.rank_by(|item| item.value).collect();
    let expected = vec![
        (Rank(1), Item { id: 2, value: 10 }),
        (Rank(1), Item { id: 4, value: 10 }),
        (Rank(2), Item { id: 3, value: 20 }),
        (Rank(3), Item { id: 1, value: 30 }),
        (Rank(3), Item { id: 5, value: 30 }),
    ];
    assert_eq!(ranked, expected);
}

#[test]
fn single_item_gets_rank_one() {
    let ranked: Vec<(Rank, i32)> = vec![42].rank_by(|&x| x).collect();
    assert_eq!(ranked, vec![(Rank(1), 42)]);
}

#[test]
fn constant_key_gives_rank_one_to_all() {
    let data = vec![Item { id: 1, value: 5 }, Item { id: 2, value: 9 }, Item { id: 3, value: 1 }];
    let ranked: Vec<(Rank, Item)> = data.rank_by(|_| 0u8).collect();
    let expected = vec![
        (Rank(1), Item { id: 1, value: 5 }),
        (Rank(1), Item { id: 2, value: 9 }),
        (Rank(1), Item { id: 3, value: 1 }),
    ];
    assert_eq!(ranked, expected);
}

#[test]
fn next_hands_out_items_one_at_a_time() {
    let mut it = vec![7, 3, 7].rank_by(|&x| x);
    assert_eq!(it.next(), Some((Rank(1), 3)));
    assert_eq!(it.next(), Some((Rank(2), 7)));
    assert_eq!(it.next(), Some((Rank(2), 7)));
    assert_eq!(it.next(), None);
    assert_eq!(it.next(), None);
}

#[test]
fn ranks_are_dense_and_non_decreasing() {
    let data = vec![100, -4, 100, 0, 55, -4, 100, 7];
    let ranked: Vec<(Rank, i64)> = data.rank_by(|&x| x).collect();
    assert_eq!(ranked.len(), 8);
    let ranks: Vec<usize> = ranked.iter().map(|p| p.0 .0).collect();
    assert_eq!(ranks, vec![1, 1, 2, 3, 4, 5, 5, 5]);
    let items: Vec<i64> = ranked.iter().map(|p| p.1).collect();
    assert_eq!(items, vec![-4, -4, 0, 7, 55, 100, 100, 100]);
}

#[test]
fn descending_key_orders_from_largest() {
    let data = vec![2, 9, 4, 9];
    let ranked: Vec<(Rank, i32)> = data.rank_by(|&x| -x).collect();
    let expected = vec![(Rank(1), 9), (Rank(1), 9), (Rank(2), 4), (Rank(3), 2)];
    assert_eq!(ranked, expected);
}

#[test]
fn stability_keeps_input_order_for_equal_keys() {
    let data = vec![(1, 'a'), (0, 'b'), (1, 'c'), (0, 'd'), (1, 'e')];
    let ranked: Vec<(Rank, (i32, char))> = data.rank_by(|p| p.0).collect();
    let expected = vec![
        (Rank(1), (0, 'b')),
        (Rank(1), (0, 'd')),
        (Rank(2), (1, 'a')),
        (Rank(2), (1, 'c')),
        (Rank(2), (1, 'e')),
    ];
    assert_eq!(ranked, expected);
}

#[test]
fn rank_compares_by_value() {
    assert!(Rank(1) < Rank(2));
    assert_eq!(Rank(3), Rank(3));
    let r = Rank(4);
    let s = r;
    assert_eq!(r, s);
}
