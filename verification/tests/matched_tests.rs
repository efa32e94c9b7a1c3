use fuzzy_item::matched::{compare_ranks, MatchedItem, MatchedRange, Rank};
use std::cmp::Ordering;

fn ranked(index: usize, rank: Rank) -> MatchedItem {
    let mut item = MatchedItem::new(index);
    item.set_rank(rank);
    item
}

#[test]
fn fresh_result_has_zero_rank_and_no_range() {
    let item = MatchedItem::new(7);
    assert_eq!(item.index, 7);
    assert_eq!(item.rank, [0, 0, 0, 0]);
    assert!(item.matched_range.is_none());
}

#[test]
fn set_rank_replaces_the_rank_and_nothing_else() {
    let mut item = MatchedItem::new(3);
    item.set_matched_range(MatchedRange::Range(1, 2));
    item.set_rank([5, -1, 2, 8]);
    assert_eq!(item.rank, [5, -1, 2, 8]);
    item.set_rank([1, 0, 0, 0]);
    assert_eq!(item.rank, [1, 0, 0, 0]);
    assert_eq!(item.index, 3);
    assert!(item.matched_range == Some(MatchedRange::Range(1, 2)));
}

#[test]
fn set_matched_range_replaces_the_range_and_nothing_else() {
    let mut item = ranked(4, [9, 8, 7, 6]);
    item.set_matched_range(MatchedRange::Range(2, 5));
    assert!(item.matched_range == Some(MatchedRange::Range(2, 5)));
    item.set_matched_range(MatchedRange::Chars(vec![4, 1, 3]));
    assert!(item.matched_range == Some(MatchedRange::Chars(vec![4, 1, 3])));
    assert_eq!(item.index, 4);
    assert_eq!(item.rank, [9, 8, 7, 6]);
}

#[test]
fn equal_ranks_are_equal_whatever_the_index() {
    let a = ranked(1, [5, 0, 0, 0]);
    let b = ranked(2, [5, 0, 0, 0]);
    assert!(a == b);
    assert!(!(a != b));
    assert_eq!(a.cmp(&b), Ordering::Equal);
    assert_eq!(a.partial_cmp(&b), Some(Ordering::Equal));
    assert!(!(a < b) && !(a > b) && a <= b && a >= b);
}

#[test]
fn equal_ranks_are_equal_whatever_the_range() {
    let mut a = ranked(1, [5, 1, 2, 3]);
    let mut b = ranked(1, [5, 1, 2, 3]);
    a.set_matched_range(MatchedRange::Range(0, 3));
    b.set_matched_range(MatchedRange::Chars(vec![0, 2]));
    assert!(a == b);
    assert_eq!(a.cmp(&b), Ordering::Equal);
    let c = ranked(1, [5, 1, 2, 3]);
    assert!(a == c && c == b);
}

#[test]
fn different_ranks_are_not_equal() {
    let a = ranked(1, [5, 0, 0, 0]);
    for rank in [[6, 0, 0, 0], [5, 1, 0, 0], [5, 0, -1, 0], [5, 0, 0, 1]] {
        let b = ranked(1, rank);
        assert!(a != b);
        assert!(!(a == b));
        assert_ne!(a.cmp(&b), Ordering::Equal);
    }
}

#[test]
fn order_is_lexicographic() {
    assert!(ranked(0, [3, 9, 9, 9]) < ranked(0, [4, 0, 0, 0]));
    assert!(ranked(0, [4, 1, 0, 0]) < ranked(0, [4, 2, 0, 0]));
    assert!(ranked(0, [4, 1, 9, 0]) > ranked(0, [4, 1, 8, 7]));
    assert!(ranked(0, [4, 1, 8, 6]) < ranked(0, [4, 1, 8, 7]));
    assert_eq!(ranked(0, [3, 9, 9, 9]).cmp(&ranked(5, [4, 0, 0, 0])), Ordering::Less);
    assert_eq!(ranked(0, [4, 0, 0, 0]).cmp(&ranked(5, [3, 9, 9, 9])), Ordering::Greater);
    assert_eq!(
        ranked(0, [4, 1, 0, 0]).partial_cmp(&ranked(5, [4, 2, 0, 0])),
        Some(Ordering::Less)
    );
}

#[test]
fn order_handles_negative_and_extreme_components() {
    assert!(ranked(0, [-1, 0, 0, 0]) < ranked(0, [0, 0, 0, 0]));
    assert!(ranked(0, [i64::MIN, i64::MAX, 0, 0]) < ranked(0, [i64::MAX, i64::MIN, 0, 0]));
    assert!(ranked(0, [0, 0, 0, i64::MIN]) < ranked(0, [0, 0, 0, i64::MAX]));
    assert_eq!(
        compare_ranks(&[i64::MIN, 0, 0, 0], &[i64::MIN, 0, 0, 0]),
        Ordering::Equal
    );
}

#[test]
fn compare_ranks_agrees_with_the_order_of_arrays() {
    let ranks: [Rank; 6] = [
        [0, 0, 0, 0],
        [0, 0, 0, 1],
        [0, 1, 0, 0],
        [1, -5, 3, 2],
        [1, -5, 3, 2],
        [-7, 100, 100, 100],
    ];
    for a in ranks.iter() {
        for b in ranks.iter() {
            assert_eq!(compare_ranks(a, b), a.cmp(b));
            assert_eq!(ranked(1, *a).cmp(&ranked(2, *b)), a.cmp(b));
            assert_eq!(ranked(1, *a) == ranked(2, *b), a == b);
        }
    }
}

#[test]
fn comparing_the_other_way_round_gives_the_opposite() {
    let a = ranked(0, [2, 3, 4, 5]);
    let b = ranked(0, [2, 3, 5, 0]);
    assert_eq!(a.cmp(&b), Ordering::Less);
    assert_eq!(b.cmp(&a), Ordering::Greater);
    assert_eq!(a.cmp(&a), Ordering::Equal);
}

#[test]
fn order_is_transitive() {
    let a = ranked(0, [1, 9, 9, 9]);
    let b = ranked(0, [2, 0, 0, 0]);
    let c = ranked(0, [2, 0, 0, 1]);
    assert!(a < b && b < c && a < c);
}

#[test]
fn sorting_twice_gives_the_same_ranks() {
    let mut items = vec![
        ranked(0, [4, 2, 0, 0]),
        ranked(1, [3, 9, 9, 9]),
        ranked(2, [4, 1, 0, 0]),
        ranked(3, [3, 9, 9, 9]),
        ranked(4, [4, 0, 0, 0]),
        ranked(5, [3, 9, 9, 9]),
    ];
    items.sort_by(|a, b| a.cmp(b));
    let first: Vec<Rank> = items.iter().map(|item| item.rank).collect();
    assert_eq!(
        first,
        vec![[3, 9, 9, 9], [3, 9, 9, 9], [3, 9, 9, 9], [4, 0, 0, 0], [4, 1, 0, 0], [4, 2, 0, 0]]
    );
    let stable: Vec<usize> = items.iter().map(|item| item.index).collect();
    assert_eq!(stable, vec![1, 3, 5, 4, 2, 0]);

    items.reverse();
    items.sort_unstable_by(|a, b| a.partial_cmp(b).unwrap());
    let second: Vec<Rank> = items.iter().map(|item| item.rank).collect();
    assert_eq!(second, first);
    for pair in items.windows(2) {
        assert!(pair[0] <= pair[1]);
    }
}

#[test]
fn clone_keeps_every_field() {
    let mut item = ranked(11, [1, 2, 3, 4]);
    item.set_matched_range(MatchedRange::Chars(vec![7, 5]));
    let copy = item.clone();
    assert_eq!(copy.index, 11);
    assert_eq!(copy.rank, [1, 2, 3, 4]);
    assert!(copy.matched_range == Some(MatchedRange::Chars(vec![7, 5])));
}

#[test]
fn matched_ranges_compare_by_what_they_hold() {
    assert!(MatchedRange::Range(1, 2) == MatchedRange::Range(1, 2));
    assert!(MatchedRange::Range(1, 2) != MatchedRange::Range(1, 3));
    assert!(MatchedRange::Chars(vec![1, 2]) == MatchedRange::Chars(vec![1, 2]));
    assert!(MatchedRange::Chars(vec![1, 2]) != MatchedRange::Chars(vec![2, 1]));
    assert!(MatchedRange::Range(1, 2) != MatchedRange::Chars(vec![1, 2]));
}
