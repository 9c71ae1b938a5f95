use union_find::weighted_quick_union_path_compression::WeightedQuickUnionPathCompression;

fn five_weighted_unions() -> WeightedQuickUnionPathCompression {
    let mut answer = WeightedQuickUnionPathCompression::new(10);
    answer.union(1 as i64, 2 as i64);
    answer.union(3 as i64, 4 as i64);
    answer.union(8 as i64, 3 as i64);
    answer.union(4 as i64, 9 as i64);
    answer.union(5 as i64, 6 as i64);
    answer
}

#[test]
fn weighted_quick_union_path_compression_new() {
    let answer = WeightedQuickUnionPathCompression::new(10);
    assert_eq!(answer.internal().len(), 10)
}

#[test]
fn weighted_quick_union_path_compression_new_contents() {
    let answer = WeightedQuickUnionPathCompression::new(10);
    let expected: Vec<i64> = (0..10).collect();
    assert_eq!(*answer.internal(), expected)
}

#[test]
fn weighted_quick_union_path_compression_union_1_2() {
    let mut answer = WeightedQuickUnionPathCompression::new(10);
    answer.union(1 as i64, 2 as i64);
    assert_eq!(*answer.internal(), vec![0, 2, 2, 3, 4, 5, 6, 7, 8, 9])
}

#[test]
fn weighted_quick_union_path_compression_union_1_2_3_4() {
    let mut answer = WeightedQuickUnionPathCompression::new(10);
    answer.union(1 as i64, 2 as i64);
    answer.union(3 as i64, 4 as i64);
    assert_eq!(*answer.internal(), vec![0, 2, 2, 4, 4, 5, 6, 7, 8, 9])
}

#[test]
fn weighted_quick_union_path_compression_union_1_2_3_4_8_3() {
    let mut answer = WeightedQuickUnionPathCompression::new(10);
    answer.union(1 as i64, 2 as i64);
    answer.union(3 as i64, 4 as i64);
    answer.union(8 as i64, 3 as i64);
    assert_eq!(*answer.internal(), vec![0, 2, 2, 4, 8, 5, 6, 7, 8, 9])
}

#[test]
fn weighted_quick_union_path_compression_union_1_2_3_4_8_3_4_9() {
    let mut answer = WeightedQuickUnionPathCompression::new(10);
    answer.union(1 as i64, 2 as i64);
    answer.union(3 as i64, 4 as i64);
    answer.union(8 as i64, 3 as i64);
    answer.union(4 as i64, 9 as i64);
    assert_eq!(*answer.internal(), vec![0, 2, 2, 4, 8, 5, 6, 7, 9, 9])
}

#[test]
fn weighted_quick_union_path_compression_union_1_2_3_4_8_3_4_9_5_6() {
    let mut answer = WeightedQuickUnionPathCompression::new(10);
    answer.union(1 as i64, 2 as i64);
    answer.union(3 as i64, 4 as i64);
    answer.union(8 as i64, 3 as i64);
    answer.union(4 as i64, 9 as i64);
    answer.union(5 as i64, 6 as i64);
    assert_eq!(*answer.internal(), vec![0, 2, 2, 4, 8, 6, 6, 7, 9, 9])
}

#[test]
fn weighted_quick_union_path_compression_connected_8_9() {
    let mut answer = WeightedQuickUnionPathCompression::new(10);
    answer.union(1 as i64, 2 as i64);
    answer.union(3 as i64, 4 as i64);
    answer.union(8 as i64, 3 as i64);
    answer.union(4 as i64, 9 as i64);
    answer.union(5 as i64, 6 as i64);
    assert!(answer.connected(8, 9))
}

#[test]
fn weighted_quick_union_path_compression_connected_5_0() {
    let mut answer = WeightedQuickUnionPathCompression::new(10);
    answer.union(1 as i64, 2 as i64);
    answer.union(3 as i64, 4 as i64);
    answer.union(8 as i64, 3 as i64);
    answer.union(4 as i64, 9 as i64);
    answer.union(5 as i64, 6 as i64);
    assert!(!answer.connected(5, 0))
}

#[test]
fn weighted_without_elements() {
    let empty = WeightedQuickUnionPathCompression::new(0);
    assert_eq!(empty.internal().len(), 0);
    assert_eq!(empty.sizes().len(), 0);
    let negative = WeightedQuickUnionPathCompression::new(-7);
    assert_eq!(negative.internal().len(), 0);
    assert_eq!(negative.sizes().len(), 0);
}

#[test]
fn weighted_counters_start_at_own_numbers() {
    let answer = WeightedQuickUnionPathCompression::new(10);
    let expected: Vec<i64> = (0..10).collect();
    assert_eq!(*answer.sizes(), expected)
}

#[test]
fn weighted_linked_root_is_counted_up() {
    let answer = five_weighted_unions();
    assert_eq!(*answer.sizes(), vec![0, 2, 2, 4, 5, 6, 6, 7, 9, 9]);
}

#[test]
fn weighted_greater_counter_absorbs() {
    let mut answer = WeightedQuickUnionPathCompression::new(2);
    answer.union(1, 0);
    assert_eq!(*answer.internal(), vec![1, 1]);
    assert_eq!(*answer.sizes(), vec![1, 1]);
}

#[test]
fn weighted_equal_counters_link_start_to_end() {
    let mut answer = WeightedQuickUnionPathCompression::new(3);
    answer.union(0, 1);
    assert_eq!(*answer.internal(), vec![1, 1, 2]);
    assert_eq!(*answer.sizes(), vec![1, 1, 2]);
    answer.union(0, 1);
    assert_eq!(*answer.internal(), vec![1, 1, 2]);
    assert_eq!(*answer.sizes(), vec![1, 2, 2]);
}

#[test]
fn weighted_lookup_halves_the_walk() {
    let mut answer = WeightedQuickUnionPathCompression::new(10);
    answer.union(1, 2);
    answer.union(3, 4);
    answer.union(8, 3);
    answer.union(4, 9);
    assert_eq!(*answer.internal(), vec![0, 2, 2, 4, 8, 5, 6, 7, 9, 9]);
    assert_eq!(answer.get_root(3), 9);
    assert_eq!(*answer.internal(), vec![0, 2, 2, 4, 9, 5, 6, 7, 9, 9]);
    assert_eq!(*answer.sizes(), vec![0, 2, 2, 4, 5, 5, 6, 7, 9, 9]);
}

#[test]
fn weighted_roots() {
    let mut answer = five_weighted_unions();
    let mut roots: Vec<i64> = Vec::new();
    for item in 0..10 {
        roots.push(answer.get_root(item));
    }
    assert_eq!(roots, vec![0, 2, 2, 9, 9, 6, 6, 7, 9, 9]);
}

#[test]
fn weighted_fresh_elements_are_alone() {
    let mut answer = WeightedQuickUnionPathCompression::new(6);
    for a in 0..6 {
        assert_eq!(answer.get_root(a), a);
        for b in 0..6 {
            assert_eq!(answer.connected(a, b), a == b);
        }
    }
}

#[test]
fn weighted_union_connects() {
    for a in 0..10 {
        for b in 0..10 {
            let mut answer = five_weighted_unions();
            answer.union(a, b);
            assert!(answer.connected(a, b));
            assert!(answer.connected(b, a));
        }
    }
}

#[test]
fn weighted_union_joins_two_sets_only() {
    let mut before = five_weighted_unions();
    let mut after = five_weighted_unions();
    after.union(1, 8);
    for x in 0..10 {
        for y in 0..10 {
            let expected = before.connected(x, y)
                || (before.connected(x, 1) && before.connected(y, 8))
                || (before.connected(x, 8) && before.connected(y, 1));
            assert_eq!(after.connected(x, y), expected);
        }
    }
}

#[test]
fn weighted_second_union_changes_no_set() {
    let mut once = five_weighted_unions();
    once.union(1, 8);
    let mut twice = five_weighted_unions();
    twice.union(1, 8);
    twice.union(1, 8);
    assert!(twice.connected(1, 8));
    for x in 0..10 {
        for y in 0..10 {
            assert_eq!(twice.connected(x, y), once.connected(x, y));
        }
    }
}

#[test]
fn weighted_connected_is_symmetric_and_transitive() {
    let mut answer = five_weighted_unions();
    for a in 0..10 {
        for b in 0..10 {
            assert_eq!(answer.connected(a, b), answer.connected(b, a));
            for c in 0..10 {
                if answer.connected(a, b) && answer.connected(b, c) {
                    assert!(answer.connected(a, c));
                }
            }
        }
    }
}

#[test]
fn weighted_lookups_change_no_set() {
    let mut plain = five_weighted_unions();
    let mut looked_up = five_weighted_unions();
    for item in 0..10 {
        looked_up.get_root(item);
    }
    for x in 0..10 {
        for y in 0..10 {
            assert_eq!(looked_up.connected(x, y), plain.connected(x, y));
        }
    }
}
