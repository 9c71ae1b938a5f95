use union_find::percolation::Percolation;

fn all_sites(size: i64) -> Vec<(i64, i64)> {
    let mut sites: Vec<(i64, i64)> = Vec::new();
    for x in 0..size {
        for y in 0..size {
            sites.push((x, y));
        }
    }
    sites.push((size, 0));
    sites.push((size, 1));
    sites
}

fn two_ends_of_each_column() -> Percolation {
    let mut percolation = Percolation::new(5);
    for x in 0..5 {
        percolation.union((x, 0), (x, 1));
        percolation.union((x, 3), (x, 4));
    }
    percolation
}

#[test]
fn percolation_new() {
    let percolation = Percolation::new(5);
    assert_eq!(percolation.grid()[0][0], (5, 0));
    assert_eq!(percolation.grid()[0][1], (0, 1));
    assert_eq!(percolation.grid()[0][2], (0, 2));
    assert_eq!(percolation.grid()[0][3], (0, 3));
    assert_eq!(percolation.grid()[0][4], (5, 1));
    assert_eq!(percolation.grid()[1][0], (5, 0));
    assert_eq!(percolation.grid()[1][1], (1, 1));
    assert_eq!(percolation.grid()[1][2], (1, 2));
    assert_eq!(percolation.grid()[1][3], (1, 3));
    assert_eq!(percolation.grid()[1][4], (5, 1));
    assert_eq!(percolation.grid()[2][0], (5, 0));
    assert_eq!(percolation.grid()[2][1], (2, 1));
    assert_eq!(percolation.grid()[2][2], (2, 2));
    assert_eq!(percolation.grid()[2][3], (2, 3));
    assert_eq!(percolation.grid()[2][4], (5, 1));
    assert_eq!(percolation.grid()[3][0], (5, 0));
    assert_eq!(percolation.grid()[3][1], (3, 1));
    assert_eq!(percolation.grid()[3][2], (3, 2));
    assert_eq!(percolation.grid()[3][3], (3, 3));
    assert_eq!(percolation.grid()[3][4], (5, 1));
    assert_eq!(percolation.grid()[4][0], (5, 0));
    assert_eq!(percolation.grid()[4][1], (4, 1));
    assert_eq!(percolation.grid()[4][2], (4, 2));
    assert_eq!(percolation.grid()[4][3], (4, 3));
    assert_eq!(percolation.grid()[4][4], (5, 1));
}

#[test]
fn percolates_column_1() {
    let mut percolation = Percolation::new(5);
    percolation.union((0, 0), (0, 1));
    percolation.union((0, 1), (0, 2));
    percolation.union((0, 2), (0, 3));
    percolation.union((0, 3), (0, 4));
    assert_eq!(percolation.percolates(), true);
}

#[test]
fn percolates_column_2() {
    let mut percolation = Percolation::new(5);
    percolation.union((1, 0), (1, 1));
    percolation.union((1, 1), (1, 2));
    percolation.union((1, 2), (1, 3));
    percolation.union((1, 3), (1, 4));
    assert_eq!(percolation.percolates(), true);
}

#[test]
fn percolates_column_3() {
    let mut percolation = Percolation::new(5);
    percolation.union((2, 0), (2, 1));
    percolation.union((2, 1), (2, 2));
    percolation.union((2, 2), (2, 3));
    percolation.union((2, 3), (2, 4));
    assert_eq!(percolation.percolates(), true);
}

#[test]
fn percolates_column_4() {
    let mut percolation = Percolation::new(5);
    percolation.union((3, 0), (3, 1));
    percolation.union((3, 1), (3, 2));
    percolation.union((3, 2), (3, 3));
    percolation.union((3, 3), (3, 4));
    assert_eq!(percolation.percolates(), true);
}

#[test]
fn percolates_column_5() {
    let mut percolation = Percolation::new(5);
    percolation.union((4, 0), (4, 1));
    percolation.union((4, 1), (4, 2));
    percolation.union((4, 2), (4, 3));
    percolation.union((4, 3), (4, 4));
    assert_eq!(percolation.percolates(), true);
}

#[test]
fn percolates_2() {
    let mut percolation = Percolation::new(5);
    percolation.union((0, 0), (0, 1));
    percolation.union((0, 1), (1, 1));
    percolation.union((1, 1), (1, 2));
    percolation.union((1, 2), (1, 3));
    percolation.union((1, 3), (1, 4));
    assert_eq!(percolation.percolates(), true);
}

#[test]
fn percolates_3() {
    let mut percolation = Percolation::new(5);
    percolation.union((0, 0), (0, 1));
    percolation.union((0, 1), (1, 1));
    percolation.union((1, 1), (2, 1));
    percolation.union((2, 1), (2, 2));
    percolation.union((2, 2), (2, 3));
    percolation.union((2, 3), (2, 4));
    assert_eq!(percolation.percolates(), true);
}

#[test]
fn percolates_4() {
    let mut percolation = Percolation::new(5);
    percolation.union((0, 0), (0, 1));
    percolation.union((0, 1), (1, 1));
    percolation.union((1, 1), (2, 1));
    percolation.union((2, 1), (3, 1));
    percolation.union((3, 1), (3, 2));
    percolation.union((3, 2), (3, 3));
    percolation.union((3, 3), (3, 4));
    assert_eq!(percolation.percolates(), true);
}

#[test]
fn percolates_5() {
    let mut percolation = Percolation::new(5);
    percolation.union((0, 0), (0, 1));
    percolation.union((0, 1), (1, 1));
    percolation.union((1, 1), (2, 1));
    percolation.union((2, 1), (3, 1));
    percolation.union((3, 1), (4, 1));
    percolation.union((4, 1), (4, 2));
    percolation.union((4, 2), (4, 3));
    percolation.union((4, 3), (4, 4));
    assert_eq!(percolation.percolates(), true);
}

#[test]
fn does_not_percolate() {
    let mut percolation = Percolation::new(5);
    percolation.union((0, 0), (0, 1));
    percolation.union((0, 3), (0, 4));

    percolation.union((1, 0), (1, 1));
    percolation.union((1, 3), (1, 4));

    percolation.union((2, 0), (2, 1));
    percolation.union((2, 3), (2, 4));

    percolation.union((3, 0), (3, 1));
    percolation.union((3, 3), (3, 4));

    percolation.union((4, 0), (4, 1));
    percolation.union((4, 3), (4, 4));

    assert_eq!(percolation.percolates(), false);
}

#[test]
fn percolation_fresh_grid_does_not_percolate() {
    let mut percolation = Percolation::new(5);
    assert_eq!(percolation.percolates(), false);
}

#[test]
fn percolation_fresh_layout() {
    let percolation = Percolation::new(5);
    assert_eq!(percolation.grid().len(), 6);
    assert_eq!(percolation.sizes().len(), 6);
    for x in 0..5 {
        assert_eq!(percolation.grid()[x].len(), 5);
        assert_eq!(percolation.sizes()[x], vec![0, 0, 0, 0, 0]);
    }
    assert_eq!(percolation.grid()[5], vec![(5, 0), (5, 1)]);
    assert_eq!(percolation.sizes()[5], vec![5, 5]);
}

#[test]
fn percolation_rows_are_tied_to_the_virtual_sites() {
    for size in 1..7 {
        let mut percolation = Percolation::new(size);
        for x in 0..size {
            assert!(percolation.connected((x, 0), (size, 0)));
            assert!(percolation.connected((x, size - 1), (size, 1)));
        }
    }
}

#[test]
fn percolation_without_sites() {
    let mut empty = Percolation::new(0);
    assert_eq!(*empty.grid(), vec![vec![(0, 0), (0, 1)]]);
    assert_eq!(*empty.sizes(), vec![vec![0, 0]]);
    assert_eq!(empty.percolates(), false);
    let mut negative = Percolation::new(-4);
    assert_eq!(*negative.grid(), vec![vec![(0, 0), (0, 1)]]);
    assert_eq!(*negative.sizes(), vec![vec![0, 0]]);
    assert_eq!(negative.percolates(), false);
}

#[test]
fn percolation_of_one_site() {
    let mut percolation = Percolation::new(1);
    assert_eq!(*percolation.grid(), vec![vec![(1, 0)], vec![(1, 0), (1, 0)]]);
    assert_eq!(*percolation.sizes(), vec![vec![0], vec![2, 0]]);
    assert_eq!(percolation.percolates(), true);
}

#[test]
fn percolation_of_two_columns() {
    let mut percolation = Percolation::new(2);
    assert_eq!(
        *percolation.grid(),
        vec![vec![(2, 0), (2, 1)], vec![(2, 0), (2, 1)], vec![(2, 0), (2, 1)]]
    );
    assert_eq!(*percolation.sizes(), vec![vec![0, 0], vec![0, 0], vec![2, 2]]);
    assert_eq!(percolation.percolates(), false);
    percolation.union((1, 0), (1, 1));
    assert_eq!(percolation.percolates(), true);
}

#[test]
fn percolation_equal_counters_link_start_to_end() {
    let mut percolation = Percolation::new(5);
    percolation.union((1, 1), (2, 2));
    assert_eq!(percolation.grid()[1][1], (2, 2));
    assert_eq!(percolation.grid()[2][2], (2, 2));
    assert_eq!(percolation.sizes()[2][2], 1);
    assert_eq!(percolation.sizes()[1][1], 0);
}

#[test]
fn percolation_greater_counter_at_start_absorbs() {
    let mut percolation = Percolation::new(5);
    percolation.union((1, 1), (2, 2));
    percolation.union((2, 2), (3, 3));
    assert_eq!(percolation.grid()[3][3], (2, 2));
    assert_eq!(percolation.grid()[2][2], (2, 2));
    assert_eq!(percolation.sizes()[2][2], 2);
    assert_eq!(percolation.sizes()[3][3], 0);
}

#[test]
fn percolation_greater_counter_at_end_absorbs() {
    let mut percolation = Percolation::new(5);
    percolation.union((1, 1), (2, 2));
    percolation.union((3, 3), (1, 1));
    assert_eq!(percolation.grid()[3][3], (2, 2));
    assert_eq!(percolation.grid()[2][2], (2, 2));
    assert_eq!(percolation.sizes()[2][2], 2);
    assert_eq!(percolation.sizes()[3][3], 0);
}

#[test]
fn percolation_union_within_one_set_counts_the_root_up() {
    let mut percolation = Percolation::new(5);
    percolation.union((1, 1), (2, 2));
    percolation.union((2, 2), (1, 1));
    assert_eq!(percolation.grid()[1][1], (2, 2));
    assert_eq!(percolation.grid()[2][2], (2, 2));
    assert_eq!(percolation.sizes()[2][2], 2);
}

#[test]
fn percolation_lookup_links_to_the_site_two_up() {
    let mut percolation = Percolation::new(5);
    percolation.union((2, 2), (1, 1));
    percolation.union((4, 2), (3, 3));
    percolation.union((3, 3), (1, 1));
    percolation.union((2, 1), (0, 2));
    percolation.union((4, 3), (0, 2));
    percolation.union((1, 1), (0, 2));
    assert_eq!(percolation.grid()[4][2], (3, 3));
    assert_eq!(percolation.grid()[3][3], (1, 1));
    assert_eq!(percolation.grid()[1][1], (0, 2));
    assert_eq!(percolation.get_root((4, 2)), (0, 2));
    assert_eq!(percolation.grid()[4][2], (3, 3));
    assert_eq!(percolation.grid()[3][3], (0, 2));
    assert_eq!(percolation.grid()[1][1], (0, 2));
}

#[test]
fn percolation_lookup_keeps_links_along_a_shared_coordinate() {
    let mut percolation = Percolation::new(5);
    percolation.union((2, 2), (1, 2));
    percolation.union((3, 1), (1, 1));
    percolation.union((1, 2), (1, 1));
    percolation.union((3, 3), (1, 3));
    percolation.union((4, 3), (1, 3));
    percolation.union((1, 1), (1, 3));
    assert_eq!(percolation.grid()[2][2], (1, 2));
    assert_eq!(percolation.grid()[1][2], (1, 1));
    assert_eq!(percolation.grid()[1][1], (1, 3));
    assert_eq!(percolation.get_root((2, 2)), (1, 3));
    assert_eq!(percolation.grid()[2][2], (1, 2));
    assert_eq!(percolation.grid()[1][2], (1, 1));
    assert_eq!(percolation.grid()[1][1], (1, 3));
}

#[test]
fn percolation_lookup_ends_at_the_root() {
    let mut percolation = Percolation::new(5);
    percolation.union((0, 0), (0, 1));
    percolation.union((0, 1), (0, 2));
    percolation.union((0, 2), (0, 3));
    percolation.union((0, 3), (0, 4));
    assert_eq!(percolation.grid()[5][1], (5, 0));
    assert_eq!(percolation.get_root((0, 4)), (5, 0));
    assert_eq!(percolation.get_root((5, 1)), (5, 0));
    assert!(percolation.connected((0, 3), (0, 4)));
    assert!(percolation.connected((4, 4), (0, 0)));
}

#[test]
fn percolation_fresh_sites_between_the_rows_are_alone() {
    let mut percolation = Percolation::new(4);
    for x in 0..4 {
        for y in 1..3 {
            assert_eq!(percolation.get_root((x, y)), (x, y));
            for a in all_sites(4) {
                assert_eq!(percolation.connected((x, y), a), a == (x, y));
            }
        }
    }
}

#[test]
fn percolation_union_connects() {
    for a in all_sites(3) {
        for b in all_sites(3) {
            let mut percolation = Percolation::new(3);
            percolation.union((0, 1), (1, 1));
            percolation.union(a, b);
            assert!(percolation.connected(a, b));
            assert!(percolation.connected(b, a));
        }
    }
}

#[test]
fn percolation_union_joins_two_sets_only() {
    let mut before = two_ends_of_each_column();
    let mut after = two_ends_of_each_column();
    after.union((2, 2), (3, 3));
    for x in all_sites(5) {
        for y in all_sites(5) {
            let expected = before.connected(x, y)
                || (before.connected(x, (2, 2)) && before.connected(y, (3, 3)))
                || (before.connected(x, (3, 3)) && before.connected(y, (2, 2)));
            assert_eq!(after.connected(x, y), expected);
        }
    }
}

#[test]
fn percolation_second_union_changes_no_set() {
    let mut once = two_ends_of_each_column();
    once.union((1, 1), (1, 3));
    let mut twice = two_ends_of_each_column();
    twice.union((1, 1), (1, 3));
    twice.union((1, 1), (1, 3));
    assert!(twice.connected((1, 1), (1, 3)));
    assert_eq!(twice.percolates(), true);
    for x in all_sites(5) {
        for y in all_sites(5) {
            assert_eq!(twice.connected(x, y), once.connected(x, y));
        }
    }
}

#[test]
fn percolation_connected_is_symmetric_and_transitive() {
    let mut percolation = two_ends_of_each_column();
    percolation.union((2, 2), (2, 3));
    let sites = all_sites(5);
    for a in sites.iter() {
        for b in sites.iter() {
            assert_eq!(percolation.connected(*a, *b), percolation.connected(*b, *a));
            for c in sites.iter() {
                if percolation.connected(*a, *b) && percolation.connected(*b, *c) {
                    assert!(percolation.connected(*a, *c));
                }
            }
        }
    }
}
