use kequality::Kingdom;

fn build(number_of_cities: usize, roads: &[(usize, usize)]) -> Kingdom {
    let mut kingdom = Kingdom::new(number_of_cities);
    for &(left, right) in roads {
        assert!(kingdom.can_link(left, right));
        kingdom.link(left, right);
    }
    kingdom
}

#[test]
fn chain_of_three_meets_in_the_middle() {
    let mut kingdom = build(3, &[(1, 2), (2, 3)]);
    assert_eq!(kingdom.solve(vec![1, 3]), 1);
}

#[test]
fn star_meets_at_the_centre() {
    let mut kingdom = build(3, &[(1, 2), (1, 3)]);
    assert_eq!(kingdom.solve(vec![2, 3]), 1);
}

#[test]
fn three_leaves_around_one_city() {
    let mut kingdom = build(4, &[(1, 2), (2, 3), (2, 4)]);
    assert_eq!(kingdom.solve(vec![1, 3, 4]), 1);
}

#[test]
fn closed_roads_leave_trees_apart() {
    let mut kingdom = build(4, &[]);
    assert_eq!(kingdom.solve(vec![1, 3]), 0);
}

#[test]
fn chain_of_five_meets_at_the_centre() {
    let mut kingdom = build(5, &[(1, 2), (2, 3), (3, 4), (4, 5)]);
    assert_eq!(kingdom.solve(vec![1, 5]), 1);
}

#[test]
fn single_city_gets_its_whole_tree() {
    let mut kingdom = build(6, &[(1, 2), (2, 3), (2, 4), (5, 6)]);
    for city in 1..=4 {
        assert_eq!(kingdom.solve(vec![city]), 4);
    }
    assert_eq!(kingdom.solve(vec![5]), 2);
    assert_eq!(kingdom.solve(vec![6]), 2);
}

#[test]
fn lone_city_is_a_tree_of_one() {
    let mut kingdom = build(3, &[(1, 2)]);
    assert_eq!(kingdom.solve(vec![3]), 1);
}

#[test]
fn odd_depth_sum_gives_zero() {
    let mut kingdom = build(5, &[(1, 2), (2, 3), (2, 4), (4, 5)]);
    assert_eq!(kingdom.solve(vec![3, 5]), 0);
    assert_eq!(kingdom.solve(vec![1, 2]), 0);
    assert_eq!(kingdom.solve(vec![1, 3, 5]), 0);
}

#[test]
fn different_trees_give_zero() {
    let mut kingdom = build(6, &[(1, 2), (2, 3), (4, 5), (4, 6)]);
    assert_eq!(kingdom.solve(vec![3, 5]), 0);
    assert_eq!(kingdom.solve(vec![1, 3, 6]), 0);
}

#[test]
fn region_goes_on_past_the_meeting_point() {
    let mut kingdom = build(5, &[(1, 2), (2, 3), (2, 4), (4, 5)]);
    assert_eq!(kingdom.solve(vec![1, 3]), 3);
    assert_eq!(kingdom.solve(vec![3, 4]), 2);
}

fn three_branches() -> Kingdom {
    build(
        10,
        &[(1, 2), (2, 3), (3, 4), (3, 5), (1, 6), (6, 7), (7, 8), (1, 9), (9, 10)],
    )
}

#[test]
fn distinct_pair_points_merge_into_one() {
    let mut kingdom = three_branches();
    assert_eq!(kingdom.solve(vec![4, 5, 8]), 3);
}

#[test]
fn query_order_does_not_change_the_answer() {
    let mut kingdom = three_branches();
    let orders = [
        vec![4, 5, 8],
        vec![4, 8, 5],
        vec![5, 4, 8],
        vec![5, 8, 4],
        vec![8, 4, 5],
        vec![8, 5, 4],
    ];
    for query in orders {
        assert_eq!(kingdom.solve(query), 3);
    }
    let mut chain = build(5, &[(1, 2), (2, 3), (3, 4), (4, 5)]);
    assert_eq!(chain.solve(vec![1, 5]), chain.solve(vec![5, 1]));
    assert_eq!(chain.solve(vec![1, 3, 5]), 0);
    assert_eq!(chain.solve(vec![5, 3, 1]), 0);
    assert_eq!(chain.solve(vec![3, 1, 5]), 0);
}

#[test]
fn repeated_query_gives_the_same_answer() {
    let mut kingdom = three_branches();
    let first = kingdom.solve(vec![4, 5, 8]);
    let second = kingdom.solve(vec![4, 5, 8]);
    assert_eq!(first, second);
    let first = kingdom.solve(vec![7]);
    let second = kingdom.solve(vec![7]);
    assert_eq!(first, 10);
    assert_eq!(second, 10);
}

#[test]
fn inconsistent_times_give_zero() {
    let mut kingdom = build(5, &[(1, 2), (2, 3), (3, 4), (4, 5)]);
    assert_eq!(kingdom.solve(vec![1, 5, 3]), 0);
    let mut star = build(7, &[(1, 2), (2, 3), (1, 4), (4, 5), (1, 6), (6, 7)]);
    assert_eq!(star.solve(vec![3, 5, 1]), 0);
    assert_eq!(star.solve(vec![3, 5, 7]), 1);
}

#[test]
fn repeated_city_counts_once() {
    let mut kingdom = three_branches();
    assert_eq!(kingdom.solve(vec![4, 4]), 10);
    assert_eq!(kingdom.solve(vec![4, 4, 5]), 8);
}

#[test]
fn link_checks_its_ids() {
    let kingdom = build(5, &[(1, 2)]);
    assert_eq!(kingdom.number_of_cities(), 5);
    assert!(!kingdom.can_link(3, 2));
    assert!(!kingdom.can_link(3, 3));
    assert!(!kingdom.can_link(0, 3));
    assert!(!kingdom.can_link(1, 6));
    assert!(kingdom.can_link(1, 3));
    assert!(kingdom.can_link(2, 3));
}

#[test]
fn empty_kingdom_has_no_city() {
    let kingdom = Kingdom::new(0);
    assert_eq!(kingdom.number_of_cities(), 0);
    assert!(!kingdom.can_link(1, 1));
}

fn distances_from(number_of_cities: usize, roads: &[(usize, usize)], start: usize) -> Vec<Option<usize>> {
    let mut dist = vec![None; number_of_cities + 1];
    dist[start] = Some(0);
    let mut frontier = vec![start];
    while let Some(city) = frontier.pop() {
        let d = dist[city].unwrap();
        for &(l, r) in roads {
            let next = if l == city { r } else if r == city { l } else { continue };
            if dist[next].is_none() {
                dist[next] = Some(d + 1);
                frontier.push(next);
            }
        }
    }
    dist
}

fn equidistant(number_of_cities: usize, roads: &[(usize, usize)], query: &[usize]) -> usize {
    let tables: Vec<Vec<Option<usize>>> =
        query.iter().map(|&c| distances_from(number_of_cities, roads, c)).collect();
    (1..=number_of_cities)
        .filter(|&v| {
            let first = tables[0][v];
            first.is_some() && tables.iter().all(|t| t[v] == first)
        })
        .count()
}

const BRANCHES: [(usize, usize); 9] =
    [(1, 2), (2, 3), (3, 4), (3, 5), (1, 6), (6, 7), (7, 8), (1, 9), (9, 10)];

#[test]
fn pairs_count_cities_at_equal_distance() {
    let mut kingdom = build(10, &BRANCHES);
    for a in 1..=10 {
        for b in 1..=10 {
            assert_eq!(kingdom.solve(vec![a, b]), equidistant(10, &BRANCHES, &[a, b]), "{} {}", a, b);
        }
    }
}

#[test]
fn triples_count_cities_at_equal_distance() {
    let mut kingdom = build(10, &BRANCHES);
    for a in 1..=10 {
        for b in 1..=10 {
            for c in 1..=10 {
                assert_eq!(
                    kingdom.solve(vec![a, b, c]),
                    equidistant(10, &BRANCHES, &[a, b, c]),
                    "{} {} {}",
                    a,
                    b,
                    c
                );
            }
        }
    }
}
