use quorum_will::combos::combination_count;
use quorum_will::combos::draw_combinations;

#[test]
fn count_of_small_draws() {
    assert_eq!(combination_count(4, 2), Some(6));
    assert_eq!(combination_count(3, 3), Some(1));
    assert_eq!(combination_count(2, 1), Some(2));
    assert_eq!(combination_count(5, 0), Some(1));
    assert_eq!(combination_count(0, 0), Some(1));
    assert_eq!(combination_count(3, 4), Some(0));
    assert_eq!(combination_count(0, 1), Some(0));
}

#[test]
fn count_of_larger_draws() {
    assert_eq!(combination_count(19, 9), Some(92378));
    assert_eq!(combination_count(31, 15), Some(300540195));
    assert_eq!(combination_count(254, 1), Some(254));
    assert_eq!(combination_count(254, 253), Some(254));
    assert_eq!(combination_count(254, 254), Some(1));
}

#[test]
fn count_beyond_the_limit_is_none() {
    assert_eq!(combination_count(254, 127), None);
    assert_eq!(combination_count(100, 50), None);
}

#[test]
fn draw_two_of_four_in_order() {
    let drawn = draw_combinations(vec![1, 2, 3, 4], 2).unwrap();
    assert_eq!(drawn, vec![vec![1, 2], vec![1, 3], vec![1, 4], vec![2, 3], vec![2, 4], vec![3, 4]]);
}

#[test]
fn draw_three_of_four_in_order() {
    let drawn = draw_combinations(vec![0, 2, 3, 4], 3).unwrap();
    assert_eq!(drawn, vec![vec![0, 2, 3], vec![0, 2, 4], vec![0, 3, 4], vec![2, 3, 4]]);
}

#[test]
fn draw_none_gives_one_empty_combination() {
    assert_eq!(draw_combinations(vec![5, 6], 0).unwrap(), vec![Vec::<u8>::new()]);
    assert_eq!(draw_combinations(Vec::new(), 0).unwrap(), vec![Vec::<u8>::new()]);
}

#[test]
fn draw_more_than_there_is_gives_nothing() {
    assert_eq!(draw_combinations(vec![5, 6], 3).unwrap(), Vec::<Vec<u8>>::new());
}

#[test]
fn draw_all_gives_the_pool() {
    assert_eq!(draw_combinations(vec![5, 6, 9], 3).unwrap(), vec![vec![5, 6, 9]]);
}

#[test]
fn draw_counts_agree_with_the_count() {
    for n in 0..9u8 {
        for k in 0..10usize {
            let pool: Vec<u8> = (0..n).collect();
            let drawn = draw_combinations(pool, k).unwrap();
            assert_eq!(Some(drawn.len()), combination_count(n as usize, k));
            for c in &drawn {
                assert_eq!(c.len(), k);
                assert!(c.windows(2).all(|w| w[0] < w[1]));
            }
        }
    }
}

#[test]
fn draw_beyond_the_limit_is_none() {
    let pool: Vec<u8> = (0..200).collect();
    assert_eq!(draw_combinations(pool, 100), None);
}

#[test]
fn draw_goes_by_place_not_by_value() {
    let drawn = draw_combinations(vec![1, 2, 2], 2).unwrap();
    assert_eq!(drawn, vec![vec![1, 2], vec![1, 2], vec![2, 2]]);
}

#[test]
fn draw_far_more_than_there_is_gives_nothing() {
    assert_eq!(draw_combinations(Vec::new(), usize::MAX).unwrap(), Vec::<Vec<u8>>::new());
    assert_eq!(draw_combinations(vec![1, 2, 3], usize::MAX).unwrap(), Vec::<Vec<u8>>::new());
    assert_eq!(draw_combinations(vec![1, 2, 3], 4).unwrap(), Vec::<Vec<u8>>::new());
    assert_eq!(combination_count(3, usize::MAX), Some(0));
}
