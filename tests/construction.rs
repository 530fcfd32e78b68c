use ant_system::error::{check_square, ColonyError};
use ant_system::label::city_label;
use ant_system::path::{roulette_select, unvisited, PathBuilder};

fn build_with_picks(n: usize, start: usize, picks: &[usize]) -> Vec<usize> {
    let mut b = PathBuilder::new(n, start);
    let mut s = 0;
    while !b.is_complete() {
        let cands = b.candidates();
        assert!(!cands.is_empty());
        let k = picks[s] % cands.len();
        b.advance(k);
        s += 1;
    }
    b.path()
}

#[test]
fn unvisited_lists_missing_locations_ascending() {
    assert_eq!(unvisited(&vec![0, 2], 4), vec![1, 3]);
    assert_eq!(unvisited(&vec![], 3), vec![0, 1, 2]);
    assert_eq!(unvisited(&vec![2, 0, 1], 3), Vec::<usize>::new());
}

#[test]
fn roulette_takes_first_position_that_exceeds() {
    assert_eq!(roulette_select(&vec![true, true, true]), 0);
    assert_eq!(roulette_select(&vec![false, true, false]), 1);
    assert_eq!(roulette_select(&vec![false, false, true]), 2);
}

#[test]
fn roulette_falls_back_to_last_position() {
    assert_eq!(roulette_select(&vec![false, false, false]), 2);
    assert_eq!(roulette_select(&vec![false]), 0);
}

#[test]
fn builder_starts_at_origin() {
    let b = PathBuilder::new(4, 2);
    assert_eq!(b.path(), vec![2]);
    assert!(!b.is_complete());
    assert_eq!(b.candidates(), vec![0, 1, 3]);
}

#[test]
fn builder_appends_chosen_candidate() {
    let mut b = PathBuilder::new(4, 2);
    b.advance(1);
    assert_eq!(b.path(), vec![2, 1]);
    assert_eq!(b.candidates(), vec![0, 3]);
    b.advance(1);
    b.advance(0);
    assert_eq!(b.path(), vec![2, 1, 3, 0]);
    assert!(b.is_complete());
    assert!(b.candidates().is_empty());
}

#[test]
fn single_location_path_is_complete_at_once() {
    let b = PathBuilder::new(1, 0);
    assert!(b.is_complete());
    assert_eq!(b.path(), vec![0]);
}

#[test]
fn every_built_path_is_a_permutation_from_start() {
    let n = 6;
    for start in 0..n {
        for seed in 0..20usize {
            let picks: Vec<usize> = (0..n).map(|s| (seed * 7 + s * 3) % 5).collect();
            let p = build_with_picks(n, start, &picks);
            assert_eq!(p.len(), n);
            assert_eq!(p[0], start);
            let mut sorted = p.clone();
            sorted.sort();
            assert_eq!(sorted, (0..n).collect::<Vec<usize>>());
        }
    }
}

#[test]
fn same_picks_give_same_path() {
    let picks = vec![3, 1, 0, 2, 1, 0];
    let a = build_with_picks(7, 4, &picks);
    let b = build_with_picks(7, 4, &picks);
    assert_eq!(a, b);
}

#[test]
fn square_matrix_is_accepted() {
    assert_eq!(check_square(3, 3), Ok(3));
    assert_eq!(check_square(0, 0), Ok(0));
}

#[test]
fn non_square_matrix_is_rejected() {
    assert_eq!(check_square(3, 2), Err(ColonyError::InvalidDimension));
    assert_eq!(check_square(1, 4), Err(ColonyError::InvalidDimension));
}

#[test]
fn labels_are_capital_letters() {
    assert_eq!(city_label(0), Some('A'));
    assert_eq!(city_label(1), Some('B'));
    assert_eq!(city_label(25), Some('Z'));
    assert_eq!(city_label(26), None);
}
