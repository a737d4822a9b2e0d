use anomaly_sim::error::EngineError;
use anomaly_sim::schedule::{check_round, pairing_schedule, settle_round};

fn unordered(pair: (usize, usize)) -> (usize, usize) {
    if pair.0 < pair.1 {
        pair
    } else {
        (pair.1, pair.0)
    }
}

fn all_pairs(rounds: &Vec<Vec<(usize, usize)>>) -> Vec<(usize, usize)> {
    let mut pairs = Vec::new();
    for round in rounds {
        for pair in round {
            pairs.push(unordered(*pair));
        }
    }
    pairs.sort();
    pairs
}

fn every_pair(n: usize) -> Vec<(usize, usize)> {
    let mut pairs = Vec::new();
    for i in 0..n {
        for j in (i + 1)..n {
            pairs.push((i, j));
        }
    }
    pairs
}

#[test]
fn five_siblings_meet_in_ten_pairs() {
    let rounds = pairing_schedule(5);
    let expected = vec![
        (0, 1),
        (0, 2),
        (0, 3),
        (0, 4),
        (1, 2),
        (1, 3),
        (1, 4),
        (2, 3),
        (2, 4),
        (3, 4),
    ];
    assert_eq!(all_pairs(&rounds), expected);
}

#[test]
fn five_siblings_exact_rounds() {
    let rounds = pairing_schedule(5);
    let expected: Vec<Vec<(usize, usize)>> = vec![
        vec![(0, 1), (2, 3)],
        vec![(1, 2), (3, 4)],
        vec![(4, 0)],
        vec![(0, 2), (1, 3)],
        vec![(2, 4), (3, 0)],
        vec![(4, 1)],
    ];
    assert_eq!(rounds, expected);
}

#[test]
fn odd_count_leaves_an_index_out_of_every_round() {
    for n in [3usize, 5, 7, 9, 11] {
        for round in pairing_schedule(n) {
            assert!(2 * round.len() < n);
        }
    }
}

#[test]
fn four_siblings_exact_rounds() {
    let rounds = pairing_schedule(4);
    let expected: Vec<Vec<(usize, usize)>> =
        vec![vec![(0, 1), (2, 3)], vec![(1, 2), (3, 0)], vec![(0, 2), (1, 3)]];
    assert_eq!(rounds, expected);
}

#[test]
fn six_siblings_exact_rounds() {
    let rounds = pairing_schedule(6);
    let expected: Vec<Vec<(usize, usize)>> = vec![
        vec![(0, 1), (2, 3), (4, 5)],
        vec![(1, 2), (3, 4), (5, 0)],
        vec![(0, 2), (1, 3)],
        vec![(2, 4), (3, 5)],
        vec![(4, 0), (5, 1)],
        vec![(0, 3), (1, 4), (2, 5)],
    ];
    assert_eq!(rounds, expected);
}

#[test]
fn no_siblings_no_rounds() {
    assert_eq!(pairing_schedule(0), Vec::<Vec<(usize, usize)>>::new());
}

#[test]
fn one_sibling_no_rounds() {
    assert_eq!(pairing_schedule(1), Vec::<Vec<(usize, usize)>>::new());
}

#[test]
fn two_siblings_one_pair() {
    assert_eq!(pairing_schedule(2), vec![vec![(0, 1)]]);
}

#[test]
fn three_siblings_three_rounds() {
    assert_eq!(pairing_schedule(3), vec![vec![(0, 1)], vec![(1, 2)], vec![(2, 0)]]);
}

#[test]
fn every_pair_exactly_once_up_to_forty() {
    for n in 0..=40 {
        let rounds = pairing_schedule(n);
        assert_eq!(all_pairs(&rounds), every_pair(n), "n = {}", n);
    }
}

#[test]
fn no_index_twice_in_a_round_up_to_forty() {
    for n in 0..=40 {
        for round in pairing_schedule(n) {
            assert!(!round.is_empty());
            let mut seen = vec![false; n];
            for (a, b) in round {
                assert!(a < n && b < n && a != b);
                assert!(!seen[a] && !seen[b]);
                seen[a] = true;
                seen[b] = true;
            }
        }
    }
}

#[test]
fn rounds_of_the_schedule_pass_the_check() {
    for n in 0..=20 {
        for round in pairing_schedule(n) {
            assert_eq!(check_round(&round, n), Ok(()));
        }
    }
}

#[test]
fn the_empty_round_passes_the_check() {
    assert_eq!(check_round(&Vec::new(), 0), Ok(()));
    assert_eq!(check_round(&Vec::new(), 3), Ok(()));
}

#[test]
fn overlapping_pairs_fail_the_check() {
    assert_eq!(check_round(&vec![(0, 1), (1, 2)], 4), Err(EngineError::SchedulingInvariantViolation));
    assert_eq!(check_round(&vec![(0, 1), (2, 0)], 4), Err(EngineError::SchedulingInvariantViolation));
    assert_eq!(check_round(&vec![(0, 1), (2, 3), (3, 4)], 5), Err(EngineError::SchedulingInvariantViolation));
    assert_eq!(check_round(&vec![(0, 1), (0, 1)], 4), Err(EngineError::SchedulingInvariantViolation));
}

#[test]
fn a_pair_with_itself_fails_the_check() {
    assert_eq!(check_round(&vec![(2, 2)], 4), Err(EngineError::SchedulingInvariantViolation));
}

#[test]
fn a_stranger_fails_the_check() {
    assert_eq!(check_round(&vec![(0, 4)], 4), Err(EngineError::SchedulingInvariantViolation));
    assert_eq!(check_round(&vec![(4, 0)], 4), Err(EngineError::SchedulingInvariantViolation));
    assert_eq!(check_round(&vec![(0, 1)], 0), Err(EngineError::SchedulingInvariantViolation));
}

#[test]
fn a_round_whose_tasks_all_came_back_is_settled() {
    assert_eq!(settle_round(&vec![]), Ok(()));
    assert_eq!(settle_round(&vec![true]), Ok(()));
    assert_eq!(settle_round(&vec![true, true, true]), Ok(()));
}

#[test]
fn a_task_that_did_not_come_back_fails_the_round() {
    assert_eq!(settle_round(&vec![false]), Err(EngineError::TaskFailure));
    assert_eq!(settle_round(&vec![true, true, false]), Err(EngineError::TaskFailure));
    assert_eq!(settle_round(&vec![false, true, true]), Err(EngineError::TaskFailure));
}
