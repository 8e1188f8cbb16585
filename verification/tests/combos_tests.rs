use itertools::Itertools;
use square_coins::combos::combinations;

#[test]
fn three_of_four() {
    assert_eq!(
        combinations(1, 5, 3),
        vec![vec![1, 2, 3], vec![1, 2, 4], vec![1, 3, 4], vec![2, 3, 4]]
    );
}

#[test]
fn none_of_any_is_the_empty_choice() {
    assert_eq!(combinations(1, 7, 0), vec![Vec::<usize>::new()]);
    assert_eq!(combinations(3, 3, 0), vec![Vec::<usize>::new()]);
}

#[test]
fn more_than_there_are_cannot_be_chosen() {
    assert_eq!(combinations(1, 7, 7), Vec::<Vec<usize>>::new());
    assert_eq!(combinations(5, 2, 1), Vec::<Vec<usize>>::new());
    assert_eq!(combinations(4, 4, 1), Vec::<Vec<usize>>::new());
}

#[test]
fn all_of_them_is_one_choice() {
    assert_eq!(combinations(1, 7, 6), vec![vec![1, 2, 3, 4, 5, 6]]);
}

#[test]
fn as_many_choices_as_the_binomial_says() {
    let expected = [1usize, 6, 15, 20, 15, 6, 1, 0];
    for (k, n) in expected.iter().enumerate() {
        assert_eq!(combinations(1, 7, k).len(), *n);
    }
}

#[test]
fn every_choice_ascends_and_none_comes_twice() {
    for k in 0..=6usize {
        let all = combinations(1, 7, k);
        for c in all.iter() {
            assert_eq!(c.len(), k);
            assert!(c.iter().all(|x| 1 <= *x && *x < 7));
            assert!(c.windows(2).all(|w| w[0] < w[1]));
        }
        for i in 0..all.len() {
            for j in (i + 1)..all.len() {
                assert_ne!(all[i], all[j]);
            }
        }
    }
}

#[test]
fn the_same_choices_in_the_same_order_as_itertools() {
    for lo in 0..4usize {
        for hi in 0..9usize {
            for k in 0..=9usize {
                let theirs: Vec<Vec<usize>> = (lo..hi).combinations(k).collect();
                assert_eq!(combinations(lo, hi, k), theirs);
            }
        }
    }
}
