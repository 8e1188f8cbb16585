use square_coins::coinset::CoinSet;
use square_coins::gaps::{comes_before, gaps_between, sort_gaps, Gap};
use square_coins::packer::{arrange, coin_order, split_by_size, PackError};

const SQUARES: [usize; 7] = [1, 4, 9, 16, 25, 36, 49];

fn set_of(items: &[usize]) -> CoinSet {
    let mut s = CoinSet::new();
    for a in items {
        s.insert(*a);
    }
    s
}

fn span(row: &[usize]) -> f64 {
    let mut total = (row[0] as f64).sqrt() + (row[row.len() - 1] as f64).sqrt();
    for w in row.windows(2) {
        total += 2.0 * ((w[0] * w[1]) as f64).powf(0.25);
    }
    total
}

fn permutations(items: &[usize]) -> Vec<Vec<usize>> {
    if items.len() <= 1 {
        return vec![items.to_vec()];
    }
    let mut all = Vec::new();
    for i in 0..items.len() {
        let mut rest = items.to_vec();
        let first = rest.remove(i);
        for mut p in permutations(&rest) {
            p.insert(0, first);
            all.push(p);
        }
    }
    all
}

fn subsets() -> Vec<Vec<usize>> {
    let mut all = Vec::new();
    for mask in 0..128usize {
        let s: Vec<usize> = (0..7).filter(|i| mask >> i & 1 == 1).map(|i| SQUARES[i]).collect();
        all.push(s);
    }
    all
}

#[test]
fn three_coins_of_diameters_one_six_and_seven() {
    let row = coin_order(&set_of(&[1, 49, 36])).unwrap();
    assert_eq!(row, vec![36, 1, 49]);
    let diameters: Vec<usize> = row.iter().map(|a| (*a as f64).sqrt() as usize).collect();
    assert_eq!(diameters, vec![6, 1, 7]);
    assert_eq!(span(&row), 23.190482107695537);
}

#[test]
fn five_coins() {
    assert_eq!(coin_order(&set_of(&[1, 4, 9, 16, 36])), Ok(vec![16, 4, 36, 1, 9]));
}

#[test]
fn a_small_coin_can_lie_at_the_left_wall() {
    assert_eq!(coin_order(&set_of(&[1, 4, 9, 16, 25, 36])), Ok(vec![1, 25, 9, 36, 4, 16]));
    assert_eq!(coin_order(&set_of(&[4, 9, 16, 25, 36, 49])), Ok(vec![4, 36, 16, 49, 9, 25]));
}

#[test]
fn two_coins_lie_with_the_smaller_to_the_right() {
    assert_eq!(coin_order(&set_of(&[5, 7])), Ok(vec![7, 5]));
    assert_eq!(coin_order(&set_of(&[4, 64])), Ok(vec![64, 4]));
}

#[test]
fn gaps_of_one_width_are_taken_from_the_right() {
    // Between 4 and 64 the centres are as far apart as that of 64 is from
    // the wall.
    assert_eq!(coin_order(&set_of(&[1, 4, 64])), Ok(vec![4, 64, 1]));
}

#[test]
fn fewer_than_two_coins_form_no_row() {
    assert_eq!(coin_order(&CoinSet::new()), Err(PackError::TooFewCoins));
    assert_eq!(coin_order(&set_of(&[3])), Err(PackError::TooFewCoins));
}

#[test]
fn the_row_holds_every_coin_once() {
    for s in subsets() {
        if s.len() < 2 {
            continue;
        }
        let mut row = coin_order(&set_of(&s)).unwrap();
        row.sort();
        assert_eq!(row, s);
    }
}

#[test]
fn no_other_order_is_shorter_for_these_sets() {
    let sets: [&[usize]; 8] = [
        &[1, 4],
        &[36, 49],
        &[1, 36, 49],
        &[1, 4, 9],
        &[9, 36, 49],
        &[25, 36, 49],
        &[4, 16, 25],
        &[16, 36, 49],
    ];
    for s in sets {
        let row = coin_order(&set_of(s)).unwrap();
        for other in permutations(s) {
            assert!(span(&row) <= span(&other) + 1e-9);
        }
    }
}

#[test]
fn the_larger_half_stands_in_a_zigzag() {
    let (large, small) = split_by_size(&set_of(&SQUARES));
    assert_eq!(large, vec![16, 36, 49, 25]);
    assert_eq!(small, vec![9, 4, 1]);
    let (large, small) = split_by_size(&set_of(&[1, 4, 9, 16, 25, 36]));
    assert_eq!(large, vec![25, 36, 16]);
    assert_eq!(small, vec![9, 4, 1]);
    let (large, small) = split_by_size(&set_of(&[7]));
    assert_eq!(large, vec![7]);
    assert_eq!(small, Vec::<usize>::new());
    let (large, small) = split_by_size(&CoinSet::new());
    assert_eq!(large, Vec::<usize>::new());
    assert_eq!(small, Vec::<usize>::new());
}

#[test]
fn arrange_fills_the_widest_gaps() {
    assert_eq!(arrange(&vec![36, 49], &vec![1]), Ok(vec![36, 1, 49]));
    assert_eq!(arrange(&vec![36, 49], &vec![]), Ok(vec![36, 49]));
    assert_eq!(arrange(&vec![36, 49], &vec![4, 1]), Ok(vec![36, 4, 49, 1]));
    assert_eq!(arrange(&vec![36, 49], &vec![9, 4, 1]), Ok(vec![1, 36, 9, 49, 4]));
    assert_eq!(arrange(&vec![9], &vec![4, 1]), Ok(vec![1, 9, 4]));
}

#[test]
fn arrange_needs_a_gap_for_every_small_coin() {
    assert_eq!(arrange(&vec![36, 49], &vec![16, 9, 4, 1]), Err(PackError::GapShortage));
    assert_eq!(arrange(&vec![9], &vec![4, 2, 1]), Err(PackError::GapShortage));
    assert_eq!(arrange(&vec![], &vec![]), Err(PackError::TooFewCoins));
    assert_eq!(arrange(&vec![], &vec![1]), Err(PackError::TooFewCoins));
}

#[test]
fn gap_widths_are_told_by_their_fourth_power() {
    let gaps = gaps_between(&vec![36, 49]);
    assert_eq!(gaps.len(), 3);
    assert_eq!((gaps[0].slot, gaps[0].wall, gaps[0].product), (0, true, 1296));
    assert_eq!((gaps[1].slot, gaps[1].wall, gaps[1].product), (1, false, 1764));
    assert_eq!((gaps[2].slot, gaps[2].wall, gaps[2].product), (2, true, 2401));
    assert_eq!(sort_gaps(&gaps), vec![0, 2, 1]);
    let gaps = gaps_between(&vec![16, 36, 9]);
    assert_eq!(sort_gaps(&gaps), vec![3, 0, 2, 1]);
    let gaps = gaps_between(&vec![usize::MAX]);
    assert_eq!(gaps[0].product, (usize::MAX as u128) * (usize::MAX as u128));
    assert_eq!(sort_gaps(&gaps), vec![0, 1]);
}

#[test]
fn comes_before_orders_by_width_and_then_by_place() {
    let wall = |slot: usize, product: u128| Gap { slot, wall: true, product };
    let pair = |slot: usize, product: u128| Gap { slot, wall: false, product };
    assert!(comes_before(&wall(0, 1296), &wall(2, 2401)));
    assert!(!comes_before(&wall(2, 2401), &wall(0, 1296)));
    assert!(comes_before(&wall(0, 9), &wall(1, 9)));
    assert!(!comes_before(&wall(1, 9), &wall(0, 9)));
    assert!(comes_before(&pair(1, 4), &pair(2, 5)));
    assert!(comes_before(&pair(1, 4), &pair(2, 4)));
    assert!(!comes_before(&pair(2, 4), &pair(1, 4)));
    // A wall gap of 64 is as wide as a pair gap of 16 * 4.
    assert!(comes_before(&wall(0, 64), &pair(1, 4)));
    assert!(!comes_before(&pair(1, 4), &wall(0, 64)));
    assert!(comes_before(&pair(1, 4), &wall(2, 64)));
    assert!(!comes_before(&wall(2, 64), &pair(1, 4)));
    assert!(comes_before(&wall(5, 63), &pair(1, 4)));
    assert!(!comes_before(&pair(1, 4), &wall(5, 63)));
    assert!(comes_before(&pair(5, 4), &wall(1, 65)));
    assert!(!comes_before(&wall(1, 65), &pair(5, 4)));
    assert!(comes_before(&wall(0, u128::MAX), &pair(1, u128::MAX)));
    assert!(!comes_before(&pair(1, u128::MAX), &wall(0, u128::MAX)));
}
