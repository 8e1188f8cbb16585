use square_coins::solver::{denominations_are_valid, disagg, next_counts, table_is_sound};
use square_coins::tally::{coin_total, is_worth, product};

const SQUARES: [usize; 7] = [1, 4, 9, 16, 25, 36, 49];

fn seed() -> Vec<[usize; 7]> {
    vec![[0; 7], [1, 0, 0, 0, 0, 0, 0]]
}

fn worth(counts: &[usize; 7], denoms: &[usize; 7]) -> usize {
    counts.iter().zip(denoms.iter()).map(|(c, d)| c * d).sum()
}

#[test]
fn coin_total_adds_all_slots() {
    assert_eq!(coin_total(&[0; 7]), 0);
    assert_eq!(coin_total(&[2, 0, 0, 0, 1, 1, 0]), 4);
    assert_eq!(coin_total(&[1, 2, 3, 4, 5, 6, 7]), 28);
}

#[test]
fn product_is_exact_for_large_numbers() {
    assert_eq!(product(0, 5), 0);
    assert_eq!(product(7, 6), 42);
    assert_eq!(
        product(usize::MAX, usize::MAX),
        (usize::MAX as u128) * (usize::MAX as u128)
    );
}

#[test]
fn is_worth_tells_the_value() {
    assert!(is_worth(&[2, 0, 0, 0, 1, 1, 0], &SQUARES, 63));
    assert!(!is_worth(&[2, 0, 0, 0, 1, 1, 0], &SQUARES, 62));
    assert!(!is_worth(&[2, 0, 0, 0, 1, 1, 0], &SQUARES, 64));
    assert!(is_worth(&[0; 7], &SQUARES, 0));
    assert!(!is_worth(&[usize::MAX; 7], &[usize::MAX; 7], usize::MAX));
}

#[test]
fn denominations_need_a_unit_and_no_zero() {
    assert!(denominations_are_valid(&SQUARES));
    assert!(denominations_are_valid(&[64, 64, 1, 64, 64, 64, 64]));
    assert!(!denominations_are_valid(&[2, 4, 9, 16, 25, 36, 49]));
    assert!(!denominations_are_valid(&[1, 0, 9, 16, 25, 36, 49]));
}

#[test]
fn sound_tables_are_told_from_others() {
    assert!(table_is_sound(&seed(), &SQUARES));
    assert!(table_is_sound(&Vec::new(), &SQUARES));
    assert!(!table_is_sound(&vec![[0; 7], [0, 1, 0, 0, 0, 0, 0]], &SQUARES));
    assert!(!table_is_sound(&vec![[1, 0, 0, 0, 0, 0, 0]], &SQUARES));
}

#[test]
fn value_one_is_one_unit_coin() {
    let table = disagg(1, &vec![[0; 7]], SQUARES);
    assert_eq!(table, seed());
    let table = disagg(1, &Vec::new(), SQUARES);
    assert_eq!(table, seed());
    let moved = [64, 64, 64, 1, 64, 64, 64];
    let table = disagg(1, &Vec::new(), moved);
    assert_eq!(table[1], [0, 0, 0, 1, 0, 0, 0]);
    let twice = [1, 1, 9, 16, 25, 36, 49];
    let table = disagg(1, &Vec::new(), twice);
    assert_eq!(table[1], [1, 0, 0, 0, 0, 0, 0]);
}

#[test]
fn every_row_is_worth_its_amount() {
    let table = disagg(63, &seed(), SQUARES);
    assert_eq!(table.len(), 64);
    for (v, row) in table.iter().enumerate() {
        assert_eq!(worth(row, &SQUARES), v);
    }
    assert!(table_is_sound(&table, &SQUARES));
    let fewer = [1, 64, 9, 64, 25, 64, 64];
    let table = disagg(63, &seed(), fewer);
    for (v, row) in table.iter().enumerate() {
        assert_eq!(worth(row, &fewer), v);
        assert_eq!(row[1] + row[3] + row[5] + row[6], 0);
    }
}

#[test]
fn rows_of_the_full_set() {
    let table = disagg(63, &seed(), SQUARES);
    assert_eq!(table[0], [0; 7]);
    assert_eq!(table[2], [2, 0, 0, 0, 0, 0, 0]);
    assert_eq!(table[8], [0, 2, 0, 0, 0, 0, 0]);
    assert_eq!(table[12], [0, 3, 0, 0, 0, 0, 0]);
    assert_eq!(table[18], [0, 0, 2, 0, 0, 0, 0]);
    assert_eq!(table[32], [0, 0, 0, 2, 0, 0, 0]);
    assert_eq!(table[49], [0, 0, 0, 0, 0, 0, 1]);
    assert_eq!(table[63], [2, 0, 0, 0, 1, 1, 0]);
}

#[test]
fn fewest_coins_against_all_counts() {
    let table = disagg(30, &Vec::new(), SQUARES);
    for v in 0..=30usize {
        let mut least = usize::MAX;
        for a in 0..=v {
            for b in 0..=(v / 4) {
                for c in 0..=(v / 9) {
                    for d in 0..=(v / 16) {
                        for e in 0..=(v / 25) {
                            if a + 4 * b + 9 * c + 16 * d + 25 * e == v {
                                least = least.min(a + b + c + d + e);
                            }
                        }
                    }
                }
            }
        }
        assert_eq!(coin_total(&table[v]), least);
    }
}

#[test]
fn ties_go_to_the_choice_tried_last() {
    // 8 = 4 + 4 and 18 = 9 + 9 are found as two coins of one slot; 13 = 9 + 4
    // and 13 = 4 + 9 both need two coins, and the smaller denomination is
    // tried last.
    let table = disagg(41, &seed(), SQUARES);
    assert_eq!(table[13], [0, 1, 1, 0, 0, 0, 0]);
    assert_eq!(table[41], [0, 0, 0, 1, 1, 0, 0]);
    assert_eq!(table[3], [3, 0, 0, 0, 0, 0, 0]);
}

#[test]
fn given_rows_are_kept() {
    let odd = vec![[0; 7], [1, 0, 0, 0, 0, 0, 0], [2, 0, 0, 0, 0, 0, 0], [3, 0, 0, 0, 0, 0, 0], [4, 0, 0, 0, 0, 0, 0]];
    let table = disagg(8, &odd, SQUARES);
    assert_eq!(table.len(), 9);
    assert_eq!(&table[..5], &odd[..]);
    assert_eq!(table[5], [1, 1, 0, 0, 0, 0, 0]);
    // 8 = 4 + 4: the row of 4 that was given has four coins, so two coins
    // of 4 on the row of 0 are taken.
    assert_eq!(table[8], [0, 2, 0, 0, 0, 0, 0]);
}

#[test]
fn a_table_that_reaches_the_ceiling_is_returned_as_it_is() {
    let full = disagg(10, &seed(), SQUARES);
    let again = disagg(5, &full, SQUARES);
    assert_eq!(again, full);
    let again = disagg(10, &full, SQUARES);
    assert_eq!(again, full);
    let more = disagg(11, &full, SQUARES);
    assert_eq!(more.len(), 12);
    assert_eq!(more[11], [2, 0, 1, 0, 0, 0, 0]);
}

#[test]
fn next_counts_gives_the_next_row() {
    let table = disagg(62, &seed(), SQUARES);
    assert_eq!(next_counts(&table, &SQUARES), [2, 0, 0, 0, 1, 1, 0]);
    assert_eq!(next_counts(&Vec::new(), &SQUARES), [0; 7]);
}

#[test]
fn a_denomination_above_the_amount_is_never_used() {
    let table = disagg(63, &seed(), [1, 64, 64, 64, 64, 64, 64]);
    for (v, row) in table.iter().enumerate() {
        assert_eq!(*row, [v, 0, 0, 0, 0, 0, 0]);
    }
    let table = disagg(64, &seed(), [1, 64, 64, 64, 64, 64, 64]);
    assert_eq!(table[64], [0, 1, 0, 0, 0, 0, 0]);
}
