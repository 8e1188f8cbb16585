use square_coins::coinset::CoinSet;

fn set_of(items: &[usize]) -> CoinSet {
    let mut s = CoinSet::new();
    for a in items {
        s.insert(*a);
    }
    s
}

#[test]
fn a_new_set_is_empty() {
    let s = CoinSet::new();
    assert_eq!(s.len(), 0);
    assert_eq!(s.to_vec(), Vec::<usize>::new());
    assert!(!s.contains(1));
}

#[test]
fn coins_are_kept_in_ascending_order() {
    let s = set_of(&[36, 1, 49, 4]);
    assert_eq!(s.to_vec(), vec![1, 4, 36, 49]);
    assert_eq!(s.len(), 4);
    assert_eq!(s.get(0), 1);
    assert_eq!(s.get(3), 49);
}

#[test]
fn a_coin_is_in_the_set_once() {
    let mut s = CoinSet::new();
    assert!(s.insert(9));
    assert!(!s.insert(9));
    assert!(s.insert(4));
    assert!(!s.insert(4));
    assert!(s.insert(16));
    assert!(!s.insert(9));
    assert_eq!(s.to_vec(), vec![4, 9, 16]);
}

#[test]
fn contains_finds_what_was_put_in() {
    let s = set_of(&[1, 4, 9, 16, 36]);
    for a in [1usize, 4, 9, 16, 36] {
        assert!(s.contains(a));
    }
    for a in [0usize, 2, 25, 49, 64] {
        assert!(!s.contains(a));
    }
}

#[test]
fn minus_leaves_what_the_other_lacks() {
    let all = set_of(&[1, 4, 9, 16, 25, 36]);
    let some = set_of(&[1, 4, 9, 16, 36]);
    assert_eq!(all.minus(&some).to_vec(), vec![25]);
    assert_eq!(some.minus(&all).to_vec(), Vec::<usize>::new());
    assert_eq!(all.minus(&CoinSet::new()).to_vec(), all.to_vec());
    assert_eq!(all.minus(&all).len(), 0);
    let other = set_of(&[4, 49, 64]);
    assert_eq!(all.minus(&other).to_vec(), vec![1, 9, 16, 25, 36]);
    assert_eq!(other.minus(&all).to_vec(), vec![49, 64]);
}
