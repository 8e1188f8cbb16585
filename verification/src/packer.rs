//! The order in which a set of coins is laid in a row, each coin on the
//! line and touching its neighbours, so that the row is short: the larger
//! half of the coins first, the smaller half then into the widest gaps.

use crate::coinset::CoinSet;
use crate::gaps::{gap_keys, gaps_between, is_gap_order, lemma_rank_in_order, rank, sort_gaps, Gap};
use vstd::multiset::Multiset;
use vstd::prelude::*;
use vstd::seq_lib::{to_multiset_build, to_multiset_insert};

verus! {

/// Why a set of coins cannot be laid in a row.
#[derive(Debug, Clone, Copy, PartialEq, Eq, Structural)]
pub enum PackError {
    /// There is no coin to form a gap with.
    TooFewCoins,
    /// There are more small coins than gaps between the large ones.
    GapShortage,
}

/// Where the coin at place `p` of a row of `len` large coins stands among
/// them by size, 0 for the largest: the largest in the middle, the others
/// in turn to its right and to its left.
pub open spec fn zig(len: int, p: int) -> int {
    if p < len / 2 {
        2 * (len / 2 - p) - 1
    } else {
        2 * (p - len / 2)
    }
}

/// The larger half of the ascending `items`, the odd one with it, as a row.
pub open spec fn large_row(items: Seq<usize>) -> Seq<usize> {
    let n = items.len() as int;
    let l = (n + 1) / 2;
    Seq::new(l as nat, |p: int| items[n - 1 - zig(l, p)])
}

/// The smaller half of the ascending `items`, from the largest down.
pub open spec fn small_coins(items: Seq<usize>) -> Seq<usize> {
    let n = items.len() as int;
    let l = (n + 1) / 2;
    Seq::new((n - l) as nat, |i: int| items[n - 1 - l - i])
}

/// The small coin that lies in gap `j`: the largest in the widest gap, the
/// next in the next, and none in the gaps that are left.
pub open spec fn tenant(keys: Seq<int>, small: Seq<usize>, j: int) -> Option<usize> {
    if rank(keys, j) < small.len() {
        Some(small[rank(keys, j) as int])
    } else {
        None
    }
}

/// The row up to gap `n`: for each gap before it the small coin in the gap,
/// if there is one, and then the large coin to the right of the gap.
pub open spec fn row_upto(large: Seq<usize>, small: Seq<usize>, n: int) -> Seq<usize>
    decreases n,
{
    if n <= 0 {
        Seq::empty()
    } else {
        let prior = row_upto(large, small, n - 1);
        let filled = match tenant(gap_keys(large), small, n - 1) {
            Some(c) => prior.push(c),
            None => prior,
        };
        if n - 1 < large.len() {
            filled.push(large[n - 1])
        } else {
            filled
        }
    }
}

/// The row of the large coins with the small coins in its gaps.
pub open spec fn arranged(large: Seq<usize>, small: Seq<usize>) -> Seq<usize> {
    row_upto(large, small, large.len() as int + 1)
}

/// The row in which the coins of the ascending `items` are laid.
pub open spec fn packed(items: Seq<usize>) -> Seq<usize> {
    arranged(large_row(items), small_coins(items))
}

/// The small coins in the first `n` gaps.
spec fn held(tenants: Seq<Option<usize>>, n: int) -> Multiset<usize>
    decreases n,
{
    if n <= 0 {
        Multiset::empty()
    } else {
        match tenants[n - 1] {
            Some(c) => held(tenants, n - 1).insert(c),
            None => held(tenants, n - 1),
        }
    }
}

/// The empty list holds nothing.
proof fn lemma_nothing_held()
    ensures
        Seq::<usize>::empty().to_multiset() == Multiset::<usize>::empty(),
{
    let none = Seq::<usize>::empty();
    vstd::seq_lib::to_multiset_len(none);
    vstd::multiset::lemma_multiset_empty_len(none.to_multiset());
}

/// Empty gaps hold no coin.
proof fn lemma_held_none(tenants: Seq<Option<usize>>, n: int)
    requires
        n <= tenants.len(),
        forall|j: int| 0 <= j < n ==> tenants[j] is None,
    ensures
        held(tenants, n) == Multiset::<usize>::empty(),
    decreases n,
{
    if n > 0 {
        lemma_held_none(tenants, n - 1);
    }
}

/// A coin laid into an empty gap is one more coin held.
proof fn lemma_held_update(tenants: Seq<Option<usize>>, slot: int, c: usize, n: int)
    requires
        0 <= slot < tenants.len(),
        n <= tenants.len(),
        tenants[slot] is None,
    ensures
        held(tenants.update(slot, Some(c)), n) == if slot < n {
            held(tenants, n).insert(c)
        } else {
            held(tenants, n)
        },
    decreases n,
{
    if n > 0 {
        lemma_held_update(tenants, slot, c, n - 1);
        if slot < n - 1 {
            let h = held(tenants, n - 1);
            match tenants[n - 1] {
                Some(d) => {
                    assert(h.insert(c).insert(d) =~= h.insert(d).insert(c));
                },
                None => {},
            }
        }
    }
}

/// Parts the coins by size: the larger half, the odd one with it, in a row
/// with the largest in the middle and the others in turn to its right and
/// to its left; and the smaller half from the largest down.
pub fn split_by_size(s: &CoinSet) -> (halves: (Vec<usize>, Vec<usize>))
    ensures
        halves.0@ == large_row(s@),
        halves.1@ == small_coins(s@),
        halves.0@.to_multiset().add(halves.1@.to_multiset()) == s@.to_multiset(),
{
    let n: usize = s.len();
    let l: usize = n / 2 + n % 2;
    let ghost items = s@;
    let mut large: Vec<usize> = Vec::new();
    let mut small: Vec<usize> = Vec::new();
    let mut idx: usize = 0;
    assert(items.subrange(n as int, n as int) =~= Seq::<usize>::empty());
    while idx < l
        invariant
            idx <= l <= n,
            n == items.len(),
            items == s@,
            large@ == Seq::new(idx as nat, |p: int| items[n - 1 - zig(idx as int, p)]),
            large@.to_multiset() == items.subrange(n - idx, n as int).to_multiset(),
        decreases l - idx,
    {
        let coin: usize = s.get(n - 1 - idx);
        let ghost before = large@;
        let ghost seen = items.subrange(n - idx, n as int);
        if idx % 2 == 0 {
            large.push(coin);
        } else {
            large.insert(0, coin);
        }
        proof {
            to_multiset_build(before, coin);
            to_multiset_insert(before, 0, coin);
            to_multiset_insert(seen, 0, coin);
            assert(items.subrange(n - idx - 1, n as int) =~= seen.insert(0, coin));
        }
        idx = idx + 1;
        assert(large@ =~= Seq::new(idx as nat, |p: int| items[n - 1 - zig(idx as int, p)]));
    }
    let ghost row = large@;
    proof {
        assert(row =~= large_row(items));
        lemma_nothing_held();
        assert(small@ =~= Seq::<usize>::empty());
        assert(row.to_multiset().add(Multiset::<usize>::empty()) =~= row.to_multiset());
    }
    while idx < n
        invariant
            l <= idx <= n,
            n == items.len(),
            items == s@,
            l == (n + 1) / 2,
            large@ == row,
            small@ == Seq::new((idx - l) as nat, |i: int| items[n - 1 - l - i]),
            row.to_multiset().add(small@.to_multiset()) == items.subrange(
                n - idx,
                n as int,
            ).to_multiset(),
        decreases n - idx,
    {
        let coin: usize = s.get(n - 1 - idx);
        let ghost before = small@;
        let ghost seen = items.subrange(n - idx, n as int);
        small.push(coin);
        proof {
            to_multiset_build(before, coin);
            to_multiset_insert(seen, 0, coin);
            assert(items.subrange(n - idx - 1, n as int) =~= seen.insert(0, coin));
            assert(row.to_multiset().add(before.to_multiset()).insert(coin)
                =~= row.to_multiset().add(before.to_multiset().insert(coin)));
        }
        idx = idx + 1;
        assert(small@ =~= Seq::new((idx - l) as nat, |i: int| items[n - 1 - l - i]));
    }
    assert(small@ =~= small_coins(items));
    assert(items.subrange(0, n as int) =~= items);
    (large, small)
}

/// Lays the small coins into the gaps of the row of large coins: the
/// gaps are taken from the widest down, and the small coins from the first
/// of `small` on, each to the right of the left neighbour of its gap.
pub fn arrange(large: &Vec<usize>, small: &Vec<usize>) -> (res: Result<Vec<usize>, PackError>)
    requires
        large.len() < usize::MAX,
    ensures
        match res {
            Ok(row) => {
                &&& 1 <= large.len()
                &&& small.len() <= large.len() + 1
                &&& row@ == arranged(large@, small@)
                &&& row@.to_multiset() == large@.to_multiset().add(small@.to_multiset())
            },
            Err(PackError::TooFewCoins) => large.len() == 0,
            Err(PackError::GapShortage) => 1 <= large.len() && small.len() > large.len() + 1,
        },
{
    if large.len() == 0 {
        return Err(PackError::TooFewCoins);
    }
    let count: usize = large.len() + 1;
    if small.len() > count {
        return Err(PackError::GapShortage);
    }
    let gaps: Vec<Gap> = gaps_between(large);
    let order: Vec<usize> = sort_gaps(&gaps);
    let ghost keys = gap_keys(large@);
    assert forall|q: int| 0 <= q < order.len() implies rank(keys, #[trigger] order[q] as int)
        == order.len() - 1 - q by {
        lemma_rank_in_order(keys, order@, q);
    }
    let mut tenants: Vec<Option<usize>> = Vec::new();
    let mut j: usize = 0;
    while j < count
        invariant
            j <= count,
            tenants.len() == j,
            forall|i: int| 0 <= i < j ==> tenants[i] is None,
        decreases count - j,
    {
        tenants.push(None);
        j = j + 1;
    }
    proof {
        lemma_held_none(tenants@, count as int);
        lemma_nothing_held();
        assert(small@.take(0) =~= Seq::<usize>::empty());
    }
    let mut i: usize = 0;
    while i < small.len()
        invariant
            i <= small.len() <= count,
            count == large.len() + 1,
            tenants.len() == count,
            keys == gap_keys(large@),
            is_gap_order(keys, order@),
            forall|q: int|
                0 <= q < order.len() ==> rank(keys, #[trigger] order[q] as int) == order.len() - 1
                    - q,
            forall|g: int|
                0 <= g < count ==> #[trigger] tenants[g] == if rank(keys, g) < i {
                    Some(small[rank(keys, g) as int])
                } else {
                    None::<usize>
                },
            held(tenants@, count as int) == small@.take(i as int).to_multiset(),
        decreases small.len() - i,
    {
        let slot: usize = order[count - 1 - i];
        let ghost before = tenants@;
        proof {
            assert(rank(keys, slot as int) == i);
            assert(before[slot as int] is None);
            lemma_held_update(before, slot as int, small[i as int], count as int);
            to_multiset_build(small@.take(i as int), small[i as int]);
            assert(small@.take(i + 1) =~= small@.take(i as int).push(small[i as int]));
        }
        tenants.set(slot, Some(small[i]));
        proof {
            assert forall|g: int| 0 <= g < count implies #[trigger] tenants[g] == if rank(keys, g)
                < i + 1 {
                Some(small[rank(keys, g) as int])
            } else {
                None::<usize>
            } by {
                assert(order@.contains(g as usize));
                let q = choose|q: int| 0 <= q < order.len() && order[q] == g as usize;
                assert(rank(keys, order[q] as int) == order.len() - 1 - q);
                if g != slot {
                    assert(tenants[g] == before[g]);
                }
            }
        }
        i = i + 1;
    }
    assert(small@.take(i as int) =~= small@);
    let mut row: Vec<usize> = Vec::new();
    let mut g: usize = 0;
    proof {
        lemma_nothing_held();
        assert(large@.take(0) =~= Seq::<usize>::empty());
        assert(Multiset::<usize>::empty().add(Multiset::<usize>::empty()) =~= Multiset::<
            usize,
        >::empty());
    }
    while g < count
        invariant
            g <= count,
            count == large.len() + 1,
            tenants.len() == count,
            keys == gap_keys(large@),
            forall|h: int| 0 <= h < count ==> #[trigger] tenants[h] == tenant(keys, small@, h),
            row@ == row_upto(large@, small@, g as int),
            row@.to_multiset() == held(tenants@, g as int).add(
                large@.take(if g < count - 1 {
                    g as int
                } else {
                    count - 1
                }).to_multiset(),
            ),
        decreases count - g,
    {
        let ghost had = held(tenants@, g as int);
        let ghost seen = large@.take(if g < count - 1 {
            g as int
        } else {
            count - 1
        });
        let ghost start = row@;
        match tenants[g] {
            Some(c) => {
                row.push(c);
                proof {
                    to_multiset_build(start, c);
                    assert(had.add(seen.to_multiset()).insert(c) =~= had.insert(c).add(
                        seen.to_multiset(),
                    ));
                }
            },
            None => {},
        }
        assert(row@.to_multiset() == held(tenants@, g + 1).add(seen.to_multiset()));
        if g < large.len() {
            let ghost filled = row@;
            row.push(large[g]);
            proof {
                let coin = large[g as int];
                to_multiset_build(filled, coin);
                to_multiset_build(seen, coin);
                assert(large@.take(g + 1) =~= seen.push(coin));
                assert(held(tenants@, g + 1).add(seen.to_multiset()).insert(coin) =~= held(
                    tenants@,
                    g + 1,
                ).add(seen.to_multiset().insert(coin)));
            }
        }
        g = g + 1;
    }
    assert(large@.take(count - 1) =~= large@);
    assert(held(tenants@, count as int).add(large@.to_multiset()) =~= large@.to_multiset().add(
        small@.to_multiset(),
    ));
    Ok(row)
}

/// The order, from left to right, in which the coins of `s` are laid.
/// Fewer than two coins form no row.
pub fn coin_order(s: &CoinSet) -> (res: Result<Vec<usize>, PackError>)
    requires
        s.wf(),
    ensures
        match res {
            Ok(row) => {
                &&& s@.len() >= 2
                &&& row@ == packed(s@)
                &&& row@.to_multiset() == s@.to_multiset()
            },
            Err(e) => e == PackError::TooFewCoins && s@.len() < 2,
        },
{
    if s.len() < 2 {
        return Err(PackError::TooFewCoins);
    }
    let (large, small) = split_by_size(s);
    arrange(&large, &small)
}

} // verus!
