//! Coin counts, one per denomination slot, and what such a count is worth.

use vstd::prelude::*;

verus! {

/// The counts in the first `n` slots, added up.
pub open spec fn coins_upto(counts: Seq<usize>, n: int) -> int
    decreases n,
{
    if n <= 0 {
        0
    } else {
        coins_upto(counts, n - 1) + counts[n - 1]
    }
}

/// The number of coins that a count of seven slots holds.
pub open spec fn coins(counts: Seq<usize>) -> int {
    coins_upto(counts, 7)
}

/// The value of the coins in the first `n` slots.
pub open spec fn worth_upto(counts: Seq<usize>, denoms: Seq<usize>, n: int) -> int
    decreases n,
{
    if n <= 0 {
        0
    } else {
        worth_upto(counts, denoms, n - 1) + counts[n - 1] * denoms[n - 1]
    }
}

/// The value that a count of seven slots adds up to under `denoms`.
pub open spec fn worth(counts: Seq<usize>, denoms: Seq<usize>) -> int {
    worth_upto(counts, denoms, 7)
}

/// The count with no coin in any slot.
pub open spec fn no_coins() -> Seq<usize> {
    Seq::new(7, |i: int| 0usize)
}

/// The counts of a table, row by row.
pub open spec fn rows(table: Seq<[usize; 7]>) -> Seq<Seq<usize>> {
    table.map_values(|row: [usize; 7]| row@)
}

/// Partial sums of counts grow with the number of slots taken.
pub proof fn lemma_coins_upto_grows(counts: Seq<usize>, m: int, n: int)
    requires
        m <= n,
    ensures
        0 <= coins_upto(counts, m) <= coins_upto(counts, n),
    decreases n,
{
    if n > 0 && m < n {
        lemma_coins_upto_grows(counts, m, n - 1);
    } else if n > 0 {
        lemma_coins_upto_grows(counts, m - 1, n - 1);
    }
}

/// No slot holds more coins than the whole count.
pub proof fn lemma_slot_at_most_coins(counts: Seq<usize>, i: int)
    requires
        0 <= i < 7,
    ensures
        counts[i] <= coins(counts),
{
    lemma_coins_upto_grows(counts, i, i);
    lemma_coins_upto_grows(counts, i + 1, 7);
}

/// Where every denomination is at least 1, the first `n` slots are worth at
/// least as much as the number of coins in them.
pub proof fn lemma_coins_upto_at_most_worth(counts: Seq<usize>, denoms: Seq<usize>, n: int)
    requires
        forall|i: int| 0 <= i < n ==> denoms[i] >= 1,
    ensures
        coins_upto(counts, n) <= worth_upto(counts, denoms, n),
    decreases n,
{
    if n > 0 {
        lemma_coins_upto_at_most_worth(counts, denoms, n - 1);
        let c = counts[n - 1];
        let d = denoms[n - 1];
        assert(c <= c * d) by (nonlinear_arith)
            requires
                d >= 1,
                c >= 0,
        ;
    }
}

/// The value held by one slot is part of the value of the whole count.
pub proof fn lemma_slot_worth_at_most_worth(counts: Seq<usize>, denoms: Seq<usize>, i: int)
    requires
        0 <= i < 7,
    ensures
        counts[i] * denoms[i] <= worth(counts, denoms),
{
    lemma_worth_upto_grows(counts, denoms, i, i);
    lemma_worth_upto_grows(counts, denoms, i + 1, 7);
}

/// Partial values grow with the number of slots taken.
pub proof fn lemma_worth_upto_grows(counts: Seq<usize>, denoms: Seq<usize>, m: int, n: int)
    requires
        m <= n,
    ensures
        0 <= worth_upto(counts, denoms, m) <= worth_upto(counts, denoms, n),
    decreases n,
{
    if n > 0 {
        let c = counts[n - 1];
        let d = denoms[n - 1];
        assert(0 <= c * d) by (nonlinear_arith)
            requires
                d >= 0,
                c >= 0,
        ;
        if m < n {
            lemma_worth_upto_grows(counts, denoms, m, n - 1);
        } else {
            lemma_worth_upto_grows(counts, denoms, m - 1, n - 1);
        }
    }
}

/// Changing one slot changes the number of coins by the change of that slot.
pub proof fn lemma_coins_upto_update(counts: Seq<usize>, i: int, x: usize, n: int)
    requires
        0 <= i < counts.len(),
        n <= counts.len(),
    ensures
        coins_upto(counts.update(i, x), n) == coins_upto(counts, n) + if i < n {
            x - counts[i]
        } else {
            0
        },
    decreases n,
{
    if n > 0 {
        lemma_coins_upto_update(counts, i, x, n - 1);
    }
}

/// Changing one slot changes the value by the change of that slot times its
/// denomination.
pub proof fn lemma_worth_upto_update(
    counts: Seq<usize>,
    denoms: Seq<usize>,
    i: int,
    x: usize,
    n: int,
)
    requires
        0 <= i < counts.len(),
        n <= counts.len(),
    ensures
        worth_upto(counts.update(i, x), denoms, n) == worth_upto(counts, denoms, n) + if i < n {
            (x - counts[i]) * denoms[i]
        } else {
            0
        },
    decreases n,
{
    if n > 0 {
        lemma_worth_upto_update(counts, denoms, i, x, n - 1);
        if i == n - 1 {
            let c = counts[i];
            let d = denoms[i];
            assert(x * d == c * d + (x - c) * d) by (nonlinear_arith);
        }
    }
}

/// The empty count holds no coin and is worth nothing.
pub proof fn lemma_no_coins(denoms: Seq<usize>)
    ensures
        no_coins().len() == 7,
        coins(no_coins()) == 0,
        worth(no_coins(), denoms) == 0,
{
    lemma_no_coins_upto(denoms, 7);
}

/// The first `n` slots of the empty count hold no coin and are worth
/// nothing.
proof fn lemma_no_coins_upto(denoms: Seq<usize>, n: int)
    requires
        0 <= n <= 7,
    ensures
        coins_upto(no_coins(), n) == 0,
        worth_upto(no_coins(), denoms, n) == 0,
    decreases n,
{
    if n > 0 {
        lemma_no_coins_upto(denoms, n - 1);
        let c = no_coins()[n - 1];
        let d = denoms[n - 1];
        assert(c * d == 0) by (nonlinear_arith)
            requires
                c == 0,
        ;
    }
}

/// Adds up the coins of one count.
pub fn coin_total(counts: &[usize; 7]) -> (total: usize)
    requires
        coins(counts@) <= usize::MAX,
    ensures
        total == coins(counts@),
{
    let mut total: usize = 0;
    let mut i: usize = 0;
    while i < 7
        invariant
            i <= 7,
            total == coins_upto(counts@, i as int),
            coins(counts@) <= usize::MAX,
        decreases 7 - i,
    {
        proof {
            lemma_coins_upto_grows(counts@, i + 1, 7);
        }
        total = total + counts[i];
        i = i + 1;
    }
    total
}

/// The product of two numbers, which is too large for none.
pub fn product(a: usize, b: usize) -> (p: u128)
    ensures
        p == a * b,
{
    assert(a * b <= 0xffff_ffff_ffff_fffe_0000_0000_0000_0001) by (nonlinear_arith)
        requires
            a <= 0xffff_ffff_ffff_ffff,
            b <= 0xffff_ffff_ffff_ffff,
    ;
    (a as u128) * (b as u128)
}

/// Whether the count is worth `v` under `denoms`.
pub fn is_worth(counts: &[usize; 7], denoms: &[usize; 7], v: usize) -> (yes: bool)
    ensures
        yes == (worth(counts@, denoms@) == v),
{
    let mut sum: u128 = 0;
    let mut i: usize = 0;
    while i < 7
        invariant
            i <= 7,
            sum == worth_upto(counts@, denoms@, i as int),
            sum <= v,
        decreases 7 - i,
    {
        let p: u128 = product(counts[i], denoms[i]);
        if p > v as u128 - sum {
            proof {
                lemma_worth_upto_grows(counts@, denoms@, i + 1, 7);
            }
            return false;
        }
        sum = sum + p;
        i = i + 1;
    }
    sum == v as u128
}

} // verus!
