//! The fewest coins for every amount, found amount by amount from the rows
//! of the smaller amounts.

use crate::tally::{
    coin_total, coins, is_worth, lemma_coins_upto_at_most_worth, lemma_coins_upto_grows,
    lemma_coins_upto_update, lemma_no_coins, lemma_slot_at_most_coins,
    lemma_slot_worth_at_most_worth, lemma_worth_upto_grows, lemma_worth_upto_update, no_coins,
    rows, worth,
};
use vstd::prelude::*;

verus! {

/// Seven denominations, none of them 0 and one of them 1.
pub open spec fn valid_denominations(denoms: Seq<usize>) -> bool {
    &&& denoms.len() == 7
    &&& forall|i: int| 0 <= i < 7 ==> denoms[i] >= 1
    &&& exists|i: int| 0 <= i < 7 && denoms[i] == 1
}

/// Every row is a count of seven slots that is worth its own index.
pub open spec fn sound(table: Seq<Seq<usize>>, denoms: Seq<usize>) -> bool {
    forall|v: int|
        0 <= v < table.len() ==> (#[trigger] table[v]).len() == 7 && worth(table[v], denoms) == v
}

/// No count of the same worth has fewer coins than `counts`.
pub open spec fn fewest(counts: Seq<usize>, denoms: Seq<usize>) -> bool {
    forall|other: Seq<usize>|
        other.len() == 7 && #[trigger] worth(other, denoms) == worth(counts, denoms) ==> coins(
            counts,
        ) <= coins(other)
}

/// Every row has the fewest coins that its worth can be made of.
pub open spec fn all_fewest(table: Seq<Seq<usize>>, denoms: Seq<usize>) -> bool {
    forall|v: int| 0 <= v < table.len() ==> fewest(#[trigger] table[v], denoms)
}

/// Whether `k` coins of slot `i` can be part of the amount `n`.
pub open spec fn fits(denoms: Seq<usize>, n: int, i: int, k: int) -> bool {
    0 <= i < 7 && 1 <= k && denoms[i] * k <= n
}

/// The number of coins when `k` coins of slot `i` are put to the row of what
/// is then left of the amount `table.len()`.
pub open spec fn cost(table: Seq<Seq<usize>>, denoms: Seq<usize>, i: int, k: int) -> int {
    k + coins(table[table.len() - denoms[i] * k])
}

/// The slots are tried from the last to the first, and for each slot the
/// numbers of coins from 1 upwards: whether `(j, m)` is tried before `(i, k)`.
pub open spec fn tried_before(j: int, m: int, i: int, k: int) -> bool {
    j > i || (j == i && m < k)
}

/// `(i, k)` is taken rather than `(j, m)`: it needs fewer coins, or as many
/// and is not tried before it.
pub open spec fn beats(
    table: Seq<Seq<usize>>,
    denoms: Seq<usize>,
    i: int,
    k: int,
    j: int,
    m: int,
) -> bool {
    cost(table, denoms, i, k) < cost(table, denoms, j, m) || (cost(table, denoms, i, k) == cost(
        table,
        denoms,
        j,
        m,
    ) && !tried_before(i, k, j, m))
}

/// `k` coins of slot `i` are the choice for the amount `table.len()`: of all
/// that fit, the one with the fewest coins, and of several such the one
/// tried last.
pub open spec fn wins(table: Seq<Seq<usize>>, denoms: Seq<usize>, i: int, k: int) -> bool {
    &&& fits(denoms, table.len() as int, i, k)
    &&& forall|j: int, m: int| #[trigger]
        fits(denoms, table.len() as int, j, m) ==> beats(table, denoms, i, k, j, m)
}

/// The row of what is left of the amount, with `k` more coins in slot `i`.
pub open spec fn with_coins(table: Seq<Seq<usize>>, denoms: Seq<usize>, i: int, k: int) -> Seq<
    usize,
> {
    let rest = table[table.len() - denoms[i] * k];
    rest.update(i, (rest[i] + k) as usize)
}

/// The row for the amount `table.len()`, given the rows of all smaller
/// amounts: the winning choice put to the row of the rest, and no coin at
/// all where nothing fits.
pub open spec fn next_row(table: Seq<Seq<usize>>, denoms: Seq<usize>) -> Seq<usize> {
    if exists|i: int, k: int| wins(table, denoms, i, k) {
        let (i, k) = choose|i: int, k: int| wins(table, denoms, i, k);
        with_coins(table, denoms, i, k)
    } else {
        no_coins()
    }
}

/// The table grown to `n` rows; a table that has them already stays as it is.
pub open spec fn extended(table: Seq<Seq<usize>>, denoms: Seq<usize>, n: nat) -> Seq<Seq<usize>>
    decreases n,
{
    if n <= table.len() {
        table
    } else {
        let shorter = extended(table, denoms, (n - 1) as nat);
        shorter.push(next_row(shorter, denoms))
    }
}

/// Whether the denominations can be solved for: none is 0 and one is 1.
pub fn denominations_are_valid(denoms: &[usize; 7]) -> (valid: bool)
    ensures
        valid == valid_denominations(denoms@),
{
    let mut unit: bool = false;
    let mut i: usize = 0;
    while i < 7
        invariant
            i <= 7,
            forall|j: int| 0 <= j < i ==> denoms@[j] >= 1,
            unit == exists|j: int| 0 <= j < i && denoms@[j] == 1,
        decreases 7 - i,
    {
        if denoms[i] == 0 {
            return false;
        }
        if denoms[i] == 1 {
            unit = true;
        }
        i = i + 1;
    }
    unit
}

/// Whether every row of the table is worth its own index.
pub fn table_is_sound(table: &Vec<[usize; 7]>, denoms: &[usize; 7]) -> (yes: bool)
    ensures
        yes == sound(rows(table@), denoms@),
{
    let mut v: usize = 0;
    while v < table.len()
        invariant
            v <= table.len(),
            forall|u: int| 0 <= u < v ==> worth(#[trigger] rows(table@)[u], denoms@) == u,
        decreases table.len() - v,
    {
        let row: [usize; 7] = table[v];
        assert(rows(table@)[v as int] == row@);
        if !is_worth(&row, denoms, v) {
            return false;
        }
        v = v + 1;
    }
    proof {
        assert forall|u: int| 0 <= u < rows(table@).len() implies (#[trigger] rows(
            table@,
        )[u]).len() == 7 by {
            assert(rows(table@)[u] == table[u]@);
        }
    }
    true
}

/// At most one choice wins.
pub proof fn lemma_winner_is_unique(
    table: Seq<Seq<usize>>,
    denoms: Seq<usize>,
    i: int,
    k: int,
    j: int,
    m: int,
)
    requires
        wins(table, denoms, i, k),
        wins(table, denoms, j, m),
    ensures
        i == j,
        k == m,
{
}

/// A count that is worth 1 is one coin in a slot of denomination 1.
pub proof fn lemma_worth_one_is_one_unit_coin(counts: Seq<usize>, denoms: Seq<usize>)
    requires
        valid_denominations(denoms),
        counts.len() == 7,
        worth(counts, denoms) == 1,
    ensures
        coins(counts) == 1,
        exists|u: int| 0 <= u < 7 && denoms[u] == 1 && counts == no_coins().update(u, 1usize),
{
    lemma_coins_upto_at_most_worth(counts, denoms, 7);
    lemma_no_coins(denoms);
    if forall|i: int| 0 <= i < 7 ==> counts[i] == 0 {
        assert(counts =~= no_coins());
    }
    let u = choose|u: int| 0 <= u < 7 && counts[u] != 0;
    let less = counts.update(u, (counts[u] - 1) as usize);
    let c = counts[u];
    let d = denoms[u];
    lemma_worth_upto_update(counts, denoms, u, (c - 1) as usize, 7);
    lemma_coins_upto_update(counts, u, (c - 1) as usize, 7);
    lemma_coins_upto_at_most_worth(less, denoms, 7);
    lemma_coins_upto_grows(less, 0, 7);
    lemma_worth_upto_grows(less, denoms, 0, 7);
    assert((c - 1 - c) * d == -d) by (nonlinear_arith);
    assert(worth(less, denoms) == 1 - d);
    assert forall|i: int| 0 <= i < 7 implies less[i] == 0 by {
        lemma_slot_at_most_coins(less, i);
    }
    assert(less[u] == 0);
    assert forall|i: int| 0 <= i < 7 implies counts[i] == no_coins().update(u, 1usize)[i] by {
        assert(less[i] == 0);
    }
    assert(counts =~= no_coins().update(u, 1usize));
}

/// How far the search for the row of the amount `table.len()` has come when
/// `(i, k)` is the next choice to try: `found` says whether any choice that
/// fits has been tried, and if so `(bi, bk)` beats all that have.
spec fn leads(
    table: Seq<Seq<usize>>,
    denoms: Seq<usize>,
    i: int,
    k: int,
    found: bool,
    bi: int,
    bk: int,
) -> bool {
    &&& found ==> fits(denoms, table.len() as int, bi, bk)
    &&& forall|j: int, m: int| #[trigger]
        fits(denoms, table.len() as int, j, m) && tried_before(j, m, i, k) ==> found && beats(
            table,
            denoms,
            bi,
            bk,
            j,
            m,
        )
}

/// A choice that fits leaves a rest within the table, and costs no more
/// coins than the amount.
proof fn lemma_choice(table: Seq<Seq<usize>>, denoms: Seq<usize>, i: int, k: int)
    requires
        valid_denominations(denoms),
        sound(table, denoms),
        table.len() <= usize::MAX,
        fits(denoms, table.len() as int, i, k),
    ensures
        0 <= table.len() - denoms[i] * k < table.len(),
        k <= denoms[i] * k,
        coins(table[table.len() - denoms[i] * k]) <= table.len() - denoms[i] * k,
        with_coins(table, denoms, i, k).len() == 7,
        worth(with_coins(table, denoms, i, k), denoms) == table.len(),
        coins(with_coins(table, denoms, i, k)) == cost(table, denoms, i, k),
        cost(table, denoms, i, k) <= table.len(),
{
    let d = denoms[i];
    assert(k <= d * k && d * k >= 1) by (nonlinear_arith)
        requires
            d >= 1,
            k >= 1,
    ;
    let rest = table[table.len() - d * k];
    lemma_coins_upto_at_most_worth(rest, denoms, 7);
    lemma_slot_at_most_coins(rest, i);
    lemma_worth_upto_update(rest, denoms, i, (rest[i] + k) as usize, 7);
    lemma_coins_upto_update(rest, i, (rest[i] + k) as usize, 7);
    assert((rest[i] + k - rest[i]) * d == d * k) by (nonlinear_arith);
}

/// Tries all choices that come before `(i, k)`, as the search does, and
/// gives the one that leads.
proof fn lemma_scan(table: Seq<Seq<usize>>, denoms: Seq<usize>, i: int, k: int) -> (r: (
    bool,
    int,
    int,
))
    requires
        valid_denominations(denoms),
        sound(table, denoms),
        table.len() <= usize::MAX,
        -1 <= i <= 6,
        1 <= k <= table.len() + 1,
        i == -1 ==> k == 1,
    ensures
        leads(table, denoms, i, k, r.0, r.1, r.2),
    decreases 6 - i, k,
{
    let n = table.len() as int;
    if k > 1 {
        let r = lemma_scan(table, denoms, i, k - 1);
        if fits(denoms, n, i, k - 1) && (!r.0 || cost(table, denoms, i, k - 1) <= cost(
            table,
            denoms,
            r.1,
            r.2,
        )) {
            (true, i, k - 1)
        } else {
            r
        }
    } else if i >= 6 {
        (false, 0, 0)
    } else {
        let r = lemma_scan(table, denoms, i + 1, n + 1);
        assert forall|j: int, m: int| #[trigger]
            fits(denoms, n, j, m) && tried_before(j, m, i, 1) implies tried_before(
            j,
            m,
            i + 1,
            n + 1,
        ) by {
            let d = denoms[j];
            assert(m <= d * m) by (nonlinear_arith)
                requires
                    d >= 1,
                    m >= 1,
            ;
        }
        r
    }
}

/// Where the search has tried every choice, the row of the one that leads
/// is the next row; where none fits, the amount is 0 and the row is empty.
proof fn lemma_search_end(
    table: Seq<Seq<usize>>,
    denoms: Seq<usize>,
    found: bool,
    bi: int,
    bk: int,
)
    requires
        valid_denominations(denoms),
        sound(table, denoms),
        table.len() <= usize::MAX,
        leads(table, denoms, -1, 1, found, bi, bk),
    ensures
        next_row(table, denoms) == if found {
            with_coins(table, denoms, bi, bk)
        } else {
            no_coins()
        },
        next_row(table, denoms).len() == 7,
        worth(next_row(table, denoms), denoms) == table.len(),
        all_fewest(table, denoms) ==> fewest(next_row(table, denoms), denoms),
{
    if found {
        assert(wins(table, denoms, bi, bk));
        let (i, k) = choose|i: int, k: int| wins(table, denoms, i, k);
        lemma_winner_is_unique(table, denoms, i, k, bi, bk);
        lemma_choice(table, denoms, bi, bk);
        if all_fewest(table, denoms) {
            lemma_winner_has_fewest(table, denoms, bi, bk);
        }
    } else {
        lemma_no_coins(denoms);
        let u = choose|u: int| 0 <= u < 7 && denoms[u] == 1;
        if table.len() >= 1 {
            assert(fits(denoms, table.len() as int, u, table.len() as int));
        }
        assert forall|other: Seq<usize>|
            other.len() == 7 && #[trigger] worth(other, denoms) == worth(
                no_coins(),
                denoms,
            ) implies coins(no_coins()) <= coins(other) by {
            lemma_coins_upto_grows(other, 0, 7);
        }
    }
}

/// The next row of a sound table is worth the next amount, and has the
/// fewest coins for it where all rows before have the fewest for theirs.
pub proof fn lemma_next_row(table: Seq<Seq<usize>>, denoms: Seq<usize>)
    requires
        valid_denominations(denoms),
        sound(table, denoms),
        table.len() <= usize::MAX,
    ensures
        next_row(table, denoms).len() == 7,
        worth(next_row(table, denoms), denoms) == table.len(),
        all_fewest(table, denoms) ==> fewest(next_row(table, denoms), denoms),
{
    let r = lemma_scan(table, denoms, -1, 1);
    lemma_search_end(table, denoms, r.0, r.1, r.2);
}

/// A sound table that is grown stays sound, keeps the rows it had, and has
/// the fewest coins in every row where it had them before.
pub proof fn lemma_extended(table: Seq<Seq<usize>>, denoms: Seq<usize>, n: nat)
    requires
        valid_denominations(denoms),
        sound(table, denoms),
        n <= usize::MAX + 1,
        table.len() <= usize::MAX + 1,
    ensures
        extended(table, denoms, n).len() == if n <= table.len() {
            table.len()
        } else {
            n
        },
        forall|v: int| 0 <= v < table.len() ==> extended(table, denoms, n)[v] == table[v],
        sound(extended(table, denoms, n), denoms),
        all_fewest(table, denoms) ==> all_fewest(extended(table, denoms, n), denoms),
    decreases n,
{
    if n > table.len() {
        lemma_extended(table, denoms, (n - 1) as nat);
        lemma_next_row(extended(table, denoms, (n - 1) as nat), denoms);
    }
}

/// The rows of fewest coins for all amounts from 0 to `ceiling`, grown
/// from nothing.
pub open spec fn solution(denoms: Seq<usize>, ceiling: int) -> Seq<Seq<usize>> {
    extended(Seq::empty(), denoms, (ceiling + 1) as nat)
}

/// Every row of the solution is worth its amount, and no count worth as
/// much has fewer coins.
pub proof fn lemma_solution(denoms: Seq<usize>, ceiling: int)
    requires
        valid_denominations(denoms),
        0 <= ceiling < usize::MAX,
    ensures
        solution(denoms, ceiling).len() == ceiling + 1,
        sound(solution(denoms, ceiling), denoms),
        all_fewest(solution(denoms, ceiling), denoms),
{
    lemma_extended(Seq::empty(), denoms, (ceiling + 1) as nat);
}

/// The amount 1 is always made of one coin, in a slot of denomination 1.
pub proof fn lemma_amount_one(denoms: Seq<usize>, ceiling: int)
    requires
        valid_denominations(denoms),
        1 <= ceiling < usize::MAX,
    ensures
        coins(solution(denoms, ceiling)[1]) == 1,
        exists|u: int|
            0 <= u < 7 && denoms[u] == 1 && solution(denoms, ceiling)[1] == no_coins().update(
                u,
                1usize,
            ),
{
    lemma_solution(denoms, ceiling);
    lemma_worth_one_is_one_unit_coin(solution(denoms, ceiling)[1], denoms);
}

/// The row for the amount `table.len()`, from the rows of all smaller
/// amounts.
pub fn next_counts(table: &Vec<[usize; 7]>, denoms: &[usize; 7]) -> (row: [usize; 7])
    requires
        valid_denominations(denoms@),
        sound(rows(table@), denoms@),
    ensures
        row@ == next_row(rows(table@), denoms@),
        worth(row@, denoms@) == table.len(),
        all_fewest(rows(table@), denoms@) ==> fewest(row@, denoms@),
{
    let target: usize = table.len();
    let ghost prev = rows(table@);
    let ghost d = denoms@;
    let mut best: usize = target;
    let mut best_row: [usize; 7] = [0;7];
    let ghost mut found = false;
    let ghost mut bi: int = 0;
    let ghost mut bk: int = 0;
    let mut idx: usize = 7;
    assert(best_row@ =~= no_coins());
    while idx > 0
        invariant
            idx <= 7,
            target == table.len(),
            prev == rows(table@),
            d == denoms@,
            valid_denominations(d),
            sound(prev, d),
            leads(prev, d, idx - 1, 1, found, bi, bk),
            found ==> best == cost(prev, d, bi, bk) && best_row@ == with_coins(prev, d, bi, bk),
            !found ==> best == target && best_row@ == no_coins(),
        decreases idx,
    {
        idx = idx - 1;
        let v: usize = denoms[idx];
        let x_max: usize = target / v;
        let mut x: usize = 0;
        while x < x_max
            invariant
                idx < 7,
                x <= x_max,
                v == d[idx as int],
                v >= 1,
                x_max == target / v,
                target == table.len(),
                prev == rows(table@),
                d == denoms@,
                valid_denominations(d),
                sound(prev, d),
                leads(prev, d, idx as int, x + 1, found, bi, bk),
                found ==> best == cost(prev, d, bi, bk) && best_row@ == with_coins(prev, d, bi, bk),
                !found ==> best == target && best_row@ == no_coins(),
            decreases x_max - x,
        {
            x = x + 1;
            proof {
                assert(v * x <= target) by (nonlinear_arith)
                    requires
                        x <= target / v,
                        v >= 1,
                ;
                assert(fits(d, prev.len() as int, idx as int, x as int));
                lemma_choice(prev, d, idx as int, x as int);
            }
            let rest: [usize; 7] = table[target - v * x];
            assert(rest@ == prev[prev.len() - d[idx as int] * x]);
            let y: usize = coin_total(&rest);
            if x + y <= best {
                proof {
                    lemma_slot_at_most_coins(rest@, idx as int);
                }
                best = x + y;
                best_row = rest;
                let held: usize = best_row[idx];
                best_row[idx] = held + x;
                proof {
                    found = true;
                    bi = idx as int;
                    bk = x as int;
                }
            }
        }
        proof {
            assert forall|j: int, m: int| #[trigger]
                fits(d, prev.len() as int, j, m) && tried_before(
                    j,
                    m,
                    idx - 1,
                    1,
                ) implies tried_before(j, m, idx as int, x + 1) by {
                if j == idx {
                    assert(m <= target / v) by (nonlinear_arith)
                        requires
                            v * m <= target,
                            v >= 1,
                    ;
                }
            }
        }
    }
    proof {
        lemma_search_end(prev, d, found, bi, bk);
    }
    best_row
}

/// Where every row of the table has the fewest coins, so has the row that
/// the winning choice gives.
proof fn lemma_winner_has_fewest(table: Seq<Seq<usize>>, denoms: Seq<usize>, i: int, k: int)
    requires
        valid_denominations(denoms),
        sound(table, denoms),
        table.len() <= usize::MAX,
        all_fewest(table, denoms),
        wins(table, denoms, i, k),
    ensures
        fewest(with_coins(table, denoms, i, k), denoms),
{
    let n = table.len() as int;
    let row = with_coins(table, denoms, i, k);
    lemma_choice(table, denoms, i, k);
    assert forall|other: Seq<usize>|
        other.len() == 7 && #[trigger] worth(other, denoms) == worth(row, denoms) implies coins(
            row,
        ) <= coins(other) by {
        lemma_no_coins(denoms);
        if forall|s: int| 0 <= s < 7 ==> other[s] == 0 {
            assert(other =~= no_coins());
        }
        let s = choose|s: int| 0 <= s < 7 && other[s] != 0;
        let d = denoms[s];
        let c = other[s];
        lemma_slot_worth_at_most_worth(other, denoms, s);
        assert(d * 1 <= c * d) by (nonlinear_arith)
            requires
                c >= 1,
                d >= 1,
        ;
        assert(fits(denoms, n, s, 1));
        lemma_choice(table, denoms, s, 1);
        let less = other.update(s, (c - 1) as usize);
        lemma_worth_upto_update(other, denoms, s, (c - 1) as usize, 7);
        lemma_coins_upto_update(other, s, (c - 1) as usize, 7);
        assert((c - 1 - c) * d == -(d * 1)) by (nonlinear_arith);
        let rest = table[n - d * 1];
        assert(fewest(rest, denoms));
        assert(worth(less, denoms) == worth(rest, denoms));
        assert(coins(rest) <= coins(less));
        assert(beats(table, denoms, i, k, s, 1));
    }
}

/// Grows a table of fewest coins until it has a row for every amount up to
/// `t`. The rows of `precs` are kept; a table that reaches `t` already is
/// returned as it is.
pub fn disagg(t: usize, precs: &Vec<[usize; 7]>, denoms: [usize; 7]) -> (table: Vec<[usize; 7]>)
    requires
        valid_denominations(denoms@),
        sound(rows(precs@), denoms@),
        t < usize::MAX,
    ensures
        rows(table@) == extended(rows(precs@), denoms@, (t + 1) as nat),
        table.len() == if precs.len() > t {
            precs.len()
        } else {
            (t + 1) as usize
        },
        forall|v: int| 0 <= v < precs.len() ==> table[v] == precs[v],
        sound(rows(table@), denoms@),
        all_fewest(rows(precs@), denoms@) ==> all_fewest(rows(table@), denoms@),
{
    let mut table: Vec<[usize; 7]> = Vec::new();
    let mut v: usize = 0;
    while v < precs.len()
        invariant
            v <= precs.len(),
            table@ == precs@.take(v as int),
        decreases precs.len() - v,
    {
        table.push(precs[v]);
        v = v + 1;
        assert(table@ =~= precs@.take(v as int));
    }
    assert(table@ =~= precs@);
    while table.len() <= t
        invariant
            t < usize::MAX,
            valid_denominations(denoms@),
            sound(rows(table@), denoms@),
            precs.len() <= table.len(),
            table.len() <= t + 1 || table.len() == precs.len(),
            rows(table@) == extended(rows(precs@), denoms@, table.len() as nat),
            forall|v: int| 0 <= v < precs.len() ==> table[v] == precs[v],
            all_fewest(rows(precs@), denoms@) ==> all_fewest(rows(table@), denoms@),
        decreases t + 1 - table.len(),
    {
        let row: [usize; 7] = next_counts(&table, &denoms);
        let ghost before = rows(table@);
        table.push(row);
        assert(rows(table@) =~= before.push(row@));
    }
    table
}

} // verus!
