//! The search for the smallest set of denominations that needs no more
//! coins for any amount than the full set does.

use crate::coinset::{lemma_ascending_is_unique, CoinSet};
use crate::combos::{choices, combinations, lemma_choices_are_ascending, lists};
use crate::solver::{disagg, fewest, lemma_solution, solution, valid_denominations};
use crate::tally::{
    coin_total, coins, lemma_coins_upto_at_most_worth, lemma_slot_worth_at_most_worth, rows,
    worth, worth_upto,
};
use vstd::prelude::*;

verus! {

/// The largest number of coins in any of the first `n` rows.
pub open spec fn worst_upto(table: Seq<Seq<usize>>, n: int) -> int
    decreases n,
{
    if n <= 0 {
        0
    } else {
        let before = worst_upto(table, n - 1);
        if coins(table[n - 1]) > before {
            coins(table[n - 1])
        } else {
            before
        }
    }
}

/// The largest number of coins that any amount of the table needs.
pub open spec fn worst(table: Seq<Seq<usize>>) -> int {
    worst_upto(table, table.len() as int)
}

/// Whether a row counts for `count`: it has more coins where `above` is
/// set, and as many where it is not.
pub open spec fn marked(counts: Seq<usize>, count: int, above: bool) -> bool {
    if above {
        coins(counts) > count
    } else {
        coins(counts) == count
    }
}

/// The amounts from 1 up to, not including, `n` whose rows are marked.
pub open spec fn amounts_upto(table: Seq<Seq<usize>>, count: int, above: bool, n: int) -> Seq<
    usize,
>
    decreases n,
{
    if n <= 0 {
        Seq::empty()
    } else {
        let before = amounts_upto(table, count, above, n - 1);
        if n - 1 >= 1 && marked(table[n - 1], count, above) {
            before.push((n - 1) as usize)
        } else {
            before
        }
    }
}

/// The amounts of the table, from 1 on, whose rows are marked.
pub open spec fn amounts(table: Seq<Seq<usize>>, count: int, above: bool) -> Seq<usize> {
    amounts_upto(table, count, above, table.len() as int)
}

/// The denominations with `sentinel` in every slot that `picks` names.
pub open spec fn disabled(denoms: Seq<usize>, picks: Seq<usize>, sentinel: usize) -> Seq<usize> {
    Seq::new(7, |i: int| if picks.contains(i as usize) { sentinel } else { denoms[i] })
}

/// The denominations that are in use: all but `sentinel`.
pub open spec fn active(denoms: Seq<usize>, sentinel: usize) -> Set<usize> {
    denoms.to_set().remove(sentinel)
}

/// The ways to take from 1 to `most` of the slots 1 to 6, the smaller
/// numbers of slots first.
pub open spec fn picks_upto(most: nat) -> Seq<Seq<usize>>
    decreases most,
{
    if most == 0 {
        Seq::empty()
    } else {
        picks_upto((most - 1) as nat) + choices(1, 7, most)
    }
}

/// A set of denominations that was tried, and the amounts that mark it.
pub struct Trial {
    pub denoms: Seq<usize>,
    pub amounts: Seq<usize>,
}

/// A set of denominations that was tried and kept.
pub struct Candidate {
    /// The denominations, with the sentinel in the slots that are out of
    /// use.
    pub denoms: [usize; 7],
    /// The amounts that need as many coins as the worst amount does with
    /// all denominations; or, where the set needs one coin more for some
    /// amounts, those amounts.
    pub amounts: Vec<usize>,
}

impl View for Candidate {
    type V = Trial;

    open spec fn view(&self) -> Trial {
        Trial { denoms: self.denoms@, amounts: self.amounts@ }
    }
}

/// What a list of candidates holds.
pub open spec fn trials(cands: Seq<Candidate>) -> Seq<Trial> {
    cands.map_values(|c: Candidate| c@)
}

/// What the trial of the denominations with the slots of `pick` out of use
/// gives: nothing where the worst amount needs neither `baseline` coins nor
/// one more; else whether it needs one more, and the set with its amounts.
pub open spec fn trial_of(denoms: Seq<usize>, pick: Seq<usize>, ceiling: int, baseline: int) -> Option<
    (bool, Trial),
> {
    let variant = disabled(denoms, pick, (ceiling + 1) as usize);
    let table = solution(variant, ceiling);
    if worst(table) == baseline {
        Some((false, Trial { denoms: variant, amounts: amounts(table, baseline, false) }))
    } else if worst(table) == baseline + 1 {
        Some((true, Trial { denoms: variant, amounts: amounts(table, baseline, true) }))
    } else {
        None
    }
}

/// The trials of `picks`, in their order, that need `baseline` coins for
/// the worst amount; where `above` is set, those that need one more.
pub open spec fn graded(
    denoms: Seq<usize>,
    ceiling: int,
    baseline: int,
    above: bool,
    picks: Seq<Seq<usize>>,
) -> Seq<Trial>
    decreases picks.len(),
{
    if picks.len() == 0 {
        Seq::empty()
    } else {
        let before = graded(denoms, ceiling, baseline, above, picks.drop_last());
        match trial_of(denoms, picks.last(), ceiling, baseline) {
            Some((kind, trial)) => if kind == above {
                before.push(trial)
            } else {
                before
            },
            None => before,
        }
    }
}

/// The largest number of coins that any amount of the table needs.
pub fn worst_case(table: &Vec<[usize; 7]>) -> (w: usize)
    requires
        forall|v: int| 0 <= v < table.len() ==> coins(#[trigger] table[v]@) <= usize::MAX,
    ensures
        w == worst(rows(table@)),
{
    let mut w: usize = 0;
    let mut v: usize = 0;
    while v < table.len()
        invariant
            v <= table.len(),
            w == worst_upto(rows(table@), v as int),
            forall|v: int| 0 <= v < table.len() ==> coins(#[trigger] table[v]@) <= usize::MAX,
        decreases table.len() - v,
    {
        assert(rows(table@)[v as int] == table[v as int]@);
        let row: [usize; 7] = table[v];
        let c: usize = coin_total(&row);
        if c > w {
            w = c;
        }
        v = v + 1;
    }
    w
}

/// The amounts of the table, from 1 on, that need `count` coins; where
/// `above` is set, those that need more.
pub fn amounts_with(table: &Vec<[usize; 7]>, count: usize, above: bool) -> (out: Vec<usize>)
    requires
        forall|v: int| 0 <= v < table.len() ==> coins(#[trigger] table[v]@) <= usize::MAX,
    ensures
        out@ == amounts(rows(table@), count as int, above),
{
    let mut out: Vec<usize> = Vec::new();
    let mut v: usize = 0;
    while v < table.len()
        invariant
            v <= table.len(),
            out@ == amounts_upto(rows(table@), count as int, above, v as int),
            forall|v: int| 0 <= v < table.len() ==> coins(#[trigger] table[v]@) <= usize::MAX,
        decreases table.len() - v,
    {
        assert(rows(table@)[v as int] == table[v as int]@);
        let row: [usize; 7] = table[v];
        let c: usize = coin_total(&row);
        if v >= 1 && ((above && c > count) || (!above && c == count)) {
            out.push(v);
        }
        v = v + 1;
    }
    out
}

/// Puts `sentinel` into every slot that `picks` names.
pub fn disable(denoms: [usize; 7], picks: &Vec<usize>, sentinel: usize) -> (out: [usize; 7])
    ensures
        out@ == disabled(denoms@, picks@, sentinel),
{
    let mut out: [usize; 7] = denoms;
    let mut p: usize = 0;
    assert(out@ =~= disabled(denoms@, picks@.take(0), sentinel));
    while p < picks.len()
        invariant
            p <= picks.len(),
            out@ == disabled(denoms@, picks@.take(p as int), sentinel),
        decreases picks.len() - p,
    {
        let slot: usize = picks[p];
        let ghost before = picks@.take(p as int);
        let ghost now = picks@.take(p + 1);
        if slot < 7 {
            out[slot] = sentinel;
        }
        proof {
            assert(now =~= before.push(slot));
            assert forall|i: int| 0 <= i < 7 implies out@[i] == disabled(denoms@, now, sentinel)[i] by {
                if before.contains(i as usize) {
                    let q = choose|q: int| 0 <= q < before.len() && before[q] == i as usize;
                    assert(now[q] == i as usize);
                }
                if now.contains(i as usize) {
                    let q = choose|q: int| 0 <= q < now.len() && now[q] == i as usize;
                    if q < p {
                        assert(before[q] == i as usize);
                    }
                }
                if i == slot {
                    assert(now[p as int] == slot);
                }
            }
            assert(out@ =~= disabled(denoms@, now, sentinel));
        }
        p = p + 1;
    }
    assert(picks@.take(p as int) =~= picks@);
    out
}

/// The set of the denominations that are in use.
pub fn active_coins(denoms: &[usize; 7], sentinel: usize) -> (s: CoinSet)
    ensures
        s.wf(),
        s@.to_set() == active(denoms@, sentinel),
        s@.len() == active(denoms@, sentinel).len(),
{
    let mut s: CoinSet = CoinSet::new();
    let mut i: usize = 0;
    assert(s@.to_set() =~= denoms@.take(0).to_set().remove(sentinel));
    while i < 7
        invariant
            i <= 7,
            s.wf(),
            s@.to_set() == denoms@.take(i as int).to_set().remove(sentinel),
        decreases 7 - i,
    {
        let d: usize = denoms[i];
        let ghost before = denoms@.take(i as int);
        let ghost now = denoms@.take(i + 1);
        if d != sentinel {
            s.insert(d);
        }
        proof {
            assert(now =~= before.push(d));
            assert forall|x: usize| now.to_set().contains(x) == before.to_set().insert(d).contains(
                x,
            ) by {
                if before.contains(x) {
                    let q = choose|q: int| 0 <= q < before.len() && before[q] == x;
                    assert(now[q] == x);
                }
                if now.contains(x) {
                    let q = choose|q: int| 0 <= q < now.len() && now[q] == x;
                    if q < i {
                        assert(before[q] == x);
                    }
                }
                if x == d {
                    assert(now[i as int] == x);
                }
            }
            assert(now.to_set() =~= before.to_set().insert(d));
            assert(s@.to_set() =~= now.to_set().remove(sentinel));
        }
        i = i + 1;
    }
    proof {
        assert(denoms@.take(7) =~= denoms@);
        assert forall|p: int, q: int| 0 <= p < s@.len() && 0 <= q < s@.len() && p != q implies s@[p]
            != s@[q] by {
            if p < q {
                assert(s@[p] < s@[q]);
            } else {
                assert(s@[q] < s@[p]);
            }
        }
        s@.unique_seq_to_set();
    }
    s
}

/// Tries the denominations with the slots of `pick` out of use: solves all
/// amounts up to `ceiling`, and keeps the set where the worst amount needs
/// `baseline` coins or one more.
pub fn assess(denoms: [usize; 7], pick: &Vec<usize>, ceiling: usize, baseline: usize) -> (out:
    Option<(bool, Candidate)>)
    requires
        ceiling < usize::MAX,
        valid_denominations(disabled(denoms@, pick@, (ceiling + 1) as usize)),
    ensures
        match out {
            Some((kind, c)) => trial_of(denoms@, pick@, ceiling as int, baseline as int) == Some(
                (kind, c@),
            ),
            None => trial_of(denoms@, pick@, ceiling as int, baseline as int) is None,
        },
{
    let variant: [usize; 7] = disable(denoms, pick, ceiling + 1);
    let seed: Vec<[usize; 7]> = Vec::new();
    assert(rows(seed@) =~= Seq::<Seq<usize>>::empty());
    let table: Vec<[usize; 7]> = disagg(ceiling, &seed, variant);
    proof {
        assert forall|v: int| 0 <= v < table.len() implies coins(#[trigger] table[v]@)
            <= usize::MAX by {
            assert(rows(table@)[v] == table[v]@);
            lemma_coins_upto_at_most_worth(table[v]@, variant@, 7);
        }
    }
    let w: usize = worst_case(&table);
    if w == baseline {
        Some((false, Candidate { denoms: variant, amounts: amounts_with(&table, baseline, false) }))
    } else if w > baseline && w - 1 == baseline {
        Some((true, Candidate { denoms: variant, amounts: amounts_with(&table, baseline, true) }))
    } else {
        None
    }
}

/// The ways to take from 1 to 5 of the slots 1 to 6.
pub fn removable_slots() -> (out: Vec<Vec<usize>>)
    ensures
        lists(out@) == picks_upto(5),
        forall|n: int, p: int|
            0 <= n < out.len() && 0 <= p < out[n].len() ==> 1 <= #[trigger] out[n][p] < 7,
{
    let mut out: Vec<Vec<usize>> = Vec::new();
    let mut k: usize = 1;
    assert(lists(out@) =~= picks_upto(0));
    while k <= 5
        invariant
            1 <= k <= 6,
            lists(out@) == picks_upto((k - 1) as nat),
            forall|n: int, p: int|
                0 <= n < out.len() && 0 <= p < out[n].len() ==> 1 <= #[trigger] out[n][p] < 7,
        decreases 6 - k,
    {
        let mut more: Vec<Vec<usize>> = combinations(1, 7, k);
        let ghost had = out@;
        let ghost new = more@;
        proof {
            assert forall|n: int, p: int| 0 <= n < new.len() && 0 <= p < new[n].len() implies 1
                <= #[trigger] new[n][p] < 7 by {
                assert(lists(new)[n] == new[n]@);
                lemma_choices_are_ascending(1, 7, k as nat, n);
            }
        }
        out.append(&mut more);
        assert(lists(out@) =~= lists(had) + lists(new));
        k = k + 1;
    }
    out
}

/// The number of denominations that a trial has in use.
pub open spec fn size(t: Trial, sentinel: usize) -> nat {
    active(t.denoms, sentinel).len()
}

/// Trial `a` is to be chosen rather than `b`: it has fewer denominations in
/// use, or as many and fewer amounts.
pub open spec fn better(a: Trial, b: Trial, sentinel: usize) -> bool {
    size(a, sentinel) < size(b, sentinel) || (size(a, sentinel) == size(b, sentinel)
        && a.amounts.len() < b.amounts.len())
}

/// Candidate `i` is the choice: none is better, and it is the first such.
pub open spec fn is_selected(cands: Seq<Trial>, sentinel: usize, i: int) -> bool {
    &&& 0 <= i < cands.len()
    &&& forall|j: int| 0 <= j < cands.len() ==> !better(#[trigger] cands[j], cands[i], sentinel)
    &&& forall|j: int| 0 <= j < i ==> better(cands[i], #[trigger] cands[j], sentinel)
}

/// Removing `d` from the chosen denominations gives those of the trial,
/// which then needs one coin more for exactly two amounts.
pub open spec fn drops(selected: Set<usize>, t: Trial, sentinel: usize, d: usize) -> bool {
    &&& selected.contains(d)
    &&& active(t.denoms, sentinel) == selected.remove(d)
    &&& t.amounts.len() == 2
}

/// A denomination that cannot be removed for less than two amounts: what
/// is left when it is dropped, and the two amounts.
pub struct Loss {
    pub dropped: usize,
    pub allowed: Set<usize>,
    pub amounts: Seq<usize>,
}

/// A denomination of the chosen set whose removal costs one coin more for
/// exactly two amounts.
pub struct Removal {
    /// The denomination that is dropped.
    pub dropped: usize,
    /// The denominations that are left.
    pub allowed: CoinSet,
    /// The two amounts that then need one coin more.
    pub amounts: Vec<usize>,
}

impl View for Removal {
    type V = Loss;

    open spec fn view(&self) -> Loss {
        Loss { dropped: self.dropped, allowed: self.allowed@.to_set(), amounts: self.amounts@ }
    }
}

/// What a list of removals holds.
pub open spec fn losses(rs: Seq<Removal>) -> Seq<Loss> {
    rs.map_values(|r: Removal| r@)
}

/// The trials of `near`, in their order, that drop one denomination of
/// `selected`, each with the denomination it drops.
pub open spec fn removals(selected: Set<usize>, near: Seq<Trial>, sentinel: usize) -> Seq<Loss>
    decreases near.len(),
{
    if near.len() == 0 {
        Seq::empty()
    } else {
        let before = removals(selected, near.drop_last(), sentinel);
        let t = near.last();
        if exists|d: usize| drops(selected, t, sentinel, d) {
            before.push(
                Loss {
                    dropped: choose|d: usize| drops(selected, t, sentinel, d),
                    allowed: active(t.denoms, sentinel),
                    amounts: t.amounts,
                },
            )
        } else {
            before
        }
    }
}

/// What the search has found.
pub struct Findings {
    /// The number of coins that the worst amount needs with all
    /// denominations.
    pub baseline: usize,
    /// The sets that need no more coins for any amount, each with the
    /// amounts that need exactly `baseline` coins.
    pub keeping: Vec<Candidate>,
    /// The sets that need one coin more for the worst amount, each with
    /// the amounts that need more than `baseline` coins.
    pub near: Vec<Candidate>,
    /// The place in `keeping` of the set that is chosen, if there is any.
    pub selected: Option<usize>,
    /// The denominations of the chosen set whose removal costs one coin
    /// more for exactly two amounts.
    pub critical: Vec<Removal>,
}

/// `found` is what the search gives for `denoms` and `ceiling`.
pub open spec fn is_result(denoms: Seq<usize>, ceiling: int, found: Findings) -> bool {
    let sentinel = (ceiling + 1) as usize;
    let baseline = worst(solution(denoms, ceiling));
    &&& found.baseline == baseline
    &&& trials(found.keeping@) == graded(denoms, ceiling, baseline, false, picks_upto(5))
    &&& trials(found.near@) == graded(denoms, ceiling, baseline, true, picks_upto(5))
    &&& match found.selected {
        Some(i) => {
            &&& is_selected(trials(found.keeping@), sentinel, i as int)
            &&& losses(found.critical@) == removals(
                active(found.keeping[i as int].denoms@, sentinel),
                trials(found.near@),
                sentinel,
            )
        },
        None => found.keeping.len() == 0 && found.critical.len() == 0,
    }
    &&& forall|r: int| 0 <= r < found.critical.len() ==> (#[trigger] found.critical[r]).allowed.wf()
}

/// The candidate with the fewest denominations in use and, among those
/// with as few, the fewest amounts; the first of several such.
pub fn select_minimal(cands: &Vec<Candidate>, sentinel: usize) -> (pick: Option<usize>)
    ensures
        match pick {
            Some(i) => is_selected(trials(cands@), sentinel, i as int),
            None => cands.len() == 0,
        },
{
    if cands.len() == 0 {
        return None;
    }
    let ghost all = trials(cands@);
    let mut best: usize = 0;
    let mut best_size: usize = active_coins(&cands[0].denoms, sentinel).len();
    let mut best_marks: usize = cands[0].amounts.len();
    let mut j: usize = 1;
    while j < cands.len()
        invariant
            1 <= j <= cands.len(),
            best < j,
            all == trials(cands@),
            best_size == size(all[best as int], sentinel),
            best_marks == all[best as int].amounts.len(),
            forall|h: int| 0 <= h < j ==> !better(#[trigger] all[h], all[best as int], sentinel),
            forall|h: int| 0 <= h < best ==> better(all[best as int], #[trigger] all[h], sentinel),
        decreases cands.len() - j,
    {
        let here: usize = active_coins(&cands[j].denoms, sentinel).len();
        let marks: usize = cands[j].amounts.len();
        assert(all[j as int] == cands[j as int]@);
        if here < best_size || (here == best_size && marks < best_marks) {
            best = j;
            best_size = here;
            best_marks = marks;
        }
        j = j + 1;
    }
    Some(best)
}

/// A list with the same numbers.
fn copy_of(v: &Vec<usize>) -> (out: Vec<usize>)
    ensures
        out@ == v@,
{
    let mut out: Vec<usize> = Vec::new();
    let mut i: usize = 0;
    while i < v.len()
        invariant
            i <= v.len(),
            out@ == v@.take(i as int),
        decreases v.len() - i,
    {
        out.push(v[i]);
        i = i + 1;
        assert(out@ =~= v@.take(i as int));
    }
    assert(v@.take(i as int) =~= v@);
    out
}

/// At most one denomination is dropped by a trial.
pub proof fn lemma_dropped_is_unique(
    selected: Set<usize>,
    t: Trial,
    sentinel: usize,
    d: usize,
    e: usize,
)
    requires
        drops(selected, t, sentinel, d),
        drops(selected, t, sentinel, e),
    ensures
        d == e,
{
    assert(!selected.remove(d).contains(d));
}

/// The sets of `near` that are the chosen set less one denomination and
/// need one coin more for exactly two amounts.
pub fn critical_removals(selected: &CoinSet, near: &Vec<Candidate>, sentinel: usize) -> (out: Vec<
    Removal,
>)
    requires
        selected.wf(),
    ensures
        losses(out@) == removals(selected@.to_set(), trials(near@), sentinel),
        forall|r: int| 0 <= r < out.len() ==> (#[trigger] out[r]).allowed.wf(),
{
    let ghost chosen = selected@.to_set();
    let mut out: Vec<Removal> = Vec::new();
    let mut n: usize = 0;
    assert(trials(near@).take(0) =~= Seq::<Trial>::empty());
    assert(losses(out@) =~= Seq::<Loss>::empty());
    while n < near.len()
        invariant
            n <= near.len(),
            selected.wf(),
            chosen == selected@.to_set(),
            losses(out@) == removals(chosen, trials(near@).take(n as int), sentinel),
            forall|r: int| 0 <= r < out.len() ==> (#[trigger] out[r]).allowed.wf(),
        decreases near.len() - n,
    {
        let left: CoinSet = active_coins(&near[n].denoms, sentinel);
        let gone: CoinSet = selected.minus(&left);
        let extra: CoinSet = left.minus(selected);
        let ghost t = near[n as int]@;
        let ghost had = out@;
        let ghost now = trials(near@).take(n + 1);
        proof {
            assert(now.drop_last() =~= trials(near@).take(n as int));
            assert(now.last() == t);
        }
        if gone.len() == 1 && extra.len() == 0 && near[n].amounts.len() == 2 {
            let d: usize = gone.get(0);
            proof {
                assert(gone@.contains(d));
                assert(gone@.to_set().contains(d));
                assert forall|x: usize| active(t.denoms, sentinel).contains(x) == chosen.remove(
                    d,
                ).contains(x) by {
                    if left@.to_set().contains(x) && !chosen.contains(x) {
                        assert(extra@.to_set().contains(x));
                        assert(extra@.contains(x));
                    }
                    if chosen.contains(x) && !left@.to_set().contains(x) {
                        assert(gone@.to_set().contains(x));
                        assert(gone@.contains(x));
                        let q = choose|q: int| 0 <= q < gone@.len() && gone@[q] == x;
                    }
                }
                assert(active(t.denoms, sentinel) =~= chosen.remove(d));
                assert(drops(chosen, t, sentinel, d));
                let e = choose|e: usize| drops(chosen, t, sentinel, e);
                lemma_dropped_is_unique(chosen, t, sentinel, d, e);
            }
            let r: Removal = Removal { dropped: d, allowed: left, amounts: copy_of(&near[n].amounts) };
            out.push(r);
            assert(losses(out@) =~= losses(had).push(r@));
        } else {
            proof {
                if exists|e: usize| drops(chosen, t, sentinel, e) {
                    let e = choose|e: usize| drops(chosen, t, sentinel, e);
                    assert(gone@.to_set() =~= set![e]);
                    assert(seq![e].to_set() =~= set![e]) by {
                        assert(seq![e][0] == e);
                    }
                    lemma_ascending_is_unique(gone@, seq![e]);
                    if extra@.len() > 0 {
                        assert(extra@.contains(extra@[0]));
                        assert(extra@.to_set().contains(extra@[0]));
                    }
                }
            }
        }
        n = n + 1;
    }
    assert(trials(near@).take(n as int) =~= trials(near@));
    out
}

/// Solves all amounts up to `ceiling` with all denominations, tries every
/// way to put from 1 to 5 of the slots 1 to 6 out of use, and chooses among
/// the sets that need no more coins for the worst amount.
pub fn subset_search(denoms: [usize; 7], ceiling: usize) -> (found: Findings)
    requires
        valid_denominations(denoms@),
        denoms@[0] == 1,
        ceiling < usize::MAX,
    ensures
        is_result(denoms@, ceiling as int, found),
{
    let sentinel: usize = ceiling + 1;
    let seed: Vec<[usize; 7]> = Vec::new();
    assert(rows(seed@) =~= Seq::<Seq<usize>>::empty());
    let table: Vec<[usize; 7]> = disagg(ceiling, &seed, denoms);
    proof {
        assert forall|v: int| 0 <= v < table.len() implies coins(#[trigger] table[v]@)
            <= usize::MAX by {
            assert(rows(table@)[v] == table[v]@);
            lemma_coins_upto_at_most_worth(table[v]@, denoms@, 7);
        }
    }
    let baseline: usize = worst_case(&table);
    let picks: Vec<Vec<usize>> = removable_slots();
    let ghost all = lists(picks@);
    let mut keeping: Vec<Candidate> = Vec::new();
    let mut near: Vec<Candidate> = Vec::new();
    let mut n: usize = 0;
    proof {
        assert(all.take(0) =~= Seq::<Seq<usize>>::empty());
        assert(trials(keeping@) =~= Seq::<Trial>::empty());
        assert(trials(near@) =~= Seq::<Trial>::empty());
    }
    while n < picks.len()
        invariant
            n <= picks.len(),
            all == lists(picks@),
            sentinel == ceiling + 1,
            valid_denominations(denoms@),
            denoms@[0] == 1,
            forall|n: int, p: int|
                0 <= n < picks.len() && 0 <= p < picks[n].len() ==> 1 <= #[trigger] picks[n][p] < 7,
            trials(keeping@) == graded(
                denoms@,
                ceiling as int,
                baseline as int,
                false,
                all.take(n as int),
            ),
            trials(near@) == graded(
                denoms@,
                ceiling as int,
                baseline as int,
                true,
                all.take(n as int),
            ),
        decreases picks.len() - n,
    {
        let ghost kept = keeping@;
        let ghost nearly = near@;
        proof {
            let variant = disabled(denoms@, picks[n as int]@, sentinel);
            if picks[n as int]@.contains(0usize) {
                let p = choose|p: int| 0 <= p < picks[n as int]@.len() && picks[n as int]@[p] == 0;
                assert(1 <= picks[n as int][p]);
            }
            assert(variant[0] == 1);
            assert(all.take(n + 1).drop_last() =~= all.take(n as int));
            assert(all.take(n + 1).last() == picks[n as int]@);
        }
        match assess(denoms, &picks[n], ceiling, baseline) {
            Some((above, c)) => {
                if above {
                    near.push(c);
                    assert(trials(near@) =~= trials(nearly).push(c@));
                } else {
                    keeping.push(c);
                    assert(trials(keeping@) =~= trials(kept).push(c@));
                }
            },
            None => {},
        }
        n = n + 1;
    }
    assert(all.take(n as int) =~= all);
    let selected: Option<usize> = select_minimal(&keeping, sentinel);
    let critical: Vec<Removal> = match selected {
        Some(i) => {
            let chosen: CoinSet = active_coins(&keeping[i].denoms, sentinel);
            critical_removals(&chosen, &near, sentinel)
        },
        None => Vec::new(),
    };
    Findings { baseline, keeping, near, selected, critical }
}

/// Two runs of the search on the same denominations and ceiling find the
/// same.
pub proof fn lemma_search_is_determined(denoms: Seq<usize>, ceiling: int, a: Findings, b: Findings)
    requires
        is_result(denoms, ceiling, a),
        is_result(denoms, ceiling, b),
    ensures
        a.baseline == b.baseline,
        trials(a.keeping@) == trials(b.keeping@),
        trials(a.near@) == trials(b.near@),
        a.selected == b.selected,
        losses(a.critical@) == losses(b.critical@),
{
    let sentinel = (ceiling + 1) as usize;
    let kept = trials(a.keeping@);
    assert(a.keeping.len() == kept.len());
    assert(b.keeping.len() == kept.len());
    match (a.selected, b.selected) {
        (Some(i), Some(j)) => {
            if i < j {
                assert(better(kept[j as int], kept[i as int], sentinel));
            } else if j < i {
                assert(better(kept[i as int], kept[j as int], sentinel));
            }
            assert(kept[i as int].denoms == a.keeping[i as int].denoms@);
            assert(kept[i as int].denoms == b.keeping[i as int].denoms@);
        },
        (None, None) => {
            assert(losses(a.critical@) =~= losses(b.critical@));
        },
        _ => {},
    }
}

/// Counts whose slots are worth the same under two sets of denominations
/// are worth the same.
proof fn lemma_same_worth(counts: Seq<usize>, d: Seq<usize>, e: Seq<usize>, n: int)
    requires
        forall|i: int| 0 <= i < n ==> counts[i] * d[i] == counts[i] * e[i],
    ensures
        worth_upto(counts, d, n) == worth_upto(counts, e, n),
    decreases n,
{
    if n > 0 {
        lemma_same_worth(counts, d, e, n - 1);
    }
}

/// Rows that need no fewer coins, one by one, need no fewer at worst.
proof fn lemma_worst_upto_grows(a: Seq<Seq<usize>>, b: Seq<Seq<usize>>, n: int)
    requires
        forall|v: int| 0 <= v < n ==> coins(#[trigger] a[v]) <= coins(b[v]),
    ensures
        worst_upto(a, n) <= worst_upto(b, n),
    decreases n,
{
    if n > 0 {
        lemma_worst_upto_grows(a, b, n - 1);
        assert(coins(a[n - 1]) <= coins(b[n - 1]));
    }
}

/// With fewer denominations the worst amount needs no fewer coins: where
/// every denomination of `fewer` is that of `denoms` in the same slot or
/// larger than `ceiling`, the worst amount up to `ceiling` needs at least as
/// many coins under `fewer` as under `denoms`.
pub proof fn lemma_fewer_denominations_need_no_fewer_coins(
    denoms: Seq<usize>,
    fewer: Seq<usize>,
    ceiling: int,
)
    requires
        valid_denominations(denoms),
        valid_denominations(fewer),
        0 <= ceiling < usize::MAX,
        forall|i: int| 0 <= i < 7 ==> fewer[i] == denoms[i] || fewer[i] > ceiling,
    ensures
        worst(solution(denoms, ceiling)) <= worst(solution(fewer, ceiling)),
{
    let a = solution(denoms, ceiling);
    let b = solution(fewer, ceiling);
    lemma_solution(denoms, ceiling);
    lemma_solution(fewer, ceiling);
    assert forall|v: int| 0 <= v < ceiling + 1 implies coins(#[trigger] a[v]) <= coins(b[v]) by {
        let row = b[v];
        assert forall|i: int| 0 <= i < 7 implies row[i] * denoms[i] == row[i] * fewer[i] by {
            if fewer[i] != denoms[i] {
                lemma_slot_worth_at_most_worth(row, fewer, i);
                let c = row[i];
                let f = fewer[i];
                assert(c == 0) by (nonlinear_arith)
                    requires
                        c * f <= v,
                        v < f,
                        c >= 0,
                ;
                assert(row[i] * denoms[i] == 0 && row[i] * fewer[i] == 0) by (nonlinear_arith)
                    requires
                        row[i] == 0,
                ;
            }
        }
        lemma_same_worth(row, denoms, fewer, 7);
        assert(worth(row, denoms) == worth(a[v], denoms));
        assert(fewest(a[v], denoms));
    }
    lemma_worst_upto_grows(a, b, ceiling + 1);
}

/// Putting denominations out of use never lowers the number of coins that
/// the worst amount needs.
pub proof fn lemma_disabling_never_helps(denoms: Seq<usize>, pick: Seq<usize>, ceiling: int)
    requires
        valid_denominations(denoms),
        0 <= ceiling < usize::MAX,
        valid_denominations(disabled(denoms, pick, (ceiling + 1) as usize)),
    ensures
        worst(solution(denoms, ceiling)) <= worst(
            solution(disabled(denoms, pick, (ceiling + 1) as usize), ceiling),
        ),
{
    lemma_fewer_denominations_need_no_fewer_coins(
        denoms,
        disabled(denoms, pick, (ceiling + 1) as usize),
        ceiling,
    );
}

} // verus!
