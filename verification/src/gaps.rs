//! The gaps of a row of coins that lie on a line and touch each other: how
//! wide each is, and which of two is the wider.

use crate::tally::product;
use vstd::prelude::*;

verus! {

/// A place between two neighbours in a row of coins, or between a coin at
/// an end of the row and the wall beside it.
///
/// Two coins of areas `a` and `b` that touch have their centres at a
/// distance whose fourth power is `16 * a * b`; a coin of area `r` has its
/// centre at a distance from the wall whose fourth power is `r * r`. Gaps
/// are told apart by that fourth power, which orders them as the distance
/// does.
pub struct Gap {
    /// The place in the row: the number of coins to the left of the gap.
    pub slot: usize,
    /// Whether one of the two neighbours is a wall.
    pub wall: bool,
    /// The areas of the two neighbours multiplied; at a wall, the area of
    /// the coin multiplied by itself.
    pub product: u128,
}

impl Gap {
    /// The fourth power of the distance between the centres.
    pub open spec fn key(&self) -> int {
        if self.wall {
            self.product as int
        } else {
            16 * self.product
        }
    }
}

/// The fourth power of the width of gap `j` in the row `large`.
pub open spec fn gap_key(large: Seq<usize>, j: int) -> int {
    if j <= 0 {
        large[0] * large[0]
    } else if j >= large.len() {
        large[large.len() - 1] * large[large.len() - 1]
    } else {
        16 * (large[j - 1] * large[j])
    }
}

/// Gap `j` of the row `large`: gap 0 lies at the left wall, the last at the
/// right wall, and gap `j` between them has coin `j - 1` to its left and
/// coin `j` to its right.
pub open spec fn gap_at(large: Seq<usize>, j: int) -> Gap {
    if j <= 0 {
        Gap { slot: 0, wall: true, product: (large[0] * large[0]) as u128 }
    } else if j >= large.len() {
        Gap {
            slot: j as usize,
            wall: true,
            product: (large[large.len() - 1] * large[large.len() - 1]) as u128,
        }
    } else {
        Gap { slot: j as usize, wall: false, product: (large[j - 1] * large[j]) as u128 }
    }
}

/// The fourth powers of the widths of all gaps of the row `large`, from
/// the left wall to the right wall.
pub open spec fn gap_keys(large: Seq<usize>) -> Seq<int> {
    Seq::new(large.len() + 1, |j: int| gap_key(large, j))
}

/// The keys of a list of gaps.
pub open spec fn keys_of(gaps: Seq<Gap>) -> Seq<int> {
    gaps.map_values(|g: Gap| g.key())
}

/// Gap `a` is narrower than gap `b`, or as wide and further left.
pub open spec fn precedes(keys: Seq<int>, a: int, b: int) -> bool {
    keys[a] < keys[b] || (keys[a] == keys[b] && a < b)
}

/// `order` names every gap once, each before all that it precedes.
pub open spec fn is_gap_order(keys: Seq<int>, order: Seq<usize>) -> bool {
    &&& order.len() == keys.len() <= usize::MAX
    &&& forall|p: int| 0 <= p < order.len() ==> #[trigger] order[p] < keys.len()
    &&& forall|s: usize| s < keys.len() ==> #[trigger] order.contains(s)
    &&& forall|p: int, q: int|
        0 <= p < q < order.len() ==> precedes(keys, #[trigger] order[p] as int, #[trigger] order[q] as int)
}

/// The gaps that gap `j` precedes.
pub open spec fn wider(keys: Seq<int>, j: int) -> Set<int> {
    Set::new(|s: int| 0 <= s < keys.len() && precedes(keys, j, s))
}

/// The number of gaps that gap `j` precedes: 0 for the widest.
pub open spec fn rank(keys: Seq<int>, j: int) -> nat {
    wider(keys, j).len()
}

/// In a gap order the gap at place `q` precedes exactly those after it.
pub proof fn lemma_rank_in_order(keys: Seq<int>, order: Seq<usize>, q: int)
    requires
        is_gap_order(keys, order),
        0 <= q < order.len(),
    ensures
        wider(keys, order[q] as int).finite(),
        rank(keys, order[q] as int) == order.len() - 1 - q,
    decreases order.len() - q,
{
    let here = wider(keys, order[q] as int);
    if q == order.len() - 1 {
        assert forall|s: int| !here.contains(s) by {
            if 0 <= s < keys.len() {
                assert(order.contains(s as usize));
                let p = choose|p: int| 0 <= p < order.len() && order[p] == s as usize;
                if p < q {
                    assert(precedes(keys, order[p] as int, order[q] as int));
                }
            }
        }
        assert(here =~= Set::empty());
    } else {
        lemma_rank_in_order(keys, order, q + 1);
        let next = order[q + 1] as int;
        let after = wider(keys, next);
        assert(precedes(keys, order[q] as int, next));
        assert forall|s: int| here.contains(s) == after.insert(next).contains(s) by {
            if 0 <= s < keys.len() {
                assert(order.contains(s as usize));
                let p = choose|p: int| 0 <= p < order.len() && order[p] == s as usize;
                if p < q {
                    assert(precedes(keys, order[p] as int, order[q] as int));
                } else if p > q + 1 {
                    assert(precedes(keys, order[q + 1] as int, order[p] as int));
                    assert(precedes(keys, order[q] as int, order[p] as int));
                }
            }
        }
        assert(here =~= after.insert(next));
    }
}

/// Only one order is a gap order.
pub proof fn lemma_gap_order_is_unique(keys: Seq<int>, a: Seq<usize>, b: Seq<usize>)
    requires
        is_gap_order(keys, a),
        is_gap_order(keys, b),
    ensures
        a == b,
{
    assert forall|q: int| 0 <= q < a.len() implies a[q] == b[q] by {
        assert(a.contains(b[q]));
        let p = choose|p: int| 0 <= p < a.len() && a[p] == b[q];
        lemma_rank_in_order(keys, a, p);
        lemma_rank_in_order(keys, b, q);
    }
    assert(a =~= b);
}

/// Whether gap `g` is narrower than gap `h`, or as wide and further left.
pub fn comes_before(g: &Gap, h: &Gap) -> (first: bool)
    ensures
        first == (g.key() < h.key() || (g.key() == h.key() && g.slot < h.slot)),
{
    let p: u128 = g.product;
    let q: u128 = h.product;
    if g.wall == h.wall {
        p < q || (p == q && g.slot < h.slot)
    } else if g.wall {
        p / 16 < q || (p / 16 == q && p % 16 == 0 && g.slot < h.slot)
    } else {
        if q % 16 == 0 {
            p < q / 16 || (p == q / 16 && g.slot < h.slot)
        } else {
            p <= q / 16
        }
    }
}

/// The gaps of the row `large`, from the left wall to the right wall.
pub fn gaps_between(large: &Vec<usize>) -> (gaps: Vec<Gap>)
    requires
        1 <= large.len() < usize::MAX,
    ensures
        gaps.len() == large.len() + 1,
        forall|j: int| 0 <= j < gaps.len() ==> #[trigger] gaps[j] == gap_at(large@, j),
        forall|j: int| 0 <= j < gaps.len() ==> (#[trigger] gaps[j]).slot == j,
        keys_of(gaps@) == gap_keys(large@),
{
    let n: usize = large.len();
    let mut gaps: Vec<Gap> = Vec::new();
    gaps.push(Gap { slot: 0, wall: true, product: product(large[0], large[0]) });
    let mut j: usize = 1;
    while j < n
        invariant
            1 <= j <= n,
            n == large.len(),
            gaps.len() == j,
            forall|i: int| 0 <= i < j ==> #[trigger] gaps[i] == gap_at(large@, i),
            forall|i: int| 0 <= i < j ==> (#[trigger] gaps[i]).slot == i,
            forall|i: int| 0 <= i < j ==> (#[trigger] gaps[i]).key() == gap_key(large@, i),
        decreases n - j,
    {
        gaps.push(Gap { slot: j, wall: false, product: product(large[j - 1], large[j]) });
        j = j + 1;
    }
    gaps.push(Gap { slot: n, wall: true, product: product(large[n - 1], large[n - 1]) });
    assert(keys_of(gaps@) =~= gap_keys(large@));
    gaps
}

/// The gaps in ascending order of width; gaps of one width keep their
/// order from left to right.
pub fn sort_gaps(gaps: &Vec<Gap>) -> (order: Vec<usize>)
    requires
        forall|j: int| 0 <= j < gaps.len() ==> (#[trigger] gaps[j]).slot == j,
    ensures
        is_gap_order(keys_of(gaps@), order@),
{
    let ghost keys = keys_of(gaps@);
    let mut order: Vec<usize> = Vec::new();
    let mut j: usize = 0;
    while j < gaps.len()
        invariant
            j <= gaps.len(),
            keys == keys_of(gaps@),
            forall|i: int| 0 <= i < gaps.len() ==> (#[trigger] gaps[i]).slot == i,
            order.len() == j,
            forall|p: int| 0 <= p < order.len() ==> #[trigger] order[p] < j,
            forall|s: usize| s < j ==> #[trigger] order@.contains(s),
            forall|p: int, q: int|
                0 <= p < q < order.len() ==> precedes(
                    keys,
                    #[trigger] order[p] as int,
                    #[trigger] order[q] as int,
                ),
        decreases gaps.len() - j,
    {
        let mut at: usize = 0;
        while at < order.len() && comes_before(&gaps[order[at]], &gaps[j])
            invariant
                at <= order.len(),
                j < gaps.len(),
                order.len() == j,
                keys == keys_of(gaps@),
                forall|i: int| 0 <= i < gaps.len() ==> (#[trigger] gaps[i]).slot == i,
                forall|p: int| 0 <= p < order.len() ==> #[trigger] order[p] < j,
                forall|p: int| 0 <= p < at ==> precedes(keys, #[trigger] order[p] as int, j as int),
            decreases order.len() - at,
        {
            at = at + 1;
        }
        let ghost before = order@;
        order.insert(at, j);
        proof {
            let after = order@;
            assert(after[at as int] == j);
            assert forall|p: int| 0 <= p < after.len() && p != at implies #[trigger] after[p]
                == before[if p < at {
                p
            } else {
                p - 1
            }] by {}
            if at < before.len() {
                assert(!precedes(keys, before[at as int] as int, j as int));
                assert(precedes(keys, j as int, before[at as int] as int));
            }
            assert forall|p: int, q: int| 0 <= p < q < after.len() implies precedes(
                keys,
                #[trigger] after[p] as int,
                #[trigger] after[q] as int,
            ) by {
                if p == at {
                    if q - 1 > at {
                        assert(precedes(keys, before[at as int] as int, before[q - 1] as int));
                    }
                } else if q == at {
                } else if p < at && q > at {
                    assert(precedes(keys, before[p] as int, before[q - 1] as int));
                } else if p < at {
                    assert(precedes(keys, before[p] as int, before[q] as int));
                } else {
                    assert(precedes(keys, before[p - 1] as int, before[q - 1] as int));
                }
            }
            assert forall|s: usize| s < j + 1 implies #[trigger] after.contains(s) by {
                if s == j {
                    assert(after[at as int] == s);
                } else {
                    assert(before.contains(s));
                    let p = choose|p: int| 0 <= p < before.len() && before[p] == s;
                    if p < at {
                        assert(after[p] == s);
                    } else {
                        assert(after[p + 1] == s);
                    }
                }
            }
        }
        j = j + 1;
    }
    order
}

} // verus!
