//! A set of coins, each known by its area, kept in ascending order.

use vstd::prelude::*;

verus! {

/// Every number is smaller than all that follow it.
pub open spec fn strictly_ascending(s: Seq<usize>) -> bool {
    forall|p: int, q: int| 0 <= p < q < s.len() ==> s[p] < s[q]
}

/// Two ascending lists that hold the same numbers are the same list.
pub proof fn lemma_ascending_is_unique(s: Seq<usize>, t: Seq<usize>)
    requires
        strictly_ascending(s),
        strictly_ascending(t),
        s.to_set() == t.to_set(),
    ensures
        s == t,
    decreases s.len(),
{
    s.unique_seq_to_set();
    t.unique_seq_to_set();
    if s.len() > 0 {
        let a = s.last();
        let b = t.last();
        assert(s.contains(a));
        assert(t.contains(b));
        assert(t.to_set().contains(a));
        assert(s.to_set().contains(b));
        let p = choose|p: int| 0 <= p < t.len() && t[p] == a;
        let q = choose|q: int| 0 <= q < s.len() && s[q] == b;
        assert(a == b);
        let s0 = s.drop_last();
        let t0 = t.drop_last();
        assert forall|x: usize| s0.to_set().contains(x) == t0.to_set().contains(x) by {
            if s0.contains(x) {
                let i = choose|i: int| 0 <= i < s0.len() && s0[i] == x;
                assert(s[i] == x);
                assert(s.contains(x));
                assert(t.to_set().contains(x));
                let j = choose|j: int| 0 <= j < t.len() && t[j] == x;
                assert(t0[j] == x);
            }
            if t0.contains(x) {
                let i = choose|i: int| 0 <= i < t0.len() && t0[i] == x;
                assert(t[i] == x);
                assert(t.contains(x));
                assert(s.to_set().contains(x));
                let j = choose|j: int| 0 <= j < s.len() && s[j] == x;
                assert(s0[j] == x);
            }
        }
        assert(s0.to_set() =~= t0.to_set());
        lemma_ascending_is_unique(s0, t0);
        assert(s =~= s0.push(a));
        assert(t =~= t0.push(b));
    } else {
        assert(s =~= t);
    }
}

/// A set of coin areas.
pub struct CoinSet {
    items: Vec<usize>,
}

impl View for CoinSet {
    type V = Seq<usize>;

    /// The areas from the smallest to the largest.
    closed spec fn view(&self) -> Seq<usize> {
        self.items@
    }
}

impl CoinSet {
    /// The areas stand in ascending order, none of them twice.
    pub open spec fn wf(&self) -> bool {
        strictly_ascending(self@)
    }

    /// The set without any coin.
    pub fn new() -> (s: Self)
        ensures
            s.wf(),
            s@ == Seq::<usize>::empty(),
    {
        CoinSet { items: Vec::new() }
    }

    /// The number of coins.
    pub fn len(&self) -> (n: usize)
        ensures
            n == self@.len(),
    {
        self.items.len()
    }

    /// The coin at place `i`, counted from the smallest.
    pub fn get(&self, i: usize) -> (a: usize)
        requires
            i < self@.len(),
        ensures
            a == self@[i as int],
    {
        self.items[i]
    }

    /// The areas from the smallest to the largest.
    pub fn to_vec(&self) -> (v: Vec<usize>)
        ensures
            v@ == self@,
    {
        let mut v: Vec<usize> = Vec::new();
        let mut i: usize = 0;
        while i < self.items.len()
            invariant
                i <= self.items.len(),
                v@ == self.items@.take(i as int),
            decreases self.items.len() - i,
        {
            v.push(self.items[i]);
            i = i + 1;
            assert(v@ =~= self.items@.take(i as int));
        }
        assert(self.items@.take(i as int) =~= self.items@);
        v
    }

    /// Whether a coin of area `a` is in the set.
    pub fn contains(&self, a: usize) -> (found: bool)
        ensures
            found == self@.contains(a),
    {
        let mut i: usize = 0;
        while i < self.items.len()
            invariant
                i <= self.items.len(),
                forall|q: int| 0 <= q < i ==> self.items@[q] != a,
            decreases self.items.len() - i,
        {
            if self.items[i] == a {
                return true;
            }
            i = i + 1;
        }
        false
    }

    /// Puts a coin of area `a` into the set, and says whether it was new.
    pub fn insert(&mut self, a: usize) -> (added: bool)
        requires
            old(self).wf(),
        ensures
            final(self).wf(),
            final(self)@.to_set() == old(self)@.to_set().insert(a),
            added == !old(self)@.contains(a),
            final(self)@.len() == old(self)@.len() + if added {
                1int
            } else {
                0int
            },
    {
        let ghost before = self.items@;
        let mut pos: usize = 0;
        while pos < self.items.len() && self.items[pos] < a
            invariant
                pos <= self.items.len(),
                self.items@ == before,
                forall|q: int| 0 <= q < pos ==> before[q] < a,
            decreases self.items.len() - pos,
        {
            pos = pos + 1;
        }
        if pos < self.items.len() && self.items[pos] == a {
            assert(before.contains(a));
            assert(before.to_set() =~= before.to_set().insert(a));
            return false;
        }
        assert forall|q: int| 0 <= q < before.len() implies before[q] != a by {
            if q > pos {
                assert(before[pos as int] < before[q]);
            }
        }
        self.items.insert(pos, a);
        proof {
            let after = self.items@;
            assert(after == before.insert(pos as int, a));
            assert(after.len() == before.len() + 1);
            assert(after[pos as int] == a);
            assert forall|q: int| 0 <= q < after.len() && q != pos implies after[q] == before[if q
                < pos {
                q
            } else {
                q - 1
            }] by {}
            assert forall|p: int, q: int| 0 <= p < q < after.len() implies after[p] < after[q] by {
                if q > pos && p != pos {
                    if p < pos && q - 1 == pos {
                    } else if p < pos {
                        assert(before[p] < before[q - 1]);
                    } else {
                        assert(before[p - 1] < before[q - 1]);
                    }
                } else if p == pos {
                    if q - 1 > pos {
                        assert(before[pos as int] < before[q - 1]);
                    }
                }
            }
            assert forall|x: usize| after.to_set().contains(x) == before.to_set().insert(
                a,
            ).contains(x) by {
                if after.contains(x) {
                    let q = choose|q: int| 0 <= q < after.len() && after[q] == x;
                    if q != pos {
                        assert(before.contains(x));
                    }
                }
                if before.contains(x) {
                    let q = choose|q: int| 0 <= q < before.len() && before[q] == x;
                    if q < pos {
                        assert(after[q] == x);
                    } else {
                        assert(after[q + 1] == x);
                    }
                }
                if x == a {
                    assert(after[pos as int] == x);
                }
            }
            assert(after.to_set() =~= before.to_set().insert(a));
        }
        true
    }

    /// The coins of this set that are not in `other`.
    pub fn minus(&self, other: &CoinSet) -> (rest: CoinSet)
        requires
            self.wf(),
        ensures
            rest.wf(),
            rest@.to_set() == self@.to_set().difference(other@.to_set()),
    {
        let mut out: Vec<usize> = Vec::new();
        let mut i: usize = 0;
        while i < self.items.len()
            invariant
                i <= self.items.len(),
                self.wf(),
                strictly_ascending(out@),
                forall|x: usize|
                    out@.contains(x) <==> (self@.take(i as int).contains(x) && !other@.contains(
                        x,
                    )),
            decreases self.items.len() - i,
        {
            let a: usize = self.items[i];
            let ghost before = out@;
            let ghost seen = self@.take(i as int);
            let keep: bool = !other.contains(a);
            if keep {
                out.push(a);
            }
            proof {
                let now = self@.take(i + 1);
                assert(now =~= seen.push(a));
                assert forall|p: int| 0 <= p < before.len() implies before[p] < a by {
                    assert(before.contains(before[p]));
                    let q = choose|q: int| 0 <= q < seen.len() && seen[q] == before[p];
                    assert(self@[q] < self@[i as int]);
                }
                assert forall|x: usize|
                    out@.contains(x) <==> (now.contains(x) && !other@.contains(x)) by {
                    if out@.contains(x) {
                        let p = choose|p: int| 0 <= p < out@.len() && out@[p] == x;
                        if p < before.len() {
                            assert(before.contains(x));
                            let q = choose|q: int| 0 <= q < seen.len() && seen[q] == x;
                            assert(now[q] == x);
                        } else {
                            assert(now[i as int] == x);
                        }
                    }
                    if now.contains(x) && !other@.contains(x) {
                        let q = choose|q: int| 0 <= q < now.len() && now[q] == x;
                        if q < i {
                            assert(seen[q] == x);
                            assert(seen.contains(x));
                            assert(before.contains(x));
                            let p = choose|p: int| 0 <= p < before.len() && before[p] == x;
                            assert(out@[p] == x);
                        } else {
                            assert(out@[before.len() as int] == x);
                        }
                    }
                }
            }
            i = i + 1;
        }
        assert(self@.take(i as int) =~= self@);
        let rest = CoinSet { items: out };
        assert(rest@.to_set() =~= self@.to_set().difference(other@.to_set()));
        rest
    }
}

} // verus!
