//! All ways to choose a given number of items from a range of numbers.

use vstd::prelude::*;

verus! {

/// The contents of a list of lists.
pub open spec fn lists(v: Seq<Vec<usize>>) -> Seq<Seq<usize>> {
    v.map_values(|c: Vec<usize>| c@)
}

/// Each of `tails` with `first` put in front.
pub open spec fn with_first(first: usize, tails: Seq<Seq<usize>>) -> Seq<Seq<usize>> {
    Seq::new(tails.len(), |n: int| seq![first] + tails[n])
}

/// The ways to choose `k` of the numbers from `lo` up to, not including,
/// `hi`: each choice in ascending order, the choices that hold `lo` first.
pub open spec fn choices(lo: int, hi: int, k: nat) -> Seq<Seq<usize>>
    decreases hi - lo,
{
    if k == 0 {
        seq![Seq::<usize>::empty()]
    } else if lo >= hi {
        Seq::empty()
    } else {
        with_first(lo as usize, choices(lo + 1, hi, (k - 1) as nat)) + choices(lo + 1, hi, k)
    }
}

/// The numbers of `c` lie from `lo` up to, not including, `hi`, and grow
/// from each to the next.
pub open spec fn ascending_within(c: Seq<usize>, lo: int, hi: int) -> bool {
    &&& forall|p: int| 0 <= p < c.len() ==> lo <= #[trigger] c[p] < hi
    &&& forall|p: int, q: int| 0 <= p < q < c.len() ==> c[p] < c[q]
}

/// Every choice holds `k` numbers of the range, in ascending order.
pub proof fn lemma_choices_are_ascending(lo: int, hi: int, k: nat, n: int)
    requires
        0 <= lo,
        hi <= usize::MAX,
        0 <= n < choices(lo, hi, k).len(),
    ensures
        choices(lo, hi, k)[n].len() == k,
        ascending_within(choices(lo, hi, k)[n], lo, hi),
    decreases hi - lo,
{
    if k == 0 {
    } else if lo >= hi {
    } else {
        let tails = choices(lo + 1, hi, (k - 1) as nat);
        let taken = with_first(lo as usize, tails);
        let left = choices(lo + 1, hi, k);
        if n < taken.len() {
            lemma_choices_are_ascending(lo + 1, hi, (k - 1) as nat, n);
            assert(choices(lo, hi, k)[n] == seq![lo as usize] + tails[n]);
        } else {
            lemma_choices_are_ascending(lo + 1, hi, k, n - taken.len());
            assert(choices(lo, hi, k)[n] == left[n - taken.len()]);
        }
    }
}

/// Every ascending list of `k` numbers of the range is one of the choices;
/// the result is the place where it stands.
pub proof fn lemma_choices_are_exhaustive(lo: int, hi: int, k: nat, c: Seq<usize>) -> (n: int)
    requires
        0 <= lo,
        hi <= usize::MAX,
        c.len() == k,
        ascending_within(c, lo, hi),
    ensures
        0 <= n < choices(lo, hi, k).len(),
        choices(lo, hi, k)[n] == c,
    decreases hi - lo,
{
    if k == 0 {
        assert(c =~= Seq::<usize>::empty());
        0
    } else if lo >= hi {
        assert(lo <= c[0] < hi);
        0
    } else {
        let tails = choices(lo + 1, hi, (k - 1) as nat);
        let taken = with_first(lo as usize, tails);
        let left = choices(lo + 1, hi, k);
        if c[0] == lo {
            let tail = c.subrange(1, c.len() as int);
            assert forall|p: int| 0 <= p < tail.len() implies lo + 1 <= #[trigger] tail[p] < hi by {
                assert(c[0] < c[p + 1]);
            }
            let m = lemma_choices_are_exhaustive(lo + 1, hi, (k - 1) as nat, tail);
            assert(taken[m] =~= c);
            m
        } else {
            assert forall|p: int| 0 <= p < c.len() implies lo + 1 <= #[trigger] c[p] < hi by {
                if p > 0 {
                    assert(c[0] < c[p]);
                }
            }
            let m = lemma_choices_are_exhaustive(lo + 1, hi, k, c);
            taken.len() + m
        }
    }
}

/// No choice stands twice among the choices.
pub proof fn lemma_choices_differ(lo: int, hi: int, k: nat, i: int, j: int)
    requires
        0 <= lo,
        hi <= usize::MAX,
        0 <= i < j < choices(lo, hi, k).len(),
    ensures
        choices(lo, hi, k)[i] != choices(lo, hi, k)[j],
    decreases hi - lo,
{
    if k == 0 {
    } else if lo >= hi {
    } else {
        let tails = choices(lo + 1, hi, (k - 1) as nat);
        let taken = with_first(lo as usize, tails);
        let left = choices(lo + 1, hi, k);
        if j < taken.len() {
            lemma_choices_differ(lo + 1, hi, (k - 1) as nat, i, j);
            if taken[i] == taken[j] {
                assert(tails[i] =~= taken[i].subrange(1, taken[i].len() as int));
                assert(tails[j] =~= taken[j].subrange(1, taken[j].len() as int));
            }
        } else if i >= taken.len() {
            lemma_choices_differ(lo + 1, hi, k, i - taken.len(), j - taken.len());
        } else {
            lemma_choices_are_ascending(lo + 1, hi, k, j - taken.len());
            assert(taken[i][0] == lo);
            assert(lo + 1 <= left[j - taken.len()][0]);
        }
    }
}

/// The ways to choose `k` of the numbers from `lo` up to, not including,
/// `hi`.
pub fn combinations(lo: usize, hi: usize, k: usize) -> (out: Vec<Vec<usize>>)
    ensures
        lists(out@) == choices(lo as int, hi as int, k as nat),
    decreases hi - lo,
{
    let mut out: Vec<Vec<usize>> = Vec::new();
    if k == 0 {
        out.push(Vec::new());
        assert(lists(out@) =~= seq![Seq::<usize>::empty()]);
        return out;
    }
    if lo >= hi {
        assert(lists(out@) =~= Seq::<Seq<usize>>::empty());
        return out;
    }
    let tails: Vec<Vec<usize>> = combinations(lo + 1, hi, k - 1);
    let mut n: usize = 0;
    while n < tails.len()
        invariant
            n <= tails.len(),
            out.len() == n,
            lists(out@) == with_first(lo, lists(tails@).take(n as int)),
        decreases tails.len() - n,
    {
        let tail: &Vec<usize> = &tails[n];
        let mut c: Vec<usize> = Vec::new();
        c.push(lo);
        let mut p: usize = 0;
        while p < tail.len()
            invariant
                p <= tail.len(),
                c@ == seq![lo] + tail@.take(p as int),
            decreases tail.len() - p,
        {
            c.push(tail[p]);
            p = p + 1;
            assert(c@ =~= seq![lo] + tail@.take(p as int));
        }
        assert(tail@.take(p as int) =~= tail@);
        let ghost before = out@;
        out.push(c);
        n = n + 1;
        proof {
            let made = lists(out@);
            let wanted = with_first(lo, lists(tails@).take(n as int));
            assert(made.len() == wanted.len());
            assert forall|m: int| 0 <= m < made.len() implies made[m] == wanted[m] by {
                if m < n - 1 {
                    assert(made[m] == lists(before)[m]);
                    assert(lists(tails@).take(n as int)[m] == lists(tails@).take(n - 1)[m]);
                } else {
                    assert(made[m] == c@);
                    assert(lists(tails@).take(n as int)[m] == tail@);
                }
            }
            assert(made =~= wanted);
        }
    }
    assert(lists(tails@).take(n as int) =~= lists(tails@));
    let mut left: Vec<Vec<usize>> = combinations(lo + 1, hi, k);
    let ghost taken = out@;
    let ghost rest = left@;
    out.append(&mut left);
    assert(lists(out@) =~= lists(taken) + lists(rest));
    out
}

} // verus!
