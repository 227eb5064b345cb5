//! Every move of the Quicksort game lessens the disorder of the sequence:
//! the pairs that stand in the wrong order, or are equal, after a pivot was
//! picked stood so before, and one pair at least with the pivot in it does
//! so no longer.

use crate::short::impartial::games::quicksort::{
    at_least_before, disorder, disorder_upto, moves_upto, picked, side_of,
};
use vstd::prelude::*;

verus! {

/// `y` is on the side of the pivot `v`: less than it (`low`), or greater.
pub open spec fn on_side(y: u32, v: u32, low: bool) -> bool {
    if low {
        y < v
    } else {
        y > v
    }
}

/// How many of the first `n` numbers are on the side of `v` and at least
/// `x`.
pub open spec fn side_count(s: Seq<u32>, v: u32, low: bool, x: u32, n: int) -> nat
    decreases n,
{
    if n <= 0 {
        0
    } else {
        side_count(s, v, low, x, n - 1) + if on_side(s[n - 1], v, low) && s[n - 1] >= x {
            1nat
        } else {
            0nat
        }
    }
}

/// The disorder among those of the first `n` numbers that are on the side
/// of `v`.
pub open spec fn side_disorder(s: Seq<u32>, v: u32, low: bool, n: int) -> nat
    decreases n,
{
    if n <= 0 {
        0
    } else {
        side_disorder(s, v, low, n - 1) + if on_side(s[n - 1], v, low) {
            side_count(s, v, low, s[n - 1], n - 1)
        } else {
            0nat
        }
    }
}

/// Sequences that agree on their first `n` numbers agree on the counts and
/// on the disorder among them.
proof fn lemma_same_start(a: Seq<u32>, b: Seq<u32>, x: u32, n: int)
    requires
        0 <= n <= a.len(),
        n <= b.len(),
        forall|i: int| 0 <= i < n ==> a[i] == b[i],
    ensures
        at_least_before(a, x, n) == at_least_before(b, x, n),
        disorder_upto(a, n) == disorder_upto(b, n),
    decreases n,
{
    if n > 0 {
        lemma_same_start(a, b, x, n - 1);
        lemma_same_start(a, b, a[n - 1], n - 1);
    }
}

/// The numbers of a side are on the side, and no more than were looked at.
proof fn lemma_side_holds(s: Seq<u32>, v: u32, low: bool, n: int)
    requires
        0 <= n <= s.len(),
    ensures
        side_of(s, v, low, n).len() <= n,
        forall|i: int|
            0 <= i < side_of(s, v, low, n).len() ==> on_side(
                #[trigger] side_of(s, v, low, n)[i],
                v,
                low,
            ),
    decreases n,
{
    if n > 0 {
        lemma_side_holds(s, v, low, n - 1);
    }
}

/// The numbers of a side that are at least `x` are counted on the side as in
/// the sequence.
proof fn lemma_side_count(s: Seq<u32>, v: u32, low: bool, x: u32, n: int)
    requires
        0 <= n <= s.len(),
    ensures
        at_least_before(side_of(s, v, low, n), x, side_of(s, v, low, n).len() as int) == side_count(
            s,
            v,
            low,
            x,
            n,
        ),
    decreases n,
{
    if n > 0 {
        lemma_side_count(s, v, low, x, n - 1);
        let before = side_of(s, v, low, n - 1);
        let now = side_of(s, v, low, n);
        if on_side(s[n - 1], v, low) {
            assert(now == before.push(s[n - 1]));
            lemma_same_start(now, before, x, before.len() as int);
        }
    }
}

/// The disorder of a side is the disorder among the numbers of the side in
/// the sequence.
proof fn lemma_side_disorder(s: Seq<u32>, v: u32, low: bool, n: int)
    requires
        0 <= n <= s.len(),
    ensures
        disorder(side_of(s, v, low, n)) == side_disorder(s, v, low, n),
    decreases n,
{
    if n > 0 {
        lemma_side_disorder(s, v, low, n - 1);
        let before = side_of(s, v, low, n - 1);
        let now = side_of(s, v, low, n);
        if on_side(s[n - 1], v, low) {
            assert(now == before.push(s[n - 1]));
            lemma_same_start(now, before, s[n - 1], before.len() as int);
            lemma_side_count(s, v, low, s[n - 1], n - 1);
        }
    }
}

/// Where the first `n` numbers are all less than `x`, none is at least `x`.
proof fn lemma_none_at_least(t: Seq<u32>, x: u32, n: int)
    requires
        0 <= n <= t.len(),
        forall|i: int| 0 <= i < n ==> t[i] < x,
    ensures
        at_least_before(t, x, n) == 0,
    decreases n,
{
    if n > 0 {
        lemma_none_at_least(t, x, n - 1);
    }
}

/// The numbers at least `x` among `a` and the first `j` of `b` are those
/// among `a` and those among the first `j` of `b`.
proof fn lemma_joined_count(a: Seq<u32>, b: Seq<u32>, x: u32, j: int)
    requires
        0 <= j <= b.len(),
    ensures
        at_least_before(a + b, x, a.len() + j) == at_least_before(a, x, a.len() as int)
            + at_least_before(b, x, j),
    decreases j,
{
    if j > 0 {
        lemma_joined_count(a, b, x, j - 1);
        assert((a + b)[a.len() + j - 1] == b[j - 1]);
    } else {
        lemma_same_start(a + b, a, x, a.len() as int);
    }
}

/// Where every number of `a` is less than every number of `b`, the disorder
/// of `a` followed by `b` is that of `a` and that of `b`.
proof fn lemma_joined_disorder(a: Seq<u32>, b: Seq<u32>, j: int)
    requires
        0 <= j <= b.len(),
        forall|i: int, k: int| 0 <= i < a.len() && 0 <= k < b.len() ==> a[i] < b[k],
    ensures
        disorder_upto(a + b, a.len() + j) == disorder(a) + disorder_upto(b, j),
    decreases j,
{
    if j > 0 {
        lemma_joined_disorder(a, b, j - 1);
        assert((a + b)[a.len() + j - 1] == b[j - 1]);
        lemma_joined_count(a, b, b[j - 1], j - 1);
        lemma_none_at_least(a, b[j - 1], a.len() as int);
    } else {
        lemma_same_start(a + b, a, 0, a.len() as int);
    }
}

/// The disorder after a pivot was picked is the disorder among the smaller
/// numbers and that among the greater numbers.
proof fn lemma_picked_disorder(s: Seq<u32>, pivot: int)
    requires
        0 <= pivot < s.len(),
    ensures
        disorder(picked(s, pivot)) == side_disorder(s, s[pivot], true, s.len() as int)
            + side_disorder(s, s[pivot], false, s.len() as int),
{
    let v = s[pivot];
    let n = s.len() as int;
    let lows = side_of(s, v, true, n);
    let highs = side_of(s, v, false, n);
    let mid = seq![v];
    lemma_side_holds(s, v, true, n);
    lemma_side_holds(s, v, false, n);
    lemma_side_disorder(s, v, true, n);
    lemma_side_disorder(s, v, false, n);
    assert(mid.len() == 1 && mid[0] == v);
    lemma_joined_disorder(lows, mid, 1);
    assert(disorder_upto(mid, 1) == 0) by {
        reveal_with_fuel(disorder_upto, 2);
        reveal_with_fuel(at_least_before, 2);
    }
    assert((lows + mid).len() == lows.len() + 1);
    assert(disorder(lows + mid) == disorder(lows));
    assert forall|i: int, k: int| 0 <= i < (lows + mid).len() && 0 <= k < highs.len() implies (lows
        + mid)[i] < highs[k] by {
        assert(on_side(highs[k], v, false));
        if i < lows.len() {
            assert(on_side(lows[i], v, true));
        }
    }
    lemma_joined_disorder(lows + mid, highs, highs.len() as int);
    assert((lows + mid + highs).len() == lows.len() + 1 + highs.len());
}

/// The numbers at least `x` on the two sides of `v` are among the numbers
/// at least `x`; and one more is among those where the number at `i` is `v`
/// and at least `x`.
proof fn lemma_sides_counted(s: Seq<u32>, v: u32, x: u32, n: int, i: int)
    requires
        0 <= n <= s.len(),
    ensures
        side_count(s, v, true, x, n) + side_count(s, v, false, x, n) <= at_least_before(s, x, n),
        0 <= i < n && s[i] == v && v >= x ==> side_count(s, v, true, x, n) + side_count(
            s,
            v,
            false,
            x,
            n,
        ) + 1 <= at_least_before(s, x, n),
    decreases n,
{
    if n > 0 {
        lemma_sides_counted(s, v, x, n - 1, i);
    }
}

/// The numbers at `i` and `k` stand in the wrong order or are equal, and
/// one of them is `v`.
pub open spec fn pivot_pair(s: Seq<u32>, v: u32, i: int, k: int) -> bool {
    0 <= i < k < s.len() && s[i] >= s[k] && (s[i] == v || s[k] == v)
}

/// The disorder on the two sides of `v` is part of the disorder; and it is
/// less where a pair with `v` in it adds to the disorder.
proof fn lemma_sides_disorder(s: Seq<u32>, v: u32, n: int, i: int, k: int)
    requires
        0 <= n <= s.len(),
    ensures
        side_disorder(s, v, true, n) + side_disorder(s, v, false, n) <= disorder_upto(s, n),
        pivot_pair(s, v, i, k) && k < n ==> side_disorder(s, v, true, n) + side_disorder(
            s,
            v,
            false,
            n,
        ) < disorder_upto(s, n),
    decreases n,
{
    if n > 0 {
        lemma_sides_disorder(s, v, n - 1, i, k);
        let x = s[n - 1];
        lemma_sides_counted(s, v, x, n - 1, i);
        if pivot_pair(s, v, i, k) && k == n - 1 {
            if s[k] == v {
                lemma_one_at_least(s, x, n - 1, i);
            }
        }
    }
}

/// Where the number at `i` is at least `x`, one at least of the first `n`
/// numbers is.
proof fn lemma_one_at_least(s: Seq<u32>, x: u32, n: int, i: int)
    requires
        0 <= i < n <= s.len(),
        s[i] >= x,
    ensures
        at_least_before(s, x, n) >= 1,
    decreases n,
{
    if i < n - 1 {
        lemma_one_at_least(s, x, n - 1, i);
    }
}

/// The side of the smaller numbers of a sequence whose numbers before the
/// pivot are smaller and whose numbers after it are greater is the part
/// before the pivot, and the side of the greater numbers the part after it.
proof fn lemma_sides_in_place(s: Seq<u32>, pivot: int, n: int)
    requires
        0 <= pivot < s.len(),
        0 <= n <= s.len(),
        forall|i: int| 0 <= i < pivot ==> s[i] < s[pivot],
        forall|j: int| pivot < j < s.len() ==> s[j] > s[pivot],
    ensures
        side_of(s, s[pivot], true, n) =~= (if n <= pivot {
            s.take(n)
        } else {
            s.take(pivot)
        }),
        side_of(s, s[pivot], false, n) =~= (if n <= pivot + 1 {
            Seq::<u32>::empty()
        } else {
            s.subrange(pivot + 1, n)
        }),
    decreases n,
{
    if n > 0 {
        lemma_sides_in_place(s, pivot, n - 1);
    }
}

/// Picking a pivot changes the sequence or leaves it; where it changes it,
/// it lessens the disorder.
pub proof fn lemma_pick_lessens(s: Seq<u32>, pivot: int)
    requires
        0 <= pivot < s.len(),
        picked(s, pivot) != s,
    ensures
        disorder(picked(s, pivot)) < disorder(s),
{
    let v = s[pivot];
    let n = s.len() as int;
    lemma_picked_disorder(s, pivot);
    if exists|i: int| 0 <= i < pivot && s[i] >= v {
        let i = choose|i: int| 0 <= i < pivot && s[i] >= v;
        assert(pivot_pair(s, v, i, pivot));
        lemma_sides_disorder(s, v, n, i, pivot);
    } else if exists|j: int| pivot < j < s.len() && s[j] <= v {
        let j = choose|j: int| pivot < j < s.len() && s[j] <= v;
        assert(pivot_pair(s, v, pivot, j));
        lemma_sides_disorder(s, v, n, pivot, j);
    } else {
        lemma_sides_in_place(s, pivot, n);
        assert(picked(s, pivot) =~= s);
    }
}

/// Every move is the sequence after some pivot was picked, and not the
/// sequence itself.
pub proof fn lemma_moves_are_picks(s: Seq<u32>, n: int, k: int)
    requires
        0 <= n <= s.len(),
        0 <= k < moves_upto(s, n).len(),
    ensures
        moves_upto(s, n)[k] != s,
        exists|pivot: int| 0 <= pivot < n && moves_upto(s, n)[k] == #[trigger] picked(s, pivot),
    decreases n,
{
    if n > 0 {
        let before = moves_upto(s, n - 1);
        if k < before.len() {
            lemma_moves_are_picks(s, n - 1, k);
            let pivot = choose|pivot: int|
                0 <= pivot < n - 1 && moves_upto(s, n - 1)[k] == #[trigger] picked(s, pivot);
            assert(0 <= pivot < n && moves_upto(s, n)[k] == picked(s, pivot));
        } else {
            assert(moves_upto(s, n)[k] == picked(s, n - 1));
        }
    }
}

/// Every move lessens the disorder.
pub proof fn lemma_moves_lessen(s: Seq<u32>, k: int)
    requires
        0 <= k < moves_upto(s, s.len() as int).len(),
    ensures
        disorder(moves_upto(s, s.len() as int)[k]) < disorder(s),
{
    lemma_moves_are_picks(s, s.len() as int, k);
    let pivot = choose|pivot: int|
        0 <= pivot < s.len() && moves_upto(s, s.len() as int)[k] == #[trigger] picked(s, pivot);
    lemma_pick_lessens(s, pivot);
}

} // verus!
