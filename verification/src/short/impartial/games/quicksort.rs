//! Quicksort game: a move picks a pivot and sorts the sequence around it.

use crate::numeric::nimber::{holds, is_mex, Nimber};
use crate::short::impartial::games::quicksort_order::lemma_moves_lessen;
use crate::text::{decimal, push_decimal, string_of};
use vstd::prelude::*;

verus! {

/// A position of the game: a sequence of numbers.
#[derive(Debug, PartialEq, Eq)]
pub struct Quicksort(pub Vec<u32>);

/// The numbers among the first `n` of `s` that are less than `pivot`
/// (`low`), or greater, in their order.
pub open spec fn side_of(s: Seq<u32>, pivot: u32, low: bool, n: int) -> Seq<u32>
    decreases n,
{
    if n <= 0 {
        Seq::<u32>::empty()
    } else if (low && s[n - 1] < pivot) || (!low && s[n - 1] > pivot) {
        side_of(s, pivot, low, n - 1).push(s[n - 1])
    } else {
        side_of(s, pivot, low, n - 1)
    }
}

/// The sequence after the number at `pivot` was picked: the smaller numbers
/// in their order, the pivot, the greater numbers in their order. Other
/// numbers equal to the pivot are gone.
pub open spec fn picked(s: Seq<u32>, pivot: int) -> Seq<u32> {
    side_of(s, s[pivot], true, s.len() as int) + seq![s[pivot]] + side_of(
        s,
        s[pivot],
        false,
        s.len() as int,
    )
}

/// The sequences that the first `n` pivots lead to, each once and in the
/// order of the pivots, without the sequence itself.
pub open spec fn moves_upto(s: Seq<u32>, n: int) -> Seq<Seq<u32>>
    decreases n,
{
    if n <= 0 {
        Seq::<Seq<u32>>::empty()
    } else {
        let before = moves_upto(s, n - 1);
        let next = picked(s, n - 1);
        if before.contains(next) || next == s {
            before
        } else {
            before.push(next)
        }
    }
}

/// How many of the first `n` numbers are at least `x`.
pub open spec fn at_least_before(s: Seq<u32>, x: u32, n: int) -> nat
    decreases n,
{
    if n <= 0 {
        0
    } else {
        at_least_before(s, x, n - 1) + if s[n - 1] >= x {
            1nat
        } else {
            0nat
        }
    }
}

/// How many pairs among the first `n` numbers stand in the wrong order or
/// are equal: the disorder, of which every move of the game takes away.
pub open spec fn disorder_upto(s: Seq<u32>, n: int) -> nat
    decreases n,
{
    if n <= 0 {
        0
    } else {
        disorder_upto(s, n - 1) + at_least_before(s, s[n - 1], n - 1)
    }
}

/// The disorder of a sequence.
pub open spec fn disorder(s: Seq<u32>) -> nat {
    disorder_upto(s, s.len() as int)
}

/// The values of the first `k` moves from `s`.
pub open spec fn option_values(s: Seq<u32>, k: int) -> Seq<Nimber>
    decreases disorder(s), 0int, k,
    via option_values_end
{
    if k <= 0 || k > moves_upto(s, s.len() as int).len() {
        Seq::<Nimber>::empty()
    } else {
        option_values(s, k - 1).push(Nimber(game_value(moves_upto(s, s.len() as int)[k - 1])))
    }
}

/// The values of the moves are there because every move lessens the
/// disorder.
#[via_fn]
proof fn option_values_end(s: Seq<u32>, k: int) {
    if !(k <= 0 || k > moves_upto(s, s.len() as int).len()) {
        lemma_moves_lessen(s, k - 1);
    }
}

/// The value of the game from `s`: the least nimber that is the value of
/// no move from `s`.
pub open spec fn game_value(s: Seq<u32>) -> u32
    decreases disorder(s), 1int, 0int,
{
    let values = option_values(s, moves_upto(s, s.len() as int).len() as int);
    choose|m: u32| is_mex(values, m as int)
}

/// A list has one least missing size only.
pub proof fn lemma_mex_unique(list: Seq<Nimber>, a: int, b: int)
    requires
        is_mex(list, a),
        is_mex(list, b),
    ensures
        a == b,
{
    if a < b {
        assert(holds(list, a));
    }
    if b < a {
        assert(holds(list, b));
    }
}

/// Whether the two lists hold the same numbers in the same order.
fn same_numbers(a: &Vec<u32>, b: &Vec<u32>) -> (r: bool)
    ensures
        r == (a@ == b@),
{
    if a.len() != b.len() {
        return false;
    }
    let mut i: usize = 0;
    while i < a.len()
        invariant
            a@.len() == b@.len(),
            i <= a@.len(),
            forall|k: int| 0 <= k < i ==> a@[k] == b@[k],
        decreases a@.len() - i,
    {
        if a[i] != b[i] {
            return false;
        }
        i += 1;
    }
    assert(a@ =~= b@);
    true
}

impl Quicksort {
    /// The sequence of the position.
    pub open spec fn seq(&self) -> Seq<u32> {
        self.0@
    }

    /// The position after the number at `pivot` was picked.
    fn pick(&self, pivot: usize) -> (r: Quicksort)
        requires
            pivot < self.seq().len(),
        ensures
            r.seq() == picked(self.seq(), pivot as int),
            r.seq().len() <= self.seq().len(),
    {
        let p = self.0[pivot];
        let n = self.0.len();
        let mut res: Vec<u32> = Vec::new();
        let mut i: usize = 0;
        while i < n
            invariant
                n == self.seq().len(),
                pivot < n,
                p == self.seq()[pivot as int],
                i <= n,
                res@ == side_of(self.seq(), p, true, i as int),
                res@.len() <= i,
                i > pivot ==> res@.len() < i,
            decreases n - i,
        {
            if self.0[i] < p {
                res.push(self.0[i]);
            }
            i += 1;
        }
        let ghost lows = res@;
        res.push(p);
        let mut i: usize = 0;
        while i < n
            invariant
                n == self.seq().len(),
                pivot < n,
                p == self.seq()[pivot as int],
                i <= n,
                lows.len() < n,
                res@ == lows + seq![p] + side_of(self.seq(), p, false, i as int),
                res@.len() <= lows.len() + 1 + i,
                lows == side_of(self.seq(), p, true, n as int),
            decreases n - i,
        {
            if self.0[i] > p {
                res.push(self.0[i]);
                assert(res@ =~= lows + seq![p] + side_of(self.seq(), p, false, i + 1));
            } else {
                assert(res@ =~= lows + seq![p] + side_of(self.seq(), p, false, i + 1));
            }
            i += 1;
        }
        proof {
            lemma_sides_fit(self.seq(), pivot as int, n as int);
        }
        Quicksort(res)
    }

    /// The positions that a move leads to: for every pivot in turn the
    /// position after it was picked, unless that is the position itself or
    /// was found before.
    pub fn moves(&self) -> (res: Vec<Quicksort>)
        ensures
            res@.len() == moves_upto(self.seq(), self.seq().len() as int).len(),
            forall|k: int|
                0 <= k < res@.len() ==> (#[trigger] res@[k]).seq() == moves_upto(
                    self.seq(),
                    self.seq().len() as int,
                )[k],
            res@.len() <= self.seq().len(),
            forall|k: int|
                0 <= k < res@.len() ==> (#[trigger] res@[k]).seq().len() <= self.seq().len(),
    {
        let mut res: Vec<Quicksort> = Vec::new();
        let n = self.0.len();
        let mut pivot: usize = 0;
        while pivot < n
            invariant
                n == self.seq().len(),
                pivot <= n,
                res@.len() == moves_upto(self.seq(), pivot as int).len(),
                res@.len() <= pivot,
                forall|k: int|
                    0 <= k < res@.len() ==> (#[trigger] res@[k]).seq().len() <= n,
                forall|k: int|
                    0 <= k < res@.len() ==> (#[trigger] res@[k]).seq() == moves_upto(
                        self.seq(),
                        pivot as int,
                    )[k],
            decreases n - pivot,
        {
            let new = self.pick(pivot);
            let ghost before = moves_upto(self.seq(), pivot as int);
            let mut found = false;
            let mut k: usize = 0;
            while k < res.len()
                invariant
                    k <= res@.len(),
                    res@.len() == before.len(),
                    forall|j: int| 0 <= j < res@.len() ==> (#[trigger] res@[j]).seq() == before[j],
                    found == exists|j: int| 0 <= j < k && before[j] == new.seq(),
                decreases res@.len() - k,
            {
                if same_numbers(&res[k].0, &new.0) {
                    found = true;
                }
                k += 1;
            }
            let same = same_numbers(&new.0, &self.0);
            proof {
                assert(found == before.contains(new.seq())) by {
                    if before.contains(new.seq()) {
                        let j = choose|j: int| 0 <= j < before.len() && before[j] == new.seq();
                        assert(0 <= j < k && before[j] == new.seq());
                    }
                }
                assert((pivot + 1) - 1 == pivot);
            }
            if !found && !same {
                res.push(new);
            }
            pivot += 1;
        }
        res
    }

    /// The value of the game from the position: the least nimber that is
    /// the value of no move.
    pub fn game(&self) -> (r: Nimber)
        requires
            self.seq().len() <= u32::MAX,
        ensures
            r.0 == game_value(self.seq()),
        decreases disorder(self.seq()),
    {
        let moves = self.moves();
        let ghost all = moves_upto(self.seq(), self.seq().len() as int);
        let mut game_moves: Vec<Nimber> = Vec::new();
        let mut k: usize = 0;
        while k < moves.len()
            invariant
                self.seq().len() <= u32::MAX,
                all == moves_upto(self.seq(), self.seq().len() as int),
                moves@.len() == all.len(),
                forall|j: int| 0 <= j < moves@.len() ==> (#[trigger] moves@[j]).seq() == all[j],
                forall|j: int|
                    0 <= j < moves@.len() ==> (#[trigger] moves@[j]).seq().len() <= u32::MAX,
                k <= moves@.len(),
                game_moves@ == option_values(self.seq(), k as int),
                game_moves@.len() == k,
            decreases moves@.len() - k,
        {
            proof {
                assert((k + 1) - 1 == k);
                lemma_moves_lessen(self.seq(), k as int);
            }
            game_moves.push(moves[k].game());
            k += 1;
        }
        let r = Nimber::mex(game_moves);
        proof {
            let values = option_values(self.seq(), all.len() as int);
            let c = choose|m: u32| is_mex(values, m as int);
            lemma_mex_unique(values, r.0 as int, c as int);
        }
        r
    }

    /// The text of the sequence: its numbers one after another.
    pub open spec fn text_upto(s: Seq<u32>, n: int) -> Seq<char>
        decreases n,
    {
        if n <= 0 {
            Seq::<char>::empty()
        } else {
            Self::text_upto(s, n - 1) + decimal(s[n - 1] as nat)
        }
    }

    /// The position as text.
    pub fn to_string(&self) -> (out: String)
        ensures
            out@ == Self::text_upto(self.seq(), self.seq().len() as int),
    {
        let mut chars: Vec<char> = Vec::new();
        let mut i: usize = 0;
        while i < self.0.len()
            invariant
                i <= self.seq().len(),
                chars@ == Self::text_upto(self.seq(), i as int),
            decreases self.seq().len() - i,
        {
            proof {
                assert((i + 1) - 1 == i);
            }
            push_decimal(&mut chars, self.0[i] as u64);
            i += 1;
        }
        string_of(&chars)
    }
}

/// The smaller and the greater numbers of a sequence, with the pivot, are
/// no more than the sequence has.
proof fn lemma_sides_fit(s: Seq<u32>, pivot: int, n: int)
    requires
        0 <= pivot < s.len(),
        0 <= n <= s.len(),
    ensures
        side_of(s, s[pivot], true, n).len() + side_of(s, s[pivot], false, n).len() + (if pivot < n {
            1int
        } else {
            0int
        }) <= n,
    decreases n,
{
    if n > 0 {
        lemma_sides_fit(s, pivot, n - 1);
    }
}

} // verus!
