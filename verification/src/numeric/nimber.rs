//! Nimbers: the values of impartial games.

use crate::text::{decimal, push_decimal, string_of};
use vstd::prelude::*;

verus! {

/// The nimber `*n`: the game of one heap of `n` in Nim.
#[derive(Debug, Hash, Clone, Copy, PartialEq, Eq, PartialOrd, Ord, Structural)]
pub struct Nimber(pub u32);

/// Some nimber of the list is `*v`.
pub open spec fn holds(list: Seq<Nimber>, v: int) -> bool {
    exists|i: int| 0 <= i < list.len() && (#[trigger] list[i]).0 == v
}

/// `m` is the least number that is the size of no nimber of the list.
pub open spec fn is_mex(list: Seq<Nimber>, m: int) -> bool {
    &&& 0 <= m
    &&& !holds(list, m)
    &&& forall|v: int| 0 <= v < m ==> holds(list, v)
}

impl Nimber {
    /// The nimber `*value`.
    pub fn new(value: u32) -> (n: Nimber)
        ensures
            n.0 == value,
    {
        Nimber(value)
    }

    /// The size of the nimber.
    pub fn value(&self) -> (v: u32)
        ensures
            v == self.0,
    {
        self.0
    }

    /// Whether some nimber of the list is `*v`.
    fn is_in(list: &Vec<Nimber>, v: u32) -> (r: bool)
        ensures
            r == holds(list@, v as int),
    {
        let mut i: usize = 0;
        while i < list.len()
            invariant
                i <= list@.len(),
                forall|j: int| 0 <= j < i ==> (#[trigger] list@[j]).0 != v,
            decreases list@.len() - i,
        {
            if list[i].0 == v {
                return true;
            }
            i += 1;
        }
        false
    }

    /// The least nimber that is not in the list: the value of the impartial
    /// game whose options have the values of the list.
    pub fn mex(nimbers: Vec<Nimber>) -> (m: Nimber)
        requires
            nimbers@.len() <= u32::MAX,
        ensures
            is_mex(nimbers@, m.0 as int),
    {
        let mut current: u32 = 0;
        while Self::is_in(&nimbers, current)
            invariant
                nimbers@.len() <= u32::MAX,
                forall|v: int| 0 <= v < current ==> holds(nimbers@, v),
            decreases u32::MAX - current,
        {
            proof {
                // A list that holds every size up to `current` is longer than `current`.
                Self::lemma_counts(nimbers@, current as int + 1);
            }
            current += 1;
        }
        Nimber(current)
    }

    /// A list that holds a nimber of every size below `n` is longer than `n`
    /// less one.
    proof fn lemma_counts(list: Seq<Nimber>, n: int)
        requires
            0 <= n,
            forall|v: int| 0 <= v < n ==> holds(list, v),
        ensures
            list.len() >= n,
        decreases n,
    {
        if n > 0 {
            // Take one nimber of the greatest size out.
            assert(holds(list, n - 1));
            let i = choose|i: int| 0 <= i < list.len() && (#[trigger] list[i]).0 == n - 1;
            let rest = list.remove(i);
            assert forall|v: int| 0 <= v < n - 1 implies holds(rest, v) by {
                assert(holds(list, v));
                let j = choose|j: int| 0 <= j < list.len() && (#[trigger] list[j]).0 == v;
                if j < i {
                    assert(rest[j].0 == v);
                } else {
                    assert(j > i);
                    assert(rest[j - 1].0 == v);
                }
            }
            Self::lemma_counts(rest, n - 1);
        }
    }

    /// The sum of two nimbers, which is the nimber of the sizes added
    /// without carrying.
    pub fn add(&self, other: &Nimber) -> (r: Nimber)
        ensures
            r.0 == self.0 ^ other.0,
    {
        Nimber(self.0 ^ other.0)
    }

    /// The text of the nimber.
    pub open spec fn text(&self) -> Seq<char> {
        if self.0 == 0 {
            seq!['0']
        } else if self.0 == 1 {
            seq!['*']
        } else {
            seq!['*'] + decimal(self.0 as nat)
        }
    }

    /// The nimber as text: `0`, `*`, and `*` with the size for the others.
    pub fn to_string(&self) -> (out: String)
        ensures
            out@ == self.text(),
    {
        let mut chars: Vec<char> = Vec::new();
        if self.0 == 0 {
            chars.push('0');
        } else {
            chars.push('*');
            if self.0 > 1 {
                push_decimal(&mut chars, self.0 as u64);
            }
        }
        assert(chars@ =~= self.text());
        string_of(&chars)
    }
}

} // verus!
