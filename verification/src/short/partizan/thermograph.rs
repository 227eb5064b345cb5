//! Thermographs: the left and right wall of a game as the temperature rises.
//!
//! Temperatures and values are fixed-point numbers with 30 binary places: the
//! integer `v` stands for `v / 2^30`. A wall is a function of the temperature
//! from minus one on that is linear between its knots, with a slope of minus
//! one, zero or one.

use crate::numeric::rational::Rational;
use crate::short::partizan::game_storage::{Game, GameStorage};
use crate::short::partizan::number_up_star::Nus;
use vstd::prelude::*;

verus! {

/// The number one in fixed point.
pub const UNIT: i64 = 0x4000_0000;

/// Greatest magnitude of a temperature or a value.
pub const BOUND: i64 = 0x2000_0000_0000_0000;

/// Greatest magnitude of a value of a scaffold, which is a wall of an
/// option less or plus the temperature.
pub const WIDE: i64 = 0x4000_0000_0000_0000;

/// From the temperature `t` on, up to the next knot, the wall is at `x` at
/// `t` and moves with the slope `slope`.
#[derive(Debug, Clone, Copy, PartialEq, Eq, Structural)]
pub struct Knot {
    pub t: i64,
    pub x: i64,
    pub slope: i8,
}

/// A wall of a thermograph, or a scaffold from which a wall is made.
#[derive(Debug)]
pub struct Wall {
    pub knots: Vec<Knot>,
}

/// The thermograph of a game: its walls, the temperature from which on they
/// stand together, and the mast value at which they stand then.
#[derive(Debug)]
pub struct Thermograph {
    pub left: Wall,
    pub right: Wall,
    pub temperature: i64,
    pub mast: i64,
}

/// Where the line through the knot `k` is at the temperature `t`.
pub open spec fn line(k: Knot, t: int) -> int {
    if k.slope == 1 {
        k.x + (t - k.t)
    } else if k.slope == -1 {
        k.x - (t - k.t)
    } else {
        k.x as int
    }
}

/// The knots make a wall with slopes from `lo` to `hi`: the first knot is at
/// the temperature minus one, the temperatures rise, and every knot lies on
/// the line through the knot before it.
pub open spec fn knots_wf(s: Seq<Knot>, lo: int, hi: int) -> bool {
    &&& s.len() >= 1
    &&& s[0].t == -UNIT
    &&& -1 <= lo <= hi <= 1
    &&& forall|i: int, j: int| 0 <= i < j < s.len() ==> s[i].t < s[j].t
    &&& forall|i: int|
        0 <= i < s.len() ==> lo <= (#[trigger] s[i]).slope <= hi && -BOUND <= s[i].t <= BOUND
            && -WIDE <= s[i].x <= WIDE
    &&& forall|i: int| 0 <= i < s.len() - 1 ==> (#[trigger] s[i + 1]).x == line(s[i], s[i + 1].t as int)
}

/// The knots are within the limit of values: they are knots of a wall of a
/// thermograph, not only of a scaffold.
pub open spec fn narrow(s: Seq<Knot>) -> bool {
    forall|i: int| 0 <= i < s.len() ==> -BOUND <= (#[trigger] s[i]).x <= BOUND
}

/// No knot of a wall is before the temperature minus one.
pub proof fn lemma_knot_times(s: Seq<Knot>, lo: int, hi: int, i: int)
    requires
        knots_wf(s, lo, hi),
        0 <= i < s.len(),
    ensures
        -UNIT <= s[i].t <= BOUND,
{
    if i > 0 {
        assert(s[0].t < s[i].t);
    }
}

/// Where the wall made of the first `n` knots is at the temperature `t`.
#[verifier::opaque]
pub open spec fn value_upto(s: Seq<Knot>, n: int, t: int) -> int
    decreases n,
{
    if n <= 1 {
        line(s[0], t)
    } else if s[n - 1].t <= t {
        line(s[n - 1], t)
    } else {
        value_upto(s, n - 1, t)
    }
}

/// Where the wall is at the temperature `t`.
pub open spec fn value(s: Seq<Knot>, t: int) -> int {
    value_upto(s, s.len() as int, t)
}

/// On the stretch of the knot `i` the wall is the line through that knot.
pub proof fn lemma_value_on_stretch(s: Seq<Knot>, i: int, t: int)
    requires
        forall|a: int, b: int| 0 <= a < b < s.len() ==> s[a].t < s[b].t,
        0 <= i < s.len(),
        s[i].t <= t,
        i + 1 < s.len() ==> t < s[i + 1].t,
    ensures
        value(s, t) == line(s[i], t),
{
    lemma_value_upto(s, s.len() as int, i, t);
}

proof fn lemma_value_upto(s: Seq<Knot>, n: int, i: int, t: int)
    requires
        forall|a: int, b: int| 0 <= a < b < s.len() ==> s[a].t < s[b].t,
        0 <= i < n <= s.len(),
        s[i].t <= t,
        i + 1 < s.len() ==> t < s[i + 1].t,
    ensures
        value_upto(s, n, t) == line(s[i], t),
    decreases n,
{
    reveal_with_fuel(value_upto, 2);
    if n > 1 {
        if s[n - 1].t <= t {
            if n - 1 > i {
                assert(s[i + 1].t <= s[n - 1].t) by {
                    if i + 1 < n - 1 {
                    }
                }
            }
        } else {
            lemma_value_upto(s, n - 1, i, t);
        }
    }
}

/// Before the temperature of a knot that is put at the end, the wall is
/// where it was; from there on it is the line through the new knot.
pub proof fn lemma_value_push(s: Seq<Knot>, k: Knot, t: int)
    requires
        s.len() >= 1,
    ensures
        t < k.t ==> value(s.push(k), t) == value(s, t),
        t >= k.t ==> value(s.push(k), t) == line(k, t),
{
    reveal_with_fuel(value_upto, 2);
    let p = s.push(k);
    if t < k.t {
        lemma_value_prefix(s, p, s.len() as int, t);
    }
}

proof fn lemma_value_prefix(s: Seq<Knot>, p: Seq<Knot>, n: int, t: int)
    requires
        1 <= n <= s.len() <= p.len(),
        forall|i: int| 0 <= i < s.len() ==> s[i] == p[i],
    ensures
        value_upto(p, n, t) == value_upto(s, n, t),
    decreases n,
{
    reveal_with_fuel(value_upto, 2);
    if n > 1 {
        lemma_value_prefix(s, p, n - 1, t);
    }
}

impl Wall {
    /// The wall has slopes from `lo` to `hi`.
    pub open spec fn wf(&self, lo: int, hi: int) -> bool {
        knots_wf(self.knots@, lo, hi)
    }

    /// Where the wall is at the temperature `t`.
    pub open spec fn at(&self, t: int) -> int {
        value(self.knots@, t)
    }

    /// The wall that stands at `x` at every temperature.
    pub fn constant(x: i64) -> (w: Wall)
        requires
            -BOUND <= x <= BOUND,
        ensures
            w.wf(0, 0),
            narrow(w.knots@),
            forall|t: int| w.at(t) == x,
    {
        let mut knots: Vec<Knot> = Vec::new();
        knots.push(Knot { t: -UNIT, x, slope: 0 });
        proof {
            reveal_with_fuel(value_upto, 2);
        }
        Wall { knots }
    }

    /// A copy of the wall.
    pub fn duplicate(&self) -> (w: Wall)
        ensures
            w.knots@ == self.knots@,
    {
        let mut knots: Vec<Knot> = Vec::new();
        let mut i: usize = 0;
        while i < self.knots.len()
            invariant
                i <= self.knots@.len(),
                knots@ == self.knots@.subrange(0, i as int),
            decreases self.knots@.len() - i,
        {
            knots.push(self.knots[i]);
            i += 1;
            assert(knots@ =~= self.knots@.subrange(0, i as int));
        }
        assert(self.knots@.subrange(0, self.knots@.len() as int) =~= self.knots@);
        Wall { knots }
    }

    /// The wall mirrored: at every temperature the negative of this wall.
    fn negated(&self, Ghost(lo): Ghost<int>, Ghost(hi): Ghost<int>) -> (w: Wall)
        requires
            self.wf(lo, hi),
        ensures
            w.wf(-hi, -lo),
            forall|t: int| w.at(t) == -self.at(t),
    {
        let mut knots: Vec<Knot> = Vec::new();
        let mut i: usize = 0;
        while i < self.knots.len()
            invariant
                self.wf(lo, hi),
                i <= self.knots@.len(),
                knots@.len() == i,
                forall|j: int|
                    0 <= j < i ==> #[trigger] knots@[j] == (Knot {
                        t: self.knots@[j].t,
                        x: (-self.knots@[j].x) as i64,
                        slope: (-self.knots@[j].slope) as i8,
                    }),
            decreases self.knots@.len() - i,
        {
            let k = self.knots[i];
            knots.push(Knot { t: k.t, x: -k.x, slope: -k.slope });
            i += 1;
        }
        let w = Wall { knots };
        proof {
            assert forall|j: int| 0 <= j < w.knots@.len() - 1 implies (#[trigger] w.knots@[j + 1]).x
                == line(w.knots@[j], w.knots@[j + 1].t as int) by {
                assert(self.knots@[j + 1].x == line(self.knots@[j], self.knots@[j + 1].t as int));
            }
            assert forall|t: int| w.at(t) == -self.at(t) by {
                lemma_negated_value(self.knots@, w.knots@, self.knots@.len() as int, t);
            }
        }
        w
    }

    /// The wall tilted: at every temperature `t` this wall plus `t`
    /// (`up`), or less `t`.
    fn tilted(&self, up: bool, Ghost(lo): Ghost<int>, Ghost(hi): Ghost<int>) -> (w: Wall)
        requires
            self.wf(lo, hi),
            narrow(self.knots@),
            up ==> hi <= 0,
            !up ==> lo >= 0,
        ensures
            w.wf(
                if up {
                    lo + 1
                } else {
                    lo - 1
                },
                if up {
                    hi + 1
                } else {
                    hi - 1
                },
            ),
            forall|t: int|
                w.at(t) == (if up {
                    self.at(t) + t
                } else {
                    self.at(t) - t
                }),
    {
        let mut knots: Vec<Knot> = Vec::new();
        let mut i: usize = 0;
        while i < self.knots.len()
            invariant
                self.wf(lo, hi),
                narrow(self.knots@),
                up ==> hi <= 0,
                !up ==> lo >= 0,
                i <= self.knots@.len(),
                knots@.len() == i,
                forall|j: int|
                    0 <= j < i ==> -WIDE <= (#[trigger] knots@[j]).x <= WIDE && knots@[j].t
                        == self.knots@[j].t && knots@[j].x == (if up {
                        self.knots@[j].x + self.knots@[j].t
                    } else {
                        self.knots@[j].x - self.knots@[j].t
                    }) && knots@[j].slope == (if up {
                        self.knots@[j].slope + 1
                    } else {
                        self.knots@[j].slope - 1
                    }),
            decreases self.knots@.len() - i,
        {
            let k = self.knots[i];
            let x = if up {
                k.x + k.t
            } else {
                k.x - k.t
            };
            let slope: i8 = if up {
                k.slope + 1
            } else {
                k.slope - 1
            };
            knots.push(Knot { t: k.t, x, slope });
            i += 1;
        }
        let w = Wall { knots };
        proof {
            assert forall|j: int| 0 <= j < w.knots@.len() - 1 implies (#[trigger] w.knots@[j + 1]).x
                == line(w.knots@[j], w.knots@[j + 1].t as int) by {
                assert(self.knots@[j + 1].x == line(self.knots@[j], self.knots@[j + 1].t as int));
            }
            assert forall|t: int|
                w.at(t) == (if up {
                    self.at(t) + t
                } else {
                    self.at(t) - t
                }) by {
                lemma_tilted_value(self.knots@, w.knots@, up, self.knots@.len() as int, t);
            }
        }
        w
    }

    /// The wall up to the temperature `tau`, and a mast at `mast` from there
    /// on.
    fn capped(&self, tau: i64, mast: i64, Ghost(lo): Ghost<int>, Ghost(hi): Ghost<int>) -> (w:
        Wall)
        requires
            self.wf(lo, hi),
            lo <= 0 <= hi,
            -UNIT <= tau <= BOUND,
            -BOUND <= mast <= BOUND,
            tau > -UNIT ==> self.at(tau as int) == mast,
        ensures
            w.wf(lo, hi),
            forall|t: int|
                t >= -UNIT ==> w.at(t) == (if t < tau {
                    self.at(t)
                } else {
                    mast as int
                }),
    {
        let mut knots: Vec<Knot> = Vec::new();
        let mut i: usize = 0;
        while i < self.knots.len() && self.knots[i].t < tau
            invariant
                self.wf(lo, hi),
                i <= self.knots@.len(),
                knots@ == self.knots@.subrange(0, i as int),
                forall|j: int| 0 <= j < i ==> self.knots@[j].t < tau,
            decreases self.knots@.len() - i,
        {
            knots.push(self.knots[i]);
            i += 1;
            assert(knots@ =~= self.knots@.subrange(0, i as int));
        }
        let ghost kept = knots@;
        let last = Knot { t: tau, x: mast, slope: 0 };
        knots.push(last);
        let w = Wall { knots };
        proof {
            let s = self.knots@;
            if i > 0 {
                // The mast starts where the wall is at `tau`.
                if i < s.len() && s[i as int].t == tau {
                    lemma_value_on_stretch(s, i as int, tau as int);
                    assert(s[(i - 1) + 1].x == line(s[i - 1], s[(i - 1) + 1].t as int));
                } else {
                    lemma_value_on_stretch(s, i - 1, tau as int);
                }
            } else {
                assert(tau == -UNIT) by {
                    assert(s[0].t == -UNIT);
                }
            }
            assert forall|j: int| 0 <= j < w.knots@.len() - 1 implies (#[trigger] w.knots@[j + 1]).x
                == line(w.knots@[j], w.knots@[j + 1].t as int) by {
                if j + 1 < i {
                    assert(s[j + 1].x == line(s[j], s[j + 1].t as int));
                }
            }
            assert forall|t: int| t >= -UNIT implies w.at(t) == (if t < tau {
                self.at(t)
            } else {
                mast as int
            }) by {
                if i > 0 {
                    lemma_value_push(kept, last, t);
                    if t < tau {
                        lemma_value_cut(s, i as int, t);
                    }
                } else {
                    assert(w.knots@ =~= seq![last]);
                    lemma_value_single(last, t);
                }
            }
        }
        w
    }
}

/// Before the knot `i`, a wall is where its first `i` knots put it.
proof fn lemma_value_cut(s: Seq<Knot>, i: int, t: int)
    requires
        1 <= i <= s.len(),
        forall|a: int, b: int| 0 <= a < b < s.len() ==> s[a].t < s[b].t,
        i < s.len() ==> t < s[i].t,
    ensures
        value(s.subrange(0, i), t) == value(s, t),
{
    let c = s.subrange(0, i);
    lemma_value_prefix(c, s, i, t);
    lemma_value_skip(s, s.len() as int, i, t);
}

proof fn lemma_value_skip(s: Seq<Knot>, n: int, i: int, t: int)
    requires
        1 <= i <= n <= s.len(),
        forall|a: int, b: int| 0 <= a < b < s.len() ==> s[a].t < s[b].t,
        i < s.len() ==> t < s[i].t,
    ensures
        value_upto(s, n, t) == value_upto(s, i, t),
    decreases n,
{
    reveal_with_fuel(value_upto, 2);
    if n > i {
        assert(s[i].t <= s[n - 1].t) by {
            if i < n - 1 {
            }
        }
        lemma_value_skip(s, n - 1, i, t);
    }
}

proof fn lemma_negated_value(s: Seq<Knot>, w: Seq<Knot>, n: int, t: int)
    requires
        1 <= n <= s.len(),
        w.len() == s.len(),
        forall|j: int|
            0 <= j < s.len() ==> #[trigger] w[j] == (Knot {
                t: s[j].t,
                x: (-s[j].x) as i64,
                slope: (-s[j].slope) as i8,
            }),
        forall|j: int|
            0 <= j < s.len() ==> -1 <= (#[trigger] s[j]).slope <= 1 && -WIDE <= s[j].x <= WIDE,
    ensures
        value_upto(w, n, t) == -value_upto(s, n, t),
    decreases n,
{
    reveal_with_fuel(value_upto, 2);
    assert(w[n - 1].t == s[n - 1].t);
    assert(w[0].t == s[0].t);
    if n > 1 && !(s[n - 1].t <= t) {
        lemma_negated_value(s, w, n - 1, t);
    }
}

proof fn lemma_tilted_value(s: Seq<Knot>, w: Seq<Knot>, up: bool, n: int, t: int)
    requires
        1 <= n <= s.len(),
        w.len() == s.len(),
        forall|j: int|
            0 <= j < s.len() ==> (#[trigger] w[j]).t == s[j].t && w[j].x == (if up {
                s[j].x + s[j].t
            } else {
                s[j].x - s[j].t
            }) && w[j].slope == (if up {
                s[j].slope + 1
            } else {
                s[j].slope - 1
            }),
        forall|j: int| 0 <= j < s.len() ==> -1 <= (#[trigger] s[j]).slope <= 1,
        forall|j: int| 0 <= j < s.len() ==> -1 <= (#[trigger] w[j]).slope <= 1,
    ensures
        value_upto(w, n, t) == (if up {
            value_upto(s, n, t) + t
        } else {
            value_upto(s, n, t) - t
        }),
    decreases n,
{
    reveal_with_fuel(value_upto, 2);
    assert(w[n - 1].t == s[n - 1].t);
    assert(w[0].t == s[0].t);
    if n > 1 && !(s[n - 1].t <= t) {
        lemma_tilted_value(s, w, up, n - 1, t);
    }
}

/// A wall of one knot is the line through the knot.
pub proof fn lemma_value_single(k: Knot, t: int)
    ensures
        value(seq![k], t) == line(k, t),
{
    reveal_with_fuel(value_upto, 2);
}

/// The greater of two numbers.
pub open spec fn greater(a: int, b: int) -> int {
    if a >= b {
        a
    } else {
        b
    }
}

/// Where the line through the knot `k` is at the temperature `t`.
fn eval(k: Knot, t: i64) -> (v: i64)
    requires
        -UNIT <= k.t <= t <= BOUND,
        -WIDE <= k.x <= WIDE,
    ensures
        v == line(k, t as int),
{
    if k.slope == 1 {
        k.x + (t - k.t)
    } else if k.slope == -1 {
        k.x - (t - k.t)
    } else {
        k.x
    }
}

/// The temperature of the knot after the knot `i`, if there is one.
fn next_knot(w: &Wall, i: usize) -> (r: Option<i64>)
    requires
        i < w.knots@.len(),
    ensures
        r == (if i + 1 < w.knots@.len() {
            Some(w.knots@[i + 1].t)
        } else {
            None
        }),
{
    let n = w.knots.len();
    if i + 1 < n {
        Some(w.knots[i + 1].t)
    } else {
        None
    }
}

/// The earlier of two temperatures that may be missing.
fn earlier(a: Option<i64>, b: Option<i64>) -> (r: Option<i64>)
    ensures
        r == (match (a, b) {
            (Some(x), Some(y)) => Some(if x <= y {
                x
            } else {
                y
            }),
            (Some(x), None) => Some(x),
            (None, y) => y,
        }),
{
    match (a, b) {
        (Some(x), Some(y)) => Some(if x <= y {
            x
        } else {
            y
        }),
        (Some(x), None) => Some(x),
        (None, y) => y,
    }
}

/// The stretch of the knot `i` of the wall holds the temperature `t`.
pub open spec fn on_stretch(s: Seq<Knot>, i: int, t: int) -> bool {
    &&& 0 <= i < s.len()
    &&& s[i].t <= t
    &&& i + 1 < s.len() ==> t < s[i + 1].t
}

/// The place of the stretch that holds `tn`, which is the stretch of the
/// knot `i` or the one after it.
pub open spec fn stretch_at(s: Seq<Knot>, i: int, tn: int) -> int {
    if i + 1 < s.len() && s[i + 1].t == tn {
        i + 1
    } else {
        i
    }
}

/// From the temperature `tc` on the stretch of the knot `i` up to `tn`, which
/// is not beyond the next knot, the wall is the line through the knot `i`.
pub proof fn lemma_stretch_lines(s: Seq<Knot>, lo: int, hi: int, i: int, tc: int, tn: int)
    requires
        knots_wf(s, lo, hi),
        on_stretch(s, i, tc),
        tc <= tn,
        i + 1 < s.len() ==> tn <= s[i + 1].t,
    ensures
        forall|t: int| tc <= t <= tn ==> #[trigger] value(s, t) == line(s[i], t),
        on_stretch(s, stretch_at(s, i, tn), tn),
{
    assert forall|t: int| tc <= t <= tn implies #[trigger] value(s, t) == line(s[i], t) by {
        if i + 1 < s.len() && s[i + 1].t == t {
            lemma_value_on_stretch(s, i + 1, t);
            assert(s[i + 1].x == line(s[i], s[i + 1].t as int));
        } else {
            lemma_value_on_stretch(s, i, t);
        }
    }
}

/// From the temperature `tc` on the last stretch, the wall is the line
/// through the last knot.
pub proof fn lemma_last_stretch(s: Seq<Knot>, lo: int, hi: int, i: int, tc: int)
    requires
        knots_wf(s, lo, hi),
        on_stretch(s, i, tc),
        i + 1 == s.len(),
    ensures
        forall|t: int| tc <= t ==> #[trigger] value(s, t) == line(s[i], t),
{
    assert forall|t: int| tc <= t implies #[trigger] value(s, t) == line(s[i], t) by {
        lemma_value_on_stretch(s, i, t);
    }
}

/// A wall with one more knot, which lies on the line through its last knot
/// and beyond it, is a wall.
pub proof fn lemma_push_wf(s: Seq<Knot>, k: Knot, lo: int, hi: int)
    requires
        -1 <= lo <= hi <= 1,
        lo <= k.slope <= hi,
        -BOUND <= k.t <= BOUND,
        -WIDE <= k.x <= WIDE,
        s.len() == 0 ==> k.t == -UNIT,
        s.len() > 0 ==> knots_wf(s, lo, hi) && s[s.len() - 1].t < k.t && k.x == line(
            s[s.len() - 1],
            k.t as int,
        ),
    ensures
        knots_wf(s.push(k), lo, hi),
{
    let p = s.push(k);
    assert forall|a: int, b: int| 0 <= a < b < p.len() implies p[a].t < p[b].t by {
        if b < s.len() {
            assert(p[a] == s[a] && p[b] == s[b]);
        } else {
            assert(p[a] == s[a]);
            if a < s.len() - 1 {
                assert(s[a].t < s[s.len() - 1].t);
            }
        }
    }
    assert forall|a: int| 0 <= a < p.len() - 1 implies (#[trigger] p[a + 1]).x == line(
        p[a],
        p[a + 1].t as int,
    ) by {
        if a + 1 < s.len() {
            assert(p[a] == s[a] && p[a + 1] == s[a + 1]);
            assert(s[a + 1].x == line(s[a], s[a + 1].t as int));
        } else {
            assert(p[a] == s[a]);
        }
    }
    assert forall|a: int| 0 <= a < p.len() implies lo <= (#[trigger] p[a]).slope <= hi && -BOUND
        <= p[a].t <= BOUND && -WIDE <= p[a].x <= WIDE by {
        if a < s.len() {
            assert(p[a] == s[a]);
        }
    }
    if s.len() > 0 {
        assert(p[0] == s[0]);
    }
}

/// A wall that is the higher of two walls up to `tc` is so up to `tn` with
/// one more knot at `tc`, on the line that is the higher from `tc` to `tn`.
pub proof fn lemma_upper_step(
    out: Seq<Knot>,
    knot: Knot,
    fs: Seq<Knot>,
    gs: Seq<Knot>,
    kf: Knot,
    kg: Knot,
    tn: int,
    bounded: bool,
)
    requires
        out.len() == 0 ==> knot.t == -UNIT,
        out.len() > 0 ==> forall|t: int|
            -UNIT <= t < knot.t ==> value(out, t) == greater(value(fs, t), value(gs, t)),
        bounded ==> forall|t: int|
            knot.t <= t <= tn ==> #[trigger] value(fs, t) == line(kf, t) && value(gs, t) == line(
                kg,
                t,
            ),
        !bounded ==> forall|t: int|
            knot.t <= t ==> #[trigger] value(fs, t) == line(kf, t) && value(gs, t) == line(kg, t),
        forall|t: int|
            knot.t <= t && (bounded ==> t <= tn) ==> #[trigger] line(knot, t) == greater(
                line(kf, t),
                line(kg, t),
            ),
    ensures
        forall|t: int|
            -UNIT <= t && (bounded ==> t <= tn) ==> value(out.push(knot), t) == greater(
                value(fs, t),
                value(gs, t),
            ),
{
    assert forall|t: int| -UNIT <= t && (bounded ==> t <= tn) implies value(out.push(knot), t)
        == greater(value(fs, t), value(gs, t)) by {
        if out.len() > 0 {
            lemma_value_push(out, knot, t);
        } else {
            assert(out.push(knot) =~= seq![knot]);
            lemma_value_single(knot, t);
        }
        if t >= knot.t {
            assert(value(fs, t) == line(kf, t));
            assert(line(knot, t) == greater(line(kf, t), line(kg, t)));
        }
    }
}

/// The line that is the higher of two lines at `tc`, or the less steep
/// where they are level, is the higher of the two up to where they cross.
pub proof fn lemma_top_line(kf: Knot, kg: Knot, knot: Knot, tc: int, tn: int, bounded: bool)
    requires
        -1 <= kf.slope <= 0,
        -1 <= kg.slope <= 0,
        knot.t == tc,
        tc <= tn,
        line(kf, tc) > line(kg, tc) || (line(kf, tc) == line(kg, tc) && kf.slope >= kg.slope) ==> knot.x
            == line(kf, tc) && knot.slope == kf.slope,
        !(line(kf, tc) > line(kg, tc) || (line(kf, tc) == line(kg, tc) && kf.slope >= kg.slope))
            ==> knot.x == line(kg, tc) && knot.slope == kg.slope,
        kf.slope != kg.slope && line(kf, tc) != line(kg, tc) && knot.slope == -1 ==> bounded && tn
            <= tc + (if line(kf, tc) > line(kg, tc) {
            line(kf, tc) - line(kg, tc)
        } else {
            line(kg, tc) - line(kf, tc)
        }),
    ensures
        forall|t: int|
            tc <= t && (bounded ==> t <= tn) ==> #[trigger] line(knot, t) == greater(
                line(kf, t),
                line(kg, t),
            ),
{
    assert forall|t: int| tc <= t && (bounded ==> t <= tn) implies #[trigger] line(knot, t)
        == greater(line(kf, t), line(kg, t)) by {
        let a = line(kf, tc);
        let b = line(kg, tc);
        assert(line(kf, t) == a + kf.slope * (t - tc)) by (nonlinear_arith)
            requires
                -1 <= kf.slope <= 0,
                a == line(kf, tc),
                line(kf, t) == (if kf.slope == -1 {
                    kf.x - (t - kf.t)
                } else {
                    kf.x as int
                }),
                a == (if kf.slope == -1 {
                    kf.x - (tc - kf.t)
                } else {
                    kf.x as int
                }),
        ;
        assert(line(kg, t) == b + kg.slope * (t - tc)) by (nonlinear_arith)
            requires
                -1 <= kg.slope <= 0,
                b == line(kg, tc),
                line(kg, t) == (if kg.slope == -1 {
                    kg.x - (t - kg.t)
                } else {
                    kg.x as int
                }),
                b == (if kg.slope == -1 {
                    kg.x - (tc - kg.t)
                } else {
                    kg.x as int
                }),
        ;
        if kf.slope == kg.slope {
        } else if kf.slope == 0 {
        } else {
        }
    }
}

/// The wall that is, at every temperature from minus one up to the limit,
/// where the higher of the two walls is, both of which fall or stand as the
/// temperature rises.
#[verifier::rlimit(60)]
fn upper(f: &Wall, g: &Wall) -> (w: Wall)
    requires
        f.wf(-1, 0),
        g.wf(-1, 0),
    ensures
        w.wf(-1, 0),
        forall|t: int| -UNIT <= t <= BOUND ==> w.at(t) == greater(f.at(t), g.at(t)),
{
    let mut out: Vec<Knot> = Vec::new();
    let mut i: usize = 0;
    let mut j: usize = 0;
    let mut tc: i64 = -UNIT;
    let mut done = false;
    let ghost fs = f.knots@;
    let ghost gs = g.knots@;
    proof {
        assert(line(fs[0], -UNIT as int) == fs[0].x);
    }
    while !done
        invariant
            fs == f.knots@,
            gs == g.knots@,
            knots_wf(fs, -1, 0),
            knots_wf(gs, -1, 0),
            -UNIT <= tc <= BOUND,
            !done ==> on_stretch(fs, i as int, tc as int) && on_stretch(gs, j as int, tc as int),
            !done ==> greater(line(fs[i as int], tc as int), line(gs[j as int], tc as int)) >= -WIDE,
            out@.len() == 0 ==> tc == -UNIT && !done,
            out@.len() > 0 ==> knots_wf(out@, -1, 0),
            out@.len() > 0 && !done ==> out@[out@.len() - 1].t < tc && line(
                out@[out@.len() - 1],
                tc as int,
            ) == greater(value(fs, tc as int), value(gs, tc as int)),
            out@.len() > 0 ==> forall|t: int|
                -UNIT <= t <= BOUND && (t < tc || done) ==> value(out@, t) == greater(
                    value(fs, t),
                    value(gs, t),
                ),
        decreases
                (if done {
                    0int
                } else {
                    1int
                }),
                2 * ((fs.len() - i) + (gs.len() - j)) + (if line(fs[i as int], tc as int) != line(
                    gs[j as int],
                    tc as int,
                ) {
                    1int
                } else {
                    0int
                }),
    {
        let kf = f.knots[i];
        let kg = g.knots[j];
        proof {
            lemma_knot_times(fs, -1, 0, i as int);
            lemma_knot_times(gs, -1, 0, j as int);
        }
        let a = eval(kf, tc);
        let b = eval(kg, tc);
        let top_is_f = a > b || (a == b && kf.slope >= kg.slope);
        let (x, slope, other) = if top_is_f {
            (a, kf.slope, kg.slope)
        } else {
            (b, kg.slope, kf.slope)
        };
        assert(-WIDE <= x <= WIDE);
        let knot = Knot { t: tc, x, slope };
        let ghost before = out@;
        let gap: i128 = if a > b {
            a as i128 - b as i128
        } else {
            b as i128 - a as i128
        };
        // Where the higher wall, which falls, comes down to the other, which
        // stands; beyond the limit of temperatures it is not looked for.
        let crossing: Option<i64> = if slope == -1 && other == 0 && a != b {
            if gap > (BOUND - tc) as i128 {
                None
            } else {
                Some(tc + gap as i64)
            }
        } else {
            None
        };
        let next = earlier(earlier(next_knot(f, i), next_knot(g, j)), crossing);
        proof {
            lemma_stretch_lines(fs, -1, 0, i as int, tc as int, tc as int);
            lemma_stretch_lines(gs, -1, 0, j as int, tc as int, tc as int);
            lemma_push_wf(before, knot, -1, 0);
        }
        out.push(knot);
        match next {
            None => {
                proof {
                    lemma_last_stretch(fs, -1, 0, i as int, tc as int);
                    lemma_last_stretch(gs, -1, 0, j as int, tc as int);
                    lemma_top_line(kf, kg, knot, tc as int, BOUND as int, true);
                    lemma_upper_step(before, knot, fs, gs, kf, kg, BOUND as int, true);
                }
                done = true;
            },
            Some(tn) => {
                proof {
                    lemma_stretch_lines(fs, -1, 0, i as int, tc as int, tn as int);
                    lemma_stretch_lines(gs, -1, 0, j as int, tc as int, tn as int);
                    lemma_top_line(kf, kg, knot, tc as int, tn as int, true);
                    lemma_upper_step(before, knot, fs, gs, kf, kg, tn as int, true);
                    assert(value(fs, tn as int) == line(kf, tn as int));
                    assert(value(gs, tn as int) == line(kg, tn as int));
                }
                let nf = f.knots.len();
                let ng = g.knots.len();
                let step_f = i + 1 < nf && f.knots[i + 1].t == tn;
                let step_g = j + 1 < ng && g.knots[j + 1].t == tn;
                proof {
                    // At a knot the wall of the knot is within the limits,
                    // and where the walls cross the one that stands is.
                    if step_f {
                        assert(line(fs[i + 1], tn as int) == fs[i + 1].x);
                    } else if step_g {
                        assert(line(gs[j + 1], tn as int) == gs[j + 1].x);
                    } else {
                        assert(crossing == Some(tn));
                        if top_is_f {
                            assert(line(kg, tn as int) == kg.x);
                        } else {
                            assert(line(kf, tn as int) == kf.x);
                        }
                    }
                }
                if step_f {
                    i += 1;
                }
                if step_g {
                    j += 1;
                }
                proof {
                    assert(fs[i as int].t == tn ==> line(fs[i as int], tn as int) == fs[i as int].x);
                    assert(line(fs[i as int], tn as int) == value(fs, tn as int)) by {
                        lemma_value_on_stretch(fs, i as int, tn as int);
                    }
                    assert(line(gs[j as int], tn as int) == value(gs, tn as int)) by {
                        lemma_value_on_stretch(gs, j as int, tn as int);
                    }
                }
                tc = tn;
            },
        }
    }
    Wall { knots: out }
}

/// The wall that is, at every temperature from minus one up to the limit,
/// where the lower of the two walls is, both of which rise or stand as the
/// temperature rises.
fn lower(f: &Wall, g: &Wall) -> (w: Wall)
    requires
        f.wf(0, 1),
        g.wf(0, 1),
    ensures
        w.wf(0, 1),
        forall|t: int| -UNIT <= t <= BOUND ==> w.at(t) == -greater(-f.at(t), -g.at(t)),
{
    let nf = f.negated(Ghost(0), Ghost(1));
    let ng = g.negated(Ghost(0), Ghost(1));
    let u = upper(&nf, &ng);
    u.negated(Ghost(-1), Ghost(0))
}

/// The walls `ls`, which falls or stands, and `rs`, which rises or stands,
/// meet at the temperature `tau`: it is within the limits, as is the place
/// of the walls there; the first wall is not above the second at `tau`, and
/// level with it unless `tau` is minus one; and before `tau` the first wall
/// is above the second.
pub open spec fn meets(ls: Seq<Knot>, rs: Seq<Knot>, tau: int) -> bool {
    &&& -UNIT <= tau <= BOUND
    &&& -BOUND <= value(ls, tau) <= BOUND
    &&& value(ls, tau) <= value(rs, tau)
    &&& tau > -UNIT ==> value(ls, tau) == value(rs, tau)
    &&& forall|t: int| -UNIT <= t < tau ==> value(ls, t) > value(rs, t)
}

/// How far apart two lines are at `t`, from how far apart they are at `tc`.
proof fn lemma_gap(kl: Knot, kr: Knot, tc: int, t: int)
    requires
        -1 <= kl.slope <= 0,
        0 <= kr.slope <= 1,
    ensures
        kr.slope - kl.slope == 0 ==> line(kl, t) - line(kr, t) == line(kl, tc) - line(kr, tc),
        kr.slope - kl.slope == 1 ==> line(kl, t) - line(kr, t) == line(kl, tc) - line(kr, tc) - (t
            - tc),
        kr.slope - kl.slope == 2 ==> line(kl, t) - line(kr, t) == line(kl, tc) - line(kr, tc) - 2
            * (t - tc),
{
}

/// Walls that are level at `tc` for the first time, at a place beyond the
/// limit, meet nowhere.
proof fn lemma_meet_beyond(ls: Seq<Knot>, rs: Seq<Knot>, tc: int)
    requires
        -UNIT <= tc,
        forall|t: int| -UNIT <= t < tc ==> value(ls, t) > value(rs, t),
        value(ls, tc) <= value(rs, tc),
        value(ls, tc) > BOUND || value(ls, tc) < -BOUND,
    ensures
        forall|tau: int| !meets(ls, rs, tau),
{
    assert forall|tau: int| !meets(ls, rs, tau) by {
        if meets(ls, rs, tau) {
            if tau < tc {
                assert(value(ls, tau) > value(rs, tau));
            } else if tau > tc {
                assert(value(ls, tc) > value(rs, tc));
            }
        }
    }
}

/// Walls that are apart at `tc` and are lines from there on, up to `tn`
/// where `bounded`, meet nowhere where the lines stay apart up to the limit
/// or cross between two temperatures.
proof fn lemma_no_meeting(
    ls: Seq<Knot>,
    rs: Seq<Knot>,
    kl: Knot,
    kr: Knot,
    tc: int,
    tn: int,
    bounded: bool,
)
    requires
        -UNIT <= tc <= BOUND,
        -1 <= kl.slope <= 0,
        0 <= kr.slope <= 1,
        forall|t: int| -UNIT <= t < tc ==> value(ls, t) > value(rs, t),
        forall|t: int|
            tc <= t && (bounded ==> t <= tn) ==> #[trigger] value(ls, t) == line(kl, t) && value(
                rs,
                t,
            ) == line(kr, t),
        line(kl, tc) > line(kr, tc),
        ({
            let gap = line(kl, tc) - line(kr, tc);
            let closing = kr.slope - kl.slope;
            ||| !bounded && closing == 0
            ||| !bounded && closing == 1 && gap > BOUND - tc
            ||| !bounded && closing == 2 && gap > 2 * (BOUND - tc)
            ||| closing == 2 && gap % 2 != 0 && (bounded ==> gap / 2 < tn - tc)
        }),
    ensures
        forall|tau: int| !meets(ls, rs, tau),
{
    let gap = line(kl, tc) - line(kr, tc);
    let closing = kr.slope - kl.slope;
    assert forall|tau: int| !meets(ls, rs, tau) by {
        if meets(ls, rs, tau) {
            if tau < tc {
                assert(value(ls, tau) > value(rs, tau));
            } else if !bounded || tau <= tn {
                lemma_gap(kl, kr, tc, tau);
                assert(value(ls, tau) == line(kl, tau) && value(rs, tau) == line(kr, tau));
                assert(line(kl, tau) - line(kr, tau) <= 0);
                if closing == 2 && gap % 2 != 0 {
                    assert(tau > tc);
                    assert(line(kl, tau) - line(kr, tau) == 0);
                }
            } else {
                // The lines cross between two temperatures before `tn`.
                let t = tc + gap / 2 + 1;
                lemma_gap(kl, kr, tc, t);
                assert(value(ls, t) == line(kl, t) && value(rs, t) == line(kr, t));
                assert(value(ls, t) > value(rs, t));
            }
        }
    }
}

/// Walls that are apart before `tau` and level there, at a place beyond the
/// limit, meet nowhere.
proof fn lemma_meet_once(ls: Seq<Knot>, rs: Seq<Knot>, tau: int)
    requires
        -UNIT <= tau,
        forall|t: int| -UNIT <= t < tau ==> value(ls, t) > value(rs, t),
        value(ls, tau) <= value(rs, tau),
    ensures
        forall|other: int| meets(ls, rs, other) ==> other == tau,
{
    assert forall|other: int| meets(ls, rs, other) implies other == tau by {
        if other < tau {
            assert(value(ls, other) > value(rs, other));
        } else if other > tau {
            assert(value(ls, tau) > value(rs, tau));
        }
    }
}

/// The least temperature from minus one on at which the wall `l`, which
/// falls or stands, is not above the wall `r`, which rises or stands, and
/// where `l` is then; none where the walls do not meet within the limits.
fn meet(l: &Wall, r: &Wall) -> (m: Option<(i64, i64)>)
    requires
        l.wf(-1, 0),
        r.wf(0, 1),
    ensures
        m matches Some((tau, mast)) ==> meets(l.knots@, r.knots@, tau as int) && mast == l.at(
            tau as int,
        ),
        m is None ==> forall|tau: int| !meets(l.knots@, r.knots@, tau),
{
    let mut i: usize = 0;
    let mut j: usize = 0;
    let mut tc: i64 = -UNIT;
    let ghost ls = l.knots@;
    let ghost rs = r.knots@;
    loop
        invariant
            ls == l.knots@,
            rs == r.knots@,
            knots_wf(ls, -1, 0),
            knots_wf(rs, 0, 1),
            -UNIT <= tc <= BOUND,
            on_stretch(ls, i as int, tc as int),
            on_stretch(rs, j as int, tc as int),
            forall|t: int| -UNIT <= t < tc ==> value(ls, t) > value(rs, t),
            tc > -UNIT ==> value(ls, tc as int) >= value(rs, tc as int),
        decreases (ls.len() - i) + (rs.len() - j),
    {
        let kl = l.knots[i];
        let kr = r.knots[j];
        proof {
            lemma_knot_times(ls, -1, 0, i as int);
            lemma_knot_times(rs, 0, 1, j as int);
        }
        let a = eval(kl, tc);
        let b = eval(kr, tc);
        proof {
            lemma_stretch_lines(ls, -1, 0, i as int, tc as int, tc as int);
            lemma_stretch_lines(rs, 0, 1, j as int, tc as int, tc as int);
        }
        if a <= b {
            if a > BOUND || a < -BOUND {
                proof {
                    lemma_meet_beyond(ls, rs, tc as int);
                }
                return None;
            }
            return Some((tc, a));
        }
        let gap: i128 = a as i128 - b as i128;
        let next = earlier(next_knot(l, i), next_knot(r, j));
        proof {
            match next {
                Some(tn) => {
                    lemma_stretch_lines(ls, -1, 0, i as int, tc as int, tn as int);
                    lemma_stretch_lines(rs, 0, 1, j as int, tc as int, tn as int);
                },
                None => {
                    lemma_last_stretch(ls, -1, 0, i as int, tc as int);
                    lemma_last_stretch(rs, 0, 1, j as int, tc as int);
                },
            }
        }
        // After how long the walls meet if they go on as they do: never
        // where both stand, and between two temperatures where they close in
        // on each other from an odd distance.
        let closing = kr.slope - kl.slope;
        let after: Option<i128> = if closing == 1 {
            Some(gap)
        } else if closing == 2 {
            if gap % 2 != 0 {
                match next {
                    Some(tn) => {
                        if gap / 2 < (tn - tc) as i128 {
                            proof {
                                lemma_no_meeting(ls, rs, kl, kr, tc as int, tn as int, true);
                            }
                            return None;
                        }
                        None
                    },
                    None => {
                        proof {
                            lemma_no_meeting(ls, rs, kl, kr, tc as int, 0, false);
                        }
                        return None;
                    },
                }
            } else {
                Some(gap / 2)
            }
        } else {
            None
        };
        let within = match (after, next) {
            (Some(d), Some(tn)) => d <= (tn - tc) as i128,
            (Some(_), None) => true,
            (None, _) => false,
        };
        if within {
            let d: i128 = match after {
                Some(d) => d,
                None => 0,
            };
            if d > (BOUND - tc) as i128 {
                proof {
                    lemma_no_meeting(ls, rs, kl, kr, tc as int, 0, false);
                }
                return None;
            }
            let tau = tc + d as i64;
            let mast = eval(kl, tau);
            proof {
                lemma_gap(kl, kr, tc as int, tau as int);
                lemma_meeting(ls, rs, kl, kr, tc as int, tau as int);
            }
            if mast > BOUND || mast < -BOUND {
                proof {
                    lemma_meet_once(ls, rs, tau as int);
                }
                return None;
            }
            return Some((tau, mast));
        }
        match next {
            None => {
                proof {
                    lemma_no_meeting(ls, rs, kl, kr, tc as int, 0, false);
                }
                return None;
            },
            Some(tn) => {
                proof {
                    lemma_gap(kl, kr, tc as int, tn as int);
                    lemma_apart(ls, rs, kl, kr, tc as int, tn as int);
                }
                let nl = l.knots.len();
                let nr = r.knots.len();
                let step_l = i + 1 < nl && l.knots[i + 1].t == tn;
                let step_r = j + 1 < nr && r.knots[j + 1].t == tn;
                if step_l {
                    i += 1;
                }
                if step_r {
                    j += 1;
                }
                tc = tn;
            },
        }
    }
}

/// Two walls that are lines from `tc` to `tau` and meet at `tau` are apart
/// before.
pub proof fn lemma_meeting(ls: Seq<Knot>, rs: Seq<Knot>, kl: Knot, kr: Knot, tc: int, tau: int)
    requires
        tc <= tau,
        -1 <= kl.slope <= 0,
        0 <= kr.slope <= 1,
        forall|t: int| tc <= t <= tau ==> #[trigger] value(ls, t) == line(kl, t),
        forall|t: int| tc <= t <= tau ==> #[trigger] value(rs, t) == line(kr, t),
        forall|t: int| -UNIT <= t < tc ==> value(ls, t) > value(rs, t),
        line(kl, tc) > line(kr, tc),
        line(kl, tau) == line(kr, tau),
    ensures
        value(ls, tau) == value(rs, tau),
        value(ls, tau) == line(kl, tau),
        forall|t: int| -UNIT <= t < tau ==> value(ls, t) > value(rs, t),
{
    assert forall|t: int| -UNIT <= t < tau implies value(ls, t) > value(rs, t) by {
        if t >= tc {
            assert(value(ls, t) == line(kl, t));
            assert(value(rs, t) == line(kr, t));
        }
    }
    assert(value(ls, tau) == line(kl, tau));
    assert(value(rs, tau) == line(kr, tau));
}

/// Two walls that are lines from `tc` to `tn` and have not met by `tn` are
/// apart before `tn`.
pub proof fn lemma_apart(ls: Seq<Knot>, rs: Seq<Knot>, kl: Knot, kr: Knot, tc: int, tn: int)
    requires
        tc <= tn,
        -1 <= kl.slope <= 0,
        0 <= kr.slope <= 1,
        forall|t: int| tc <= t <= tn ==> #[trigger] value(ls, t) == line(kl, t),
        forall|t: int| tc <= t <= tn ==> #[trigger] value(rs, t) == line(kr, t),
        forall|t: int| -UNIT <= t < tc ==> value(ls, t) > value(rs, t),
        line(kl, tc) > line(kr, tc),
        line(kl, tn) >= line(kr, tn),
        line(kl, tn) == line(kr, tn) ==> kl.slope == 0 && kr.slope == 0,
    ensures
        forall|t: int| -UNIT <= t < tn ==> value(ls, t) > value(rs, t),
        value(ls, tn) >= value(rs, tn),
{
    assert forall|t: int| -UNIT <= t < tn implies value(ls, t) > value(rs, t) by {
        if t >= tc {
            assert(value(ls, t) == line(kl, t));
            assert(value(rs, t) == line(kr, t));
        }
    }
    assert(value(ls, tn) == line(kl, tn));
    assert(value(rs, tn) == line(kr, tn));
}

/// Where the scaffold over the first `n` walls is at the temperature `t`:
/// for Left the highest of the walls, each less `t`; for Right the lowest of
/// the walls, each plus `t`.
pub open spec fn scaffold(walls: Seq<Seq<Knot>>, n: int, t: int, left: bool) -> int
    decreases n,
{
    let own = if left {
        value(walls[n - 1], t) - t
    } else {
        value(walls[n - 1], t) + t
    };
    if n <= 1 {
        own
    } else if left {
        greater(scaffold(walls, n - 1, t, left), own)
    } else {
        -greater(-scaffold(walls, n - 1, t, left), -own)
    }
}

/// Whether the knots of the wall are within the limit of values.
fn is_narrow(w: &Wall) -> (r: bool)
    ensures
        r == narrow(w.knots@),
{
    let mut i: usize = 0;
    while i < w.knots.len()
        invariant
            i <= w.knots@.len(),
            forall|j: int| 0 <= j < i ==> -BOUND <= (#[trigger] w.knots@[j]).x <= BOUND,
        decreases w.knots@.len() - i,
    {
        let x = w.knots[i].x;
        if x > BOUND || x < -BOUND {
            return false;
        }
        i += 1;
    }
    true
}

/// The place of the stretch of the first `n` knots that holds `t`.
proof fn lemma_stretch_exists(s: Seq<Knot>, n: int, t: int) -> (i: int)
    requires
        1 <= n <= s.len(),
        s[0].t <= t,
    ensures
        0 <= i < n,
        s[i].t <= t,
        i + 1 < n ==> t < s[i + 1].t,
    decreases n,
{
    if n == 1 || s[n - 1].t <= t {
        n - 1
    } else {
        lemma_stretch_exists(s, n - 1, t)
    }
}

/// A wall within the limit of values that stands at `mast` from `tau` on is
/// within the limit at every temperature from minus one on.
proof fn lemma_narrow_wall(s: Seq<Knot>, lo: int, hi: int, tau: int, mast: int, t: int)
    requires
        knots_wf(s, lo, hi),
        narrow(s),
        -UNIT <= tau,
        -BOUND <= mast <= BOUND,
        forall|u: int| tau <= u ==> value(s, u) == mast,
        -UNIT <= t,
    ensures
        -BOUND <= value(s, t) <= BOUND,
{
    let i = lemma_stretch_exists(s, s.len() as int, t);
    lemma_value_on_stretch(s, i, t);
    assert(-BOUND <= s[i].x <= BOUND);
    if i + 1 < s.len() {
        assert(s[i + 1].x == line(s[i], s[i + 1].t as int));
        assert(-BOUND <= s[i + 1].x <= BOUND);
    } else if t < tau {
        lemma_value_on_stretch(s, i, tau);
    }
}

/// The temperature of a thermograph of the options is where the scaffolds
/// meet.
proof fn lemma_options_meet(
    th: Thermograph,
    lefts: Seq<Seq<Knot>>,
    rights: Seq<Seq<Knot>>,
    ls: Seq<Knot>,
    rs: Seq<Knot>,
)
    requires
        th.of_options(lefts, rights),
        forall|t: int| -UNIT <= t <= BOUND ==> value(ls, t) == scaffold(lefts, lefts.len() as int, t, true),
        forall|t: int|
            -UNIT <= t <= BOUND ==> value(rs, t) == scaffold(rights, rights.len() as int, t, false),
    ensures
        meets(ls, rs, th.temperature as int),
        th.mast == value(ls, th.temperature as int),
{
    reveal(Thermograph::of_options);
    let tau = th.temperature as int;
    assert forall|t: int| -UNIT <= t < tau implies value(ls, t) > value(rs, t) by {
        assert(scaffold(lefts, lefts.len() as int, t, true) > scaffold(
            rights,
            rights.len() as int,
            t,
            false,
        ));
    }
}

/// A thermograph of the options has the walls that the scaffolds make up
/// to its temperature, so that no knot of those walls is beyond the limit.
proof fn lemma_wide_knot(
    th: Thermograph,
    lefts: Seq<Seq<Knot>>,
    rights: Seq<Seq<Knot>>,
    ls: Seq<Knot>,
    rs: Seq<Knot>,
    lc: Seq<Knot>,
    rc: Seq<Knot>,
)
    requires
        th.of_options(lefts, rights),
        forall|t: int| -UNIT <= t <= BOUND ==> value(ls, t) == scaffold(lefts, lefts.len() as int, t, true),
        forall|t: int|
            -UNIT <= t <= BOUND ==> value(rs, t) == scaffold(rights, rights.len() as int, t, false),
        knots_wf(lc, -1, 0),
        knots_wf(rc, 0, 1),
        forall|t: int|
            -UNIT <= t ==> value(lc, t) == (if t < th.temperature {
                value(ls, t)
            } else {
                th.mast as int
            }),
        forall|t: int|
            -UNIT <= t ==> value(rc, t) == (if t < th.temperature {
                value(rs, t)
            } else {
                th.mast as int
            }),
    ensures
        narrow(lc),
        narrow(rc),
{
    reveal(Thermograph::of_options);
    let tau = th.temperature as int;
    let nl = lefts.len() as int;
    let nr = rights.len() as int;
    assert forall|u: int| tau <= u implies value(th.left.knots@, u) == th.mast by {
        assert(th.left.at(u) == th.mast);
    }
    assert forall|u: int| tau <= u implies value(th.right.knots@, u) == th.mast by {
        assert(th.right.at(u) == th.mast);
    }
    assert forall|i: int| 0 <= i < lc.len() implies -BOUND <= (#[trigger] lc[i]).x <= BOUND by {
        let t = lc[i].t as int;
        lemma_knot_times(lc, -1, 0, i);
        lemma_value_on_stretch(lc, i, t);
        assert(value(lc, t) == lc[i].x);
        lemma_narrow_wall(th.left.knots@, -1, 0, tau, th.mast as int, t);
        if t < tau {
            assert(value(ls, t) == scaffold(lefts, nl, t, true));
            assert(th.left.at(t) == scaffold(lefts, nl, t, true));
        }
    }
    assert forall|i: int| 0 <= i < rc.len() implies -BOUND <= (#[trigger] rc[i]).x <= BOUND by {
        let t = rc[i].t as int;
        lemma_knot_times(rc, 0, 1, i);
        lemma_value_on_stretch(rc, i, t);
        assert(value(rc, t) == rc[i].x);
        lemma_narrow_wall(th.right.knots@, 0, 1, tau, th.mast as int, t);
        if t < tau {
            assert(value(rs, t) == scaffold(rights, nr, t, false));
            assert(th.right.at(t) == scaffold(rights, nr, t, false));
        }
    }
}

impl Thermograph {
    /// The walls are walls, the left one falling or standing and the right
    /// one rising or standing.
    pub open spec fn wf(&self) -> bool {
        &&& self.left.wf(-1, 0)
        &&& self.right.wf(0, 1)
        &&& narrow(self.left.knots@)
        &&& narrow(self.right.knots@)
        &&& -UNIT <= self.temperature <= BOUND
        &&& -BOUND <= self.mast <= BOUND
    }

    /// This is the thermograph of the number `x` whose denominator is `unit`
    /// in fixed point: both walls stand at `x`, and the temperature is the
    /// negative of the denominator's inverse.
    pub open spec fn of_number(&self, x: int, step: int) -> bool {
        &&& self.wf()
        &&& self.mast == x
        &&& self.temperature == -step
        &&& forall|t: int| self.left.at(t) == x
        &&& forall|t: int| self.right.at(t) == x
    }

    /// This is the thermograph of a game whose left options have the right
    /// walls `lefts` and whose right options have the left walls `rights`.
    ///
    /// The left scaffold is the highest of `lefts`, each less the
    /// temperature, and the right scaffold the lowest of `rights`, each plus
    /// the temperature. The temperature of the game is the least from minus
    /// one on at which the left scaffold is not above the right one; below it
    /// the walls are the scaffolds, and from it on both are the mast.
    #[verifier::opaque]
    pub open spec fn of_options(&self, lefts: Seq<Seq<Knot>>, rights: Seq<Seq<Knot>>) -> bool {
        let tau = self.temperature as int;
        let nl = lefts.len() as int;
        let nr = rights.len() as int;
        &&& self.wf()
        &&& nl >= 1
        &&& nr >= 1
        &&& scaffold(lefts, nl, tau, true) <= scaffold(rights, nr, tau, false)
        &&& tau > -UNIT ==> scaffold(lefts, nl, tau, true) == scaffold(rights, nr, tau, false)
        &&& self.mast == scaffold(lefts, nl, tau, true)
        &&& forall|t: int|
            -UNIT <= t < tau ==> scaffold(lefts, nl, t, true) > scaffold(rights, nr, t, false)
        &&& forall|t: int|
            -UNIT <= t ==> self.left.at(t) == (if t < tau {
                scaffold(lefts, nl, t, true)
            } else {
                self.mast as int
            })
        &&& forall|t: int|
            -UNIT <= t ==> self.right.at(t) == (if t < tau {
                scaffold(rights, nr, t, false)
            } else {
                self.mast as int
            })
    }

    /// The thermograph of the number `x` with the denominator `2^exponent`.
    pub fn number(x: i64, step: i64) -> (th: Thermograph)
        requires
            -BOUND <= x <= BOUND,
            0 <= step <= UNIT,
        ensures
            th.of_number(x as int, step as int),
    {
        Thermograph {
            left: Wall::constant(x),
            right: Wall::constant(x),
            temperature: -step,
            mast: x,
        }
    }

    /// The thermograph made of the two scaffolds; none where no thermograph
    /// within the limits has these scaffolds.
    fn from_scaffolds(
        left: &Wall,
        right: &Wall,
        Ghost(lefts): Ghost<Seq<Seq<Knot>>>,
        Ghost(rights): Ghost<Seq<Seq<Knot>>>,
    ) -> (r: Option<Thermograph>)
        requires
            left.wf(-1, 0),
            right.wf(0, 1),
            lefts.len() >= 1,
            rights.len() >= 1,
            forall|t: int|
                -UNIT <= t <= BOUND ==> left.at(t) == scaffold(lefts, lefts.len() as int, t, true),
            forall|t: int|
                -UNIT <= t <= BOUND ==> right.at(t) == scaffold(
                    rights,
                    rights.len() as int,
                    t,
                    false,
                ),
        ensures
            r matches Some(th) ==> th.of_options(lefts, rights),
            r is None ==> forall|th: Thermograph| !th.of_options(lefts, rights),
    {
        proof {
            assert forall|t: int| -UNIT <= t <= BOUND implies value(left.knots@, t) == scaffold(
                lefts,
                lefts.len() as int,
                t,
                true,
            ) by {
                assert(left.at(t) == scaffold(lefts, lefts.len() as int, t, true));
            }
            assert forall|t: int| -UNIT <= t <= BOUND implies value(right.knots@, t) == scaffold(
                rights,
                rights.len() as int,
                t,
                false,
            ) by {
                assert(right.at(t) == scaffold(rights, rights.len() as int, t, false));
            }
            assert forall|th: Thermograph| th.of_options(lefts, rights) implies meets(
                left.knots@,
                right.knots@,
                th.temperature as int,
            ) by {
                lemma_options_meet(th, lefts, rights, left.knots@, right.knots@);
            }
        }
        match meet(left, right) {
            Some((tau, mast)) => {
                let l = left.capped(tau, mast, Ghost(-1), Ghost(0));
                let r = if tau > -UNIT {
                    right.capped(tau, mast, Ghost(0), Ghost(1))
                } else {
                    Wall::constant(mast)
                };
                let fine = is_narrow(&l) && is_narrow(&r);
                if !fine {
                    proof {
                        lemma_meet_once(left.knots@, right.knots@, tau as int);
                        assert forall|th: Thermograph| !th.of_options(lefts, rights) by {
                            if th.of_options(lefts, rights) {
                                lemma_options_meet(th, lefts, rights, left.knots@, right.knots@);
                                assert(th.temperature == tau);
                                assert(th.mast == mast);
                                assert forall|t: int| -UNIT <= t implies value(l.knots@, t) == (if t
                                    < th.temperature {
                                    value(left.knots@, t)
                                } else {
                                    th.mast as int
                                }) by {
                                    assert(l.at(t) == (if t < tau {
                                        left.at(t)
                                    } else {
                                        mast as int
                                    }));
                                }
                                assert forall|t: int| -UNIT <= t implies value(r.knots@, t) == (if t
                                    < th.temperature {
                                    value(right.knots@, t)
                                } else {
                                    th.mast as int
                                }) by {
                                    if tau > -UNIT {
                                        assert(r.at(t) == (if t < tau {
                                            right.at(t)
                                        } else {
                                            mast as int
                                        }));
                                    } else {
                                        assert(r.at(t) == mast);
                                    }
                                }
                                lemma_wide_knot(
                                    th,
                                    lefts,
                                    rights,
                                    left.knots@,
                                    right.knots@,
                                    l.knots@,
                                    r.knots@,
                                );
                            }
                        }
                    }
                    return None;
                }
                let th = Thermograph { left: l, right: r, temperature: tau, mast };
                proof {
                    reveal(Thermograph::of_options);
                    let nl = lefts.len() as int;
                    let nr = rights.len() as int;
                    assert(left.at(tau as int) == scaffold(lefts, nl, tau as int, true));
                    assert(right.at(tau as int) == scaffold(rights, nr, tau as int, false));
                    assert forall|t: int| -UNIT <= t < tau implies scaffold(lefts, nl, t, true)
                        > scaffold(rights, nr, t, false) by {
                        assert(left.at(t) > right.at(t));
                    }
                    assert forall|t: int| -UNIT <= t implies th.left.at(t) == (if t < tau {
                        scaffold(lefts, nl, t, true)
                    } else {
                        th.mast as int
                    }) by {
                        if t < tau {
                            assert(left.at(t) == scaffold(lefts, nl, t, true));
                        }
                    }
                    assert forall|t: int| -UNIT <= t implies th.right.at(t) == (if t < tau {
                        scaffold(rights, nr, t, false)
                    } else {
                        th.mast as int
                    }) by {
                        if t < tau {
                            assert(right.at(t) == scaffold(rights, nr, t, false));
                        }
                    }
                }
                Some(th)
            },
            None => None,
        }
    }

    /// A copy of the thermograph.
    pub fn duplicate(&self) -> (th: Thermograph)
        ensures
            th.left.knots@ == self.left.knots@,
            th.right.knots@ == self.right.knots@,
            th.temperature == self.temperature,
            th.mast == self.mast,
    {
        Thermograph {
            left: self.left.duplicate(),
            right: self.right.duplicate(),
            temperature: self.temperature,
            mast: self.mast,
        }
    }
}

/// The scaffold over one wall more is the better of the scaffold so far and
/// the new wall, tilted.
pub proof fn lemma_scaffold_step(walls: Seq<Seq<Knot>>, n: int, t: int, left: bool)
    requires
        n >= 1,
    ensures
        scaffold(walls, n + 1, t, left) == (if left {
            greater(scaffold(walls, n, t, left), value(walls[n], t) - t)
        } else {
            -greater(-scaffold(walls, n, t, left), -(value(walls[n], t) + t))
        }),
{
    assert((n + 1) - 1 == n);
}

/// A scaffold depends only on the walls that it is over.
pub proof fn lemma_scaffold_same(a: Seq<Seq<Knot>>, b: Seq<Seq<Knot>>, n: int, t: int, left: bool)
    requires
        1 <= n <= a.len(),
        n <= b.len(),
        forall|i: int| 0 <= i < n ==> a[i] == b[i],
    ensures
        scaffold(a, n, t, left) == scaffold(b, n, t, left),
    decreases n,
{
    if n > 1 {
        lemma_scaffold_same(a, b, n - 1, t, left);
    }
}

/// The walls that the scaffold of a game is made of: the right walls of its
/// left options (`left`), or the left walls of its right options.
pub open spec fn option_walls(thermo: Seq<Option<Thermograph>>, ids: Seq<usize>, left: bool) -> Seq<
    Seq<Knot>,
> {
    Seq::new(
        ids.len(),
        |k: int|
            if left {
                thermo[ids[k] as int]->0.right.knots@
            } else {
                thermo[ids[k] as int]->0.left.knots@
            },
    )
}

/// Every game of the list has a thermograph.
pub open spec fn all_known(thermo: Seq<Option<Thermograph>>, ids: Seq<usize>) -> bool {
    forall|k: int|
        0 <= k < ids.len() ==> (#[trigger] ids[k]) < thermo.len() && thermo[ids[k] as int] is Some
            && thermo[ids[k] as int]->0.wf()
}

/// The left scaffold (`left`) or the right scaffold of a game whose options
/// on that side are the games `ids`, up to the limit of temperatures.
fn build_scaffold(thermo: &Vec<Option<Thermograph>>, ids: &Vec<usize>, left: bool) -> (w: Wall)
    requires
        ids@.len() >= 1,
        all_known(thermo@, ids@),
    ensures
        left ==> w.wf(-1, 0),
        !left ==> w.wf(0, 1),
        forall|t: int|
            -UNIT <= t <= BOUND ==> w.at(t) == scaffold(
                option_walls(thermo@, ids@, left),
                ids@.len() as int,
                t,
                left,
            ),
{
    let ghost walls = option_walls(thermo@, ids@, left);
    let mut acc = tilted_wall(thermo, ids[0], left);
    let mut k: usize = 1;
    while k < ids.len()
        invariant
            ids@.len() >= 1,
            all_known(thermo@, ids@),
            walls == option_walls(thermo@, ids@, left),
            1 <= k <= ids@.len(),
            left ==> acc.wf(-1, 0),
            !left ==> acc.wf(0, 1),
            forall|t: int| -UNIT <= t <= BOUND ==> acc.at(t) == scaffold(walls, k as int, t, left),
        decreases ids@.len() - k,
    {
        let next = tilted_wall(thermo, ids[k], left);
        let ghost before = acc;
        let w = if left {
            upper(&acc, &next)
        } else {
            lower(&acc, &next)
        };
        proof {
            assert forall|t: int| -UNIT <= t <= BOUND implies w.at(t) == scaffold(
                walls,
                k + 1,
                t,
                left,
            ) by {
                lemma_scaffold_step(walls, k as int, t, left);
                assert(before.at(t) == scaffold(walls, k as int, t, left));
            }
        }
        acc = w;
        k += 1;
    }
    acc
}

/// The right wall of the game `id` less the temperature (`left`), or its
/// left wall plus the temperature.
fn tilted_wall(thermo: &Vec<Option<Thermograph>>, id: usize, left: bool) -> (w: Wall)
    requires
        id < thermo@.len(),
        thermo@[id as int] is Some,
        thermo@[id as int]->0.wf(),
    ensures
        left ==> w.wf(-1, 0),
        !left ==> w.wf(0, 1),
        forall|t: int|
            w.at(t) == (if left {
                value(thermo@[id as int]->0.right.knots@, t) - t
            } else {
                value(thermo@[id as int]->0.left.knots@, t) + t
            }),
{
    match &thermo[id] {
        Some(th) => {
            if left {
                th.right.tilted(false, Ghost(0), Ghost(1))
            } else {
                th.left.tilted(true, Ghost(-1), Ghost(0))
            }
        },
        None => Wall::constant(0),
    }
}

/// The entry at `i` of the list of thermographs is the thermograph of the
/// game at `i`: that of a number where the game is told to be a number, and
/// else the thermograph made from the walls of its options, which all have
/// their thermographs in the list.
pub open spec fn thermograph_at(
    thermo: Seq<Option<Thermograph>>,
    tags: Seq<Option<Nus>>,
    lefts: Seq<Seq<usize>>,
    rights: Seq<Seq<usize>>,
    i: int,
) -> bool {
    let th = thermo[i]->0;
    if tags[i] is Some && tags[i]->0.is_number() {
        th.of_number(tags[i]->0.number.scaled(), tags[i]->0.number.step())
    } else {
        &&& all_known(thermo, lefts[i])
        &&& all_known(thermo, rights[i])
        &&& th.of_options(option_walls(thermo, lefts[i], true), option_walls(thermo, rights[i], false))
    }
}

/// A thermograph of the list stays the thermograph of its game when the
/// lists grow and keep what they held.
pub proof fn lemma_thermograph_stable(
    thermo: Seq<Option<Thermograph>>,
    thermo2: Seq<Option<Thermograph>>,
    tags: Seq<Option<Nus>>,
    tags2: Seq<Option<Nus>>,
    lefts: Seq<Seq<usize>>,
    lefts2: Seq<Seq<usize>>,
    rights: Seq<Seq<usize>>,
    rights2: Seq<Seq<usize>>,
    i: int,
)
    requires
        0 <= i < thermo.len() <= thermo2.len(),
        i < tags.len(),
        i < tags2.len(),
        thermo[i] is Some,
        thermo2[i] == thermo[i],
        tags2[i] == tags[i],
        lefts2[i] == lefts[i],
        rights2[i] == rights[i],
        forall|x: int| 0 <= x < thermo.len() && thermo[x] is Some ==> thermo2[x] == thermo[x],
        thermograph_at(thermo, tags, lefts, rights, i),
    ensures
        thermograph_at(thermo2, tags2, lefts2, rights2, i),
{
    if !(tags[i] is Some && tags[i]->0.is_number()) {
        assert(option_walls(thermo2, lefts2[i], true) =~= option_walls(thermo, lefts[i], true));
        assert(option_walls(thermo2, rights2[i], false) =~= option_walls(thermo, rights[i], false));
    }
}

/// Every thermograph of the list is the thermograph of its game.
pub open spec fn thermograph_list(
    all: Seq<Option<Thermograph>>,
    tags: Seq<Option<Nus>>,
    lefts: Seq<Seq<usize>>,
    rights: Seq<Seq<usize>>,
) -> bool {
    forall|i: int|
        0 <= i < all.len() && (#[trigger] all[i]) is Some ==> thermograph_at(
            all,
            tags,
            lefts,
            rights,
            i,
        )
}

/// The game at `i` has a thermograph within the limits: there is a list of
/// thermographs, each that of its game, that holds one for the game.
pub open spec fn has_thermograph(
    tags: Seq<Option<Nus>>,
    lefts: Seq<Seq<usize>>,
    rights: Seq<Seq<usize>>,
    i: int,
) -> bool {
    exists|all: Seq<Option<Thermograph>>|
        #[trigger] thermograph_list(all, tags, lefts, rights) && 0 <= i < all.len() && all[i] is Some
}

/// Every entry of every list is below the place of the list.
pub open spec fn go_down(lists: Seq<Seq<usize>>) -> bool {
    forall|i: int, k: int| 0 <= i < lists.len() && 0 <= k < lists[i].len() ==> (#[trigger] lists[i][k]) < i
}

/// The two thermographs have the same temperature and mast, and their walls
/// are at the same place at every temperature from minus one on.
pub open spec fn same_walls(x: Thermograph, y: Thermograph) -> bool {
    &&& x.temperature == y.temperature
    &&& x.mast == y.mast
    &&& forall|t: int| -UNIT <= t ==> value(x.left.knots@, t) == value(y.left.knots@, t)
    &&& forall|t: int| -UNIT <= t ==> value(x.right.knots@, t) == value(y.right.knots@, t)
}

/// Scaffolds over walls that are at the same places are at the same place.
pub proof fn lemma_scaffold_equal(a: Seq<Seq<Knot>>, b: Seq<Seq<Knot>>, n: int, t: int, left: bool)
    requires
        1 <= n <= a.len(),
        n <= b.len(),
        forall|k: int| 0 <= k < n ==> value(#[trigger] a[k], t) == value(b[k], t),
    ensures
        scaffold(a, n, t, left) == scaffold(b, n, t, left),
    decreases n,
{
    assert(value(a[n - 1], t) == value(b[n - 1], t));
    if n > 1 {
        lemma_scaffold_equal(a, b, n - 1, t, left);
    }
}

/// A thermograph of options is one of any other options whose walls are at
/// the same places from the temperature minus one on.
pub proof fn lemma_of_options_same(
    th: Thermograph,
    la: Seq<Seq<Knot>>,
    ra: Seq<Seq<Knot>>,
    lb: Seq<Seq<Knot>>,
    rb: Seq<Seq<Knot>>,
)
    requires
        th.of_options(la, ra),
        la.len() == lb.len(),
        ra.len() == rb.len(),
        forall|k: int, t: int|
            0 <= k < la.len() && -UNIT <= t ==> value(#[trigger] la[k], t) == #[trigger] value(
                lb[k],
                t,
            ),
        forall|k: int, t: int|
            0 <= k < ra.len() && -UNIT <= t ==> value(#[trigger] ra[k], t) == #[trigger] value(
                rb[k],
                t,
            ),
    ensures
        th.of_options(lb, rb),
{
    reveal(Thermograph::of_options);
    let nl = la.len() as int;
    let nr = ra.len() as int;
    assert forall|t: int| -UNIT <= t implies scaffold(la, nl, t, true) == scaffold(lb, nl, t, true)
        && scaffold(ra, nr, t, false) == scaffold(rb, nr, t, false) by {
        assert forall|k: int| 0 <= k < nl implies value(#[trigger] la[k], t) == value(lb[k], t) by {
            assert(value(la[k], t) == value(lb[k], t));
        }
        assert forall|k: int| 0 <= k < nr implies value(#[trigger] ra[k], t) == value(rb[k], t) by {
            assert(value(ra[k], t) == value(rb[k], t));
        }
        lemma_scaffold_equal(la, lb, nl, t, true);
        lemma_scaffold_equal(ra, rb, nr, t, false);
    }
    let tau = th.temperature as int;
    assert(scaffold(la, nl, tau, true) == scaffold(lb, nl, tau, true));
    assert forall|t: int| -UNIT <= t < tau implies scaffold(lb, nl, t, true) > scaffold(
        rb,
        nr,
        t,
        false,
    ) by {
        assert(scaffold(la, nl, t, true) > scaffold(ra, nr, t, false));
    }
    assert forall|t: int| -UNIT <= t implies th.left.at(t) == (if t < tau {
        scaffold(lb, nl, t, true)
    } else {
        th.mast as int
    }) by {
        assert(th.left.at(t) == (if t < tau {
            scaffold(la, nl, t, true)
        } else {
            th.mast as int
        }));
    }
    assert forall|t: int| -UNIT <= t implies th.right.at(t) == (if t < tau {
        scaffold(rb, nr, t, false)
    } else {
        th.mast as int
    }) by {
        assert(th.right.at(t) == (if t < tau {
            scaffold(ra, nr, t, false)
        } else {
            th.mast as int
        }));
    }
}

/// Two thermographs of the same options have the same temperature and mast
/// and walls at the same places.
pub proof fn lemma_of_options_unique(x: Thermograph, y: Thermograph, l: Seq<Seq<Knot>>, r: Seq<Seq<Knot>>)
    requires
        x.of_options(l, r),
        y.of_options(l, r),
    ensures
        same_walls(x, y),
{
    reveal(Thermograph::of_options);
    let nl = l.len() as int;
    let nr = r.len() as int;
    let tx = x.temperature as int;
    let ty = y.temperature as int;
    if tx < ty {
        assert(scaffold(l, nl, tx, true) > scaffold(r, nr, tx, false));
    }
    if ty < tx {
        assert(scaffold(l, nl, ty, true) > scaffold(r, nr, ty, false));
    }
    assert forall|t: int| -UNIT <= t implies value(x.left.knots@, t) == value(y.left.knots@, t) by {
        assert(x.left.at(t) == y.left.at(t));
    }
    assert forall|t: int| -UNIT <= t implies value(x.right.knots@, t) == value(y.right.knots@, t) by {
        assert(x.right.at(t) == y.right.at(t));
    }
}

/// The walls of the options of the game at `i` are at the same places in
/// two lists of thermographs that hold a thermograph for every option.
proof fn lemma_same_option_walls(
    a: Seq<Option<Thermograph>>,
    b: Seq<Option<Thermograph>>,
    tags: Seq<Option<Nus>>,
    lefts: Seq<Seq<usize>>,
    rights: Seq<Seq<usize>>,
    ids: Seq<usize>,
    i: int,
    left: bool,
)
    requires
        thermograph_list(a, tags, lefts, rights),
        thermograph_list(b, tags, lefts, rights),
        go_down(lefts),
        go_down(rights),
        tags.len() == lefts.len(),
        tags.len() == rights.len(),
        0 <= i <= tags.len(),
        forall|k: int| 0 <= k < ids.len() ==> (#[trigger] ids[k]) < i,
        all_known(a, ids),
        all_known(b, ids),
    ensures
        forall|k: int, t: int|
            0 <= k < ids.len() && -UNIT <= t ==> value(
                #[trigger] option_walls(a, ids, left)[k],
                t,
            ) == #[trigger] value(option_walls(b, ids, left)[k], t),
    decreases i, 0int,
{
    assert forall|k: int, t: int| 0 <= k < ids.len() && -UNIT <= t implies value(
        #[trigger] option_walls(a, ids, left)[k],
        t,
    ) == #[trigger] value(option_walls(b, ids, left)[k], t) by {
        let o = ids[k] as int;
        assert(ids[k] < i);
        lemma_same_thermograph(a, b, tags, lefts, rights, o);
    }
}

/// A game has one thermograph: in two lists of thermographs, each that of
/// its game, the thermographs of a game have the same temperature and mast
/// and walls at the same places.
pub proof fn lemma_same_thermograph(
    a: Seq<Option<Thermograph>>,
    b: Seq<Option<Thermograph>>,
    tags: Seq<Option<Nus>>,
    lefts: Seq<Seq<usize>>,
    rights: Seq<Seq<usize>>,
    i: int,
)
    requires
        thermograph_list(a, tags, lefts, rights),
        thermograph_list(b, tags, lefts, rights),
        go_down(lefts),
        go_down(rights),
        tags.len() == lefts.len(),
        tags.len() == rights.len(),
        0 <= i < tags.len(),
        i < a.len(),
        i < b.len(),
        a[i] is Some,
        b[i] is Some,
    ensures
        same_walls(a[i]->0, b[i]->0),
    decreases i, 1int,
{
    let x = a[i]->0;
    let y = b[i]->0;
    assert(thermograph_at(a, tags, lefts, rights, i));
    assert(thermograph_at(b, tags, lefts, rights, i));
    if tags[i] is Some && tags[i]->0.is_number() {
        assert forall|t: int| -UNIT <= t implies value(x.left.knots@, t) == value(y.left.knots@, t) by {
            assert(x.left.at(t) == y.left.at(t));
        }
        assert forall|t: int| -UNIT <= t implies value(x.right.knots@, t) == value(y.right.knots@, t) by {
            assert(x.right.at(t) == y.right.at(t));
        }
    } else {
        assert forall|k: int| 0 <= k < lefts[i].len() implies (#[trigger] lefts[i][k]) < i by {}
        assert forall|k: int| 0 <= k < rights[i].len() implies (#[trigger] rights[i][k]) < i by {}
        lemma_same_option_walls(a, b, tags, lefts, rights, lefts[i], i, true);
        lemma_same_option_walls(a, b, tags, lefts, rights, rights[i], i, false);
        lemma_of_options_same(
            x,
            option_walls(a, lefts[i], true),
            option_walls(a, rights[i], false),
            option_walls(b, lefts[i], true),
            option_walls(b, rights[i], false),
        );
        lemma_of_options_unique(
            x,
            y,
            option_walls(b, lefts[i], true),
            option_walls(b, rights[i], false),
        );
    }
}

/// A game that is no number and has no option on one side has no
/// thermograph.
pub proof fn lemma_no_thermograph_empty(
    tags: Seq<Option<Nus>>,
    lefts: Seq<Seq<usize>>,
    rights: Seq<Seq<usize>>,
    i: int,
)
    requires
        !(tags[i] is Some && tags[i]->0.is_number()),
        lefts[i].len() == 0 || rights[i].len() == 0,
    ensures
        !has_thermograph(tags, lefts, rights, i),
{
    reveal(Thermograph::of_options);
    assert forall|all: Seq<Option<Thermograph>>|
        #[trigger] thermograph_list(all, tags, lefts, rights) && 0 <= i < all.len()
            && all[i] is Some implies false by {
        assert(thermograph_at(all, tags, lefts, rights, i));
    }
}

/// A game that is no number and has an option without a thermograph has
/// none.
pub proof fn lemma_no_thermograph_option(
    tags: Seq<Option<Nus>>,
    lefts: Seq<Seq<usize>>,
    rights: Seq<Seq<usize>>,
    i: int,
    k: int,
    left: bool,
)
    requires
        !(tags[i] is Some && tags[i]->0.is_number()),
        left ==> 0 <= k < lefts[i].len() && !has_thermograph(tags, lefts, rights, lefts[i][k] as int),
        !left ==> 0 <= k < rights[i].len() && !has_thermograph(
            tags,
            lefts,
            rights,
            rights[i][k] as int,
        ),
    ensures
        !has_thermograph(tags, lefts, rights, i),
{
    assert forall|all: Seq<Option<Thermograph>>|
        #[trigger] thermograph_list(all, tags, lefts, rights) && 0 <= i < all.len()
            && all[i] is Some implies false by {
        assert(thermograph_at(all, tags, lefts, rights, i));
        if left {
            assert(lefts[i][k] < all.len() && all[lefts[i][k] as int] is Some);
        } else {
            assert(rights[i][k] < all.len() && all[rights[i][k] as int] is Some);
        }
    }
}

/// A game that is no number and from the thermographs of whose options no
/// thermograph can be made has none.
pub proof fn lemma_no_thermograph_fit(
    mine: Seq<Option<Thermograph>>,
    tags: Seq<Option<Nus>>,
    lefts: Seq<Seq<usize>>,
    rights: Seq<Seq<usize>>,
    i: int,
)
    requires
        thermograph_list(mine, tags, lefts, rights),
        go_down(lefts),
        go_down(rights),
        tags.len() == lefts.len(),
        tags.len() == rights.len(),
        0 <= i < tags.len(),
        !(tags[i] is Some && tags[i]->0.is_number()),
        all_known(mine, lefts[i]),
        all_known(mine, rights[i]),
        forall|th: Thermograph|
            !th.of_options(option_walls(mine, lefts[i], true), option_walls(mine, rights[i], false)),
    ensures
        !has_thermograph(tags, lefts, rights, i),
{
    assert forall|all: Seq<Option<Thermograph>>|
        #[trigger] thermograph_list(all, tags, lefts, rights) && 0 <= i < all.len()
            && all[i] is Some implies false by {
        assert(thermograph_at(all, tags, lefts, rights, i));
        let th = all[i]->0;
        assert forall|k: int| 0 <= k < lefts[i].len() implies (#[trigger] lefts[i][k]) < i by {}
        assert forall|k: int| 0 <= k < rights[i].len() implies (#[trigger] rights[i][k]) < i by {}
        lemma_same_option_walls(all, mine, tags, lefts, rights, lefts[i], i, true);
        lemma_same_option_walls(all, mine, tags, lefts, rights, rights[i], i, false);
        lemma_of_options_same(
            th,
            option_walls(all, lefts[i], true),
            option_walls(all, rights[i], false),
            option_walls(mine, lefts[i], true),
            option_walls(mine, rights[i], false),
        );
    }
}

/// Some list of thermographs, each that of its game, holds for the game at
/// `i` a thermograph with the temperature `tau`.
pub open spec fn has_temperature(
    tags: Seq<Option<Nus>>,
    lefts: Seq<Seq<usize>>,
    rights: Seq<Seq<usize>>,
    i: int,
    tau: int,
) -> bool {
    exists|all: Seq<Option<Thermograph>>|
        #[trigger] thermograph_list(all, tags, lefts, rights) && 0 <= i < all.len() && all[i] is Some
            && all[i]->0.temperature == tau
}

/// The temperature of the game at `i` in fixed point, where the game has a
/// thermograph within the limits.
pub open spec fn fixed_temperature(
    tags: Seq<Option<Nus>>,
    lefts: Seq<Seq<usize>>,
    rights: Seq<Seq<usize>>,
    i: int,
) -> int {
    choose|tau: int| has_temperature(tags, lefts, rights, i, tau)
}

/// The temperature of a game is the temperature of its thermograph in any
/// list of thermographs, each that of its game.
pub proof fn lemma_fixed_temperature(
    all: Seq<Option<Thermograph>>,
    tags: Seq<Option<Nus>>,
    lefts: Seq<Seq<usize>>,
    rights: Seq<Seq<usize>>,
    i: int,
)
    requires
        thermograph_list(all, tags, lefts, rights),
        go_down(lefts),
        go_down(rights),
        tags.len() == lefts.len(),
        tags.len() == rights.len(),
        0 <= i < tags.len(),
        i < all.len(),
        all[i] is Some,
    ensures
        has_thermograph(tags, lefts, rights, i),
        fixed_temperature(tags, lefts, rights, i) == all[i]->0.temperature,
{
    assert(has_temperature(tags, lefts, rights, i, all[i]->0.temperature as int));
    let tau = fixed_temperature(tags, lefts, rights, i);
    assert(has_temperature(tags, lefts, rights, i, tau));
    let other = choose|other: Seq<Option<Thermograph>>|
        #[trigger] thermograph_list(other, tags, lefts, rights) && 0 <= i < other.len()
            && other[i] is Some && other[i]->0.temperature == tau;
    lemma_same_thermograph(other, all, tags, lefts, rights, i);
}

/// The left options (`left`) or the right options of the game at `i`.
pub open spec fn options_on(lefts: Seq<Seq<usize>>, rights: Seq<Seq<usize>>, i: int, left: bool) -> Seq<
    usize,
> {
    if left {
        lefts[i]
    } else {
        rights[i]
    }
}

/// The game at the place `k` of the list has no thermograph.
pub open spec fn lacks(
    tags: Seq<Option<Nus>>,
    lefts: Seq<Seq<usize>>,
    rights: Seq<Seq<usize>>,
    ids: Seq<usize>,
    k: int,
) -> bool {
    0 <= k < ids.len() && !has_thermograph(tags, lefts, rights, ids[k] as int)
}

/// The thermographs of the games of a table of games, as far as they were
/// worked out.
pub struct Thermographs {
    list: Vec<Option<Thermograph>>,
}

impl View for Thermographs {
    type V = Seq<Option<Thermograph>>;

    /// The thermographs, each at the place of its game.
    closed spec fn view(&self) -> Seq<Option<Thermograph>> {
        self.list@
    }
}

impl Thermographs {
    /// Every thermograph of the list is the thermograph of its game in the
    /// table `games`.
    pub open spec fn wf(&self, games: &GameStorage) -> bool {
        &&& games.wf()
        &&& self@.len() <= games@.len()
        &&& forall|i: int|
            0 <= i < self@.len() && (#[trigger] self@[i]) is Some ==> thermograph_at(
                self@,
                games.tag_list(),
                games.left_lists(),
                games.right_lists(),
                i,
            )
    }

    /// No thermographs yet.
    pub fn new() -> (t: Self)
        ensures
            t@.len() == 0,
    {
        Thermographs { list: Vec::new() }
    }

    /// The thermographs are those of the games still when the table of
    /// games has grown.
    pub proof fn lemma_grows(&self, old: &GameStorage, games: &GameStorage)
        requires
            self.wf(old),
            games.wf(),
            games.grows_from(old),
        ensures
            self.wf(games),
    {
        assert forall|i: int| 0 <= i < self@.len() && (#[trigger] self@[i]) is Some implies thermograph_at(
            self@,
            games.tag_list(),
            games.left_lists(),
            games.right_lists(),
            i,
        ) by {
            games.lemma_grows_keeps_lists(old, i);
            old.lemma_lists_go_down();
            games.lemma_lists_go_down();
            lemma_thermograph_stable(
                self@,
                self@,
                old.tag_list(),
                games.tag_list(),
                old.left_lists(),
                games.left_lists(),
                old.right_lists(),
                games.right_lists(),
                i,
            );
        }
    }

    /// Makes room for the thermographs of the first `n` games.
    fn extend(&mut self, n: usize, Ghost(games): Ghost<&GameStorage>)
        requires
            old(self).wf(games),
            n <= games@.len(),
        ensures
            final(self).wf(games),
            final(self)@.len() >= n,
            final(self)@.len() >= old(self)@.len(),
            forall|x: int| 0 <= x < old(self)@.len() ==> final(self)@[x] == old(self)@[x],
    {
        let ghost start = self@;
        while self.list.len() < n
            invariant
                games.wf(),
                n <= games@.len(),
                start.len() <= self@.len() <= games@.len(),
                forall|x: int| 0 <= x < start.len() ==> self@[x] == start[x],
                forall|x: int| start.len() <= x < self@.len() ==> self@[x] is None,
            decreases n - self@.len(),
        {
            self.list.push(None);
        }
        proof {
            games.lemma_lists_go_down();
            assert forall|i: int| 0 <= i < self@.len() && (#[trigger] self@[i]) is Some implies thermograph_at(
                self@,
                games.tag_list(),
                games.left_lists(),
                games.right_lists(),
                i,
            ) by {
                lemma_thermograph_stable(
                    start,
                    self@,
                    games.tag_list(),
                    games.tag_list(),
                    games.left_lists(),
                    games.left_lists(),
                    games.right_lists(),
                    games.right_lists(),
                    i,
                );
            }
        }
    }

    /// Takes the thermograph of the game at `id` into the list.
    fn remember(&mut self, id: usize, th: Thermograph, Ghost(games): Ghost<&GameStorage>)
        requires
            old(self).wf(games),
            id < old(self)@.len(),
            old(self)@[id as int] is None,
            thermograph_at(
                old(self)@.update(id as int, Some(th)),
                games.tag_list(),
                games.left_lists(),
                games.right_lists(),
                id as int,
            ),
        ensures
            final(self).wf(games),
            final(self)@ == old(self)@.update(id as int, Some(th)),
    {
        let ghost before = self@;
        self.list.set(id, Some(th));
        proof {
            games.lemma_lists_go_down();
            assert forall|i: int| 0 <= i < self@.len() && (#[trigger] self@[i]) is Some implies thermograph_at(
                self@,
                games.tag_list(),
                games.left_lists(),
                games.right_lists(),
                i,
            ) by {
                if i != id {
                    lemma_thermograph_stable(
                        before,
                        self@,
                        games.tag_list(),
                        games.tag_list(),
                        games.left_lists(),
                        games.left_lists(),
                        games.right_lists(),
                        games.right_lists(),
                        i,
                    );
                }
            }
        }
    }

    /// Works out the thermographs of the left options (`left`), or of the
    /// right options, of the game at `id`; tells whether all are there.
    #[verifier::loop_isolation(false)]
    fn ensure_all(&mut self, games: &GameStorage, id: usize, left: bool) -> (r: bool)
        requires
            old(self).wf(games),
            id < games@.len(),
        ensures
            final(self).wf(games),
            final(self)@.len() >= old(self)@.len(),
            r ==> all_known(
                final(self)@,
                if left {
                    games.left_lists()[id as int]
                } else {
                    games.right_lists()[id as int]
                },
            ),
            !r ==> exists|k: int| #[trigger]
                lacks(
                    games.tag_list(),
                    games.left_lists(),
                    games.right_lists(),
                    options_on(games.left_lists(), games.right_lists(), id as int, left),
                    k,
                ),
            forall|x: int|
                0 <= x < old(self)@.len() && old(self)@[x] is Some ==> final(self)@[x] == old(
                    self,
                )@[x],
        decreases id, 0int,
    {
        let ghost start = self@;
        let list = games.option_list(id, left);
        proof {
            games.lemma_lists_go_down();
            if left {
                assert forall|j: int| 0 <= j < list@.len() implies #[trigger] list@[j] < id by {
                    assert(games.left_lists()[id as int][j] < id);
                }
            } else {
                assert forall|j: int| 0 <= j < list@.len() implies #[trigger] list@[j] < id by {
                    assert(games.right_lists()[id as int][j] < id);
                }
            }
        }
        let mut k: usize = 0;
        while k < list.len()
            invariant
                self.wf(games),
                id < games@.len(),
                forall|j: int| 0 <= j < list@.len() ==> #[trigger] list@[j] < id,
                k <= list@.len(),
                self@.len() >= start.len(),
                forall|j: int|
                    0 <= j < k ==> (#[trigger] list@[j]) < self@.len() && self@[list@[j] as int] is Some
                        && self@[list@[j] as int]->0.wf(),
                forall|x: int|
                    0 <= x < start.len() && start[x] is Some ==> self@[x] == start[x],
            decreases list@.len() - k,
        {
            let o = list[k];
            let ghost before = self@;
            if !self.ensure(games, o) {
                assert(lacks(
                    games.tag_list(),
                    games.left_lists(),
                    games.right_lists(),
                    options_on(games.left_lists(), games.right_lists(), id as int, left),
                    k as int,
                ));
                return false;
            }
            proof {
                assert forall|j: int| 0 <= j < k + 1 implies (#[trigger] list@[j]) < self@.len()
                    && self@[list@[j] as int] is Some && self@[list@[j] as int]->0.wf() by {
                    if j < k {
                        assert(before[list@[j] as int] is Some);
                    }
                    lemma_thermograph_wf(
                        self@,
                        games.tag_list(),
                        games.left_lists(),
                        games.right_lists(),
                        list@[j] as int,
                    );
                }
            }
            k += 1;
        }
        true
    }

    /// Works out the thermograph of the game at `id` and of the games under
    /// it; tells whether it is there, which it is unless the game has no
    /// thermograph within the limits.
    fn ensure(&mut self, games: &GameStorage, id: usize) -> (r: bool)
        requires
            old(self).wf(games),
            id < games@.len(),
        ensures
            final(self).wf(games),
            final(self)@.len() >= old(self)@.len(),
            r ==> id < final(self)@.len() && final(self)@[id as int] is Some,
            games.tag_list()[id as int] matches Some(t) && t.is_number() ==> r,
            !r ==> !has_thermograph(
                games.tag_list(),
                games.left_lists(),
                games.right_lists(),
                id as int,
            ),
            forall|x: int|
                0 <= x < old(self)@.len() && old(self)@[x] is Some ==> final(self)@[x] == old(
                    self,
                )@[x],
        decreases id, 1int,
    {
        let count = games.known_games_len();
        self.extend(id + 1, Ghost(games));
        if self.list[id].is_some() {
            return true;
        }
        let number = match games.tag(id) {
            Some(t) => if t.up_multiple == 0 && t.nimber == 0 {
                Some(t.number)
            } else {
                None
            },
            None => None,
        };
        proof {
            games.lemma_lists_go_down();
        }
        if let Some(x) = number {
            assert(games.tag_list()[id as int]->0.wf());
            let th = Thermograph::number(x.to_fixed_point(), x.step_fixed());
            self.remember(id, th, Ghost(games));
            return true;
        }
        let ghost tags = games.tag_list();
        let ghost lefts = games.left_lists();
        let ghost rights = games.right_lists();
        if games.option_list(id, true).len() == 0 || games.option_list(id, false).len() == 0 {
            proof {
                lemma_no_thermograph_empty(tags, lefts, rights, id as int);
            }
            return false;
        }
        if !self.ensure_all(games, id, true) {
            proof {
                let k = choose|k: int| #[trigger]
                    lacks(tags, lefts, rights, options_on(lefts, rights, id as int, true), k);
                lemma_no_thermograph_option(tags, lefts, rights, id as int, k, true);
            }
            return false;
        }
        let ghost middle = self@;
        if !self.ensure_all(games, id, false) {
            proof {
                let k = choose|k: int| #[trigger]
                    lacks(tags, lefts, rights, options_on(lefts, rights, id as int, false), k);
                lemma_no_thermograph_option(tags, lefts, rights, id as int, k, false);
            }
            return false;
        }
        let left = games.option_list(id, true);
        let right = games.option_list(id, false);
        proof {
            assert forall|k: int| 0 <= k < left@.len() implies (#[trigger] left@[k]) < self@.len()
                && self@[left@[k] as int] is Some && self@[left@[k] as int]->0.wf() by {
                assert(middle[left@[k] as int] is Some);
            }
        }
        if self.list[id].is_some() {
            return true;
        }
        let built = thermograph_from(&self.list, left, right);
        match built {
            Some(th) => {
                proof {
                    let more = self@.update(id as int, Some(th));
                    assert(option_walls(more, left@, true) =~= option_walls(self@, left@, true)) by {
                        assert forall|k: int| 0 <= k < left@.len() implies left@[k] != id by {
                            assert(games.left_lists()[id as int][k] < id);
                        }
                    }
                    assert(option_walls(more, right@, false) =~= option_walls(self@, right@, false)) by {
                        assert forall|k: int| 0 <= k < right@.len() implies right@[k] != id by {
                            assert(games.right_lists()[id as int][k] < id);
                        }
                    }
                    assert(all_known(more, left@)) by {
                        assert forall|k: int| 0 <= k < left@.len() implies (#[trigger] left@[k])
                            < more.len() && more[left@[k] as int] is Some && more[left@[k] as int]->0.wf() by {
                            assert(games.left_lists()[id as int][k] < id);
                        }
                    }
                    assert(all_known(more, right@)) by {
                        assert forall|k: int| 0 <= k < right@.len() implies (#[trigger] right@[k])
                            < more.len() && more[right@[k] as int] is Some && more[right@[k] as int]->0.wf() by {
                            assert(games.right_lists()[id as int][k] < id);
                        }
                    }
                }
                self.remember(id, th, Ghost(games));
                true
            },
            None => {
                proof {
                    assert(go_down(lefts) && go_down(rights));
                    lemma_no_thermograph_fit(self@, tags, lefts, rights, id as int);
                }
                false
            },
        }
    }

    /// The temperature of the game `g`: the least temperature from minus
    /// one on at which the scaffolds of its thermograph meet. A number has
    /// the negative of its denominator's inverse. There is none exactly
    /// where the game has no thermograph within the limits: where it, or a
    /// game under it, is no number and has no option on one side, or has
    /// scaffolds that do not meet at a temperature and a place that can be
    /// written, or walls beyond the limit.
    pub fn temperature(&mut self, games: &GameStorage, g: &Game) -> (r: Option<Rational>)
        requires
            old(self).wf(games),
            games.has(*g),
        ensures
            final(self).wf(games),
            r matches Some(t) ==> g.id < final(self)@.len() && (final(self)@[g.id as int] matches Some(
                th,
            ) && t.wf() && t.is_fraction(th.temperature as int, UNIT as int)),
            games.tag_list()[g.id as int] matches Some(n) && n.is_number() ==> (r matches Some(v)
                && v.is_fraction(-games.tag_list()[g.id as int]->0.number.step(), UNIT as int)),
            r is None <==> !has_thermograph(
                games.tag_list(),
                games.left_lists(),
                games.right_lists(),
                g.id as int,
            ),
            r matches Some(t) ==> t.wf() && t.is_fraction(
                fixed_temperature(
                    games.tag_list(),
                    games.left_lists(),
                    games.right_lists(),
                    g.id as int,
                ),
                UNIT as int,
            ),
    {
        if !self.ensure(games, g.id) {
            return None;
        }
        proof {
            games.lemma_lists_go_down();
            lemma_fixed_temperature(
                self@,
                games.tag_list(),
                games.left_lists(),
                games.right_lists(),
                g.id as int,
            );
        }
        match &self.list[g.id] {
            Some(th) => {
                assert(thermograph_at(
                    self@,
                    games.tag_list(),
                    games.left_lists(),
                    games.right_lists(),
                    g.id as int,
                ));
                Some(Rational::new(th.temperature, UNIT as u32))
            },
            None => None,
        }
    }
}

/// A thermograph of the list is well formed.
pub proof fn lemma_thermograph_wf(
    thermo: Seq<Option<Thermograph>>,
    tags: Seq<Option<Nus>>,
    lefts: Seq<Seq<usize>>,
    rights: Seq<Seq<usize>>,
    i: int,
)
    requires
        thermograph_at(thermo, tags, lefts, rights, i),
    ensures
        thermo[i]->0.wf(),
{
    reveal(Thermograph::of_options);
}

/// The thermograph made from the thermographs of the options; none where
/// no thermograph within the limits can be made from them.
fn thermograph_from(thermo: &Vec<Option<Thermograph>>, left: &Vec<usize>, right: &Vec<usize>) -> (r:
    Option<Thermograph>)
    requires
        left@.len() >= 1,
        right@.len() >= 1,
        all_known(thermo@, left@),
        all_known(thermo@, right@),
    ensures
        r matches Some(th) ==> th.of_options(
            option_walls(thermo@, left@, true),
            option_walls(thermo@, right@, false),
        ),
        r is None ==> forall|th: Thermograph|
            !th.of_options(option_walls(thermo@, left@, true), option_walls(thermo@, right@, false)),
{
    let l = build_scaffold(thermo, left, true);
    let r = build_scaffold(thermo, right, false);
    Thermograph::from_scaffolds(
        &l,
        &r,
        Ghost(option_walls(thermo@, left@, true)),
        Ghost(option_walls(thermo@, right@, false)),
    )
}

} // verus!
