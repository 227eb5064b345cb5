//! Games with names: the nimbers, the dyadic numbers, up, and the sums of a
//! number, a multiple of up and a nimber; and the four ways in which two
//! games can compare.

use crate::dyadic_rational_number::DyadicRationalNumber;
use crate::short::partizan::algebra::is_sum_at;
use crate::short::partizan::game_storage::{
    form, game_places, lemma_form_below, lemma_leq_extended, moves_node, Game, GameStorage, Moves,
};
use crate::short::partizan::number_up_star::Nus;
use crate::short::partizan::id_list::{
    all_below, copy_of, places, sorted_insert, strictly_increasing,
};
use crate::short::partizan::identities::{is_zero, lemma_one_form};
use crate::short::partizan::universe::{
    canonical_at, canonical_table, closed, form_equals, is_integer, is_prefix, leq,
    lemma_form_equals_prefix, lemma_integer_prefix, lemma_leq_reflexive, same_options, Node,
};
use vstd::prelude::*;

verus! {

/// The games at the places of `ids` are the nimbers in order: the first
/// has no options, and each has all those before it as left options and as
/// right options.
pub open spec fn nimber_chain(u: Seq<Node>, ids: Seq<usize>) -> bool {
    forall|i: int|
        0 <= i < ids.len() ==> {
            &&& (#[trigger] ids[i]) < u.len()
            &&& u[ids[i] as int].left =~= places(ids.take(i))
            &&& u[ids[i] as int].right =~= places(ids.take(i))
        }
}

/// The game at `a` is the nimber of size `n`.
pub open spec fn is_nimber(u: Seq<Node>, a: int, n: nat) -> bool {
    exists|ids: Seq<usize>| #[trigger] nimber_chain(u, ids) && ids.len() == n + 1 && ids[n as int] == a
}

/// Two chains of nimbers in a table of canonical forms go through the same
/// places.
proof fn lemma_chains_agree(u: Seq<Node>, c: Seq<usize>, d: Seq<usize>, i: int)
    requires
        canonical_table(u),
        nimber_chain(u, c),
        nimber_chain(u, d),
        0 <= i <= c.len(),
        i <= d.len(),
    ensures
        c.take(i) =~= d.take(i),
    decreases i,
{
    if i > 0 {
        lemma_chains_agree(u, c, d, i - 1);
        let a = c[i - 1];
        let b = d[i - 1];
        assert(c.take(i - 1) == d.take(i - 1));
        assert(same_options(u[a as int], u[b as int]));
        assert(a == b);
        assert forall|k: int| 0 <= k < i implies c.take(i)[k] == d.take(i)[k] by {
            if k < i - 1 {
                assert(c.take(i - 1)[k] == d.take(i - 1)[k]);
            }
        }
    }
}

/// A table of canonical forms holds each nimber at one place at most.
pub proof fn lemma_nimber_unique(u: Seq<Node>, a: int, b: int, n: nat)
    requires
        canonical_table(u),
        is_nimber(u, a, n),
        is_nimber(u, b, n),
    ensures
        a == b,
{
    let c = choose|ids: Seq<usize>| #[trigger]
        nimber_chain(u, ids) && ids.len() == n + 1 && ids[n as int] == a;
    let d = choose|ids: Seq<usize>| #[trigger]
        nimber_chain(u, ids) && ids.len() == n + 1 && ids[n as int] == b;
    lemma_chains_agree(u, c, d, n as int + 1);
    assert(c.take(n as int + 1)[n as int] == d.take(n as int + 1)[n as int]);
}

/// A nimber stays the same nimber when the table grows.
pub proof fn lemma_nimber_chain_prefix(u: Seq<Node>, v: Seq<Node>, ids: Seq<usize>)
    requires
        is_prefix(u, v),
        nimber_chain(u, ids),
    ensures
        nimber_chain(v, ids),
{
    assert forall|i: int| 0 <= i < ids.len() implies {
        &&& (#[trigger] ids[i]) < v.len()
        &&& v[ids[i] as int].left =~= places(ids.take(i))
        &&& v[ids[i] as int].right =~= places(ids.take(i))
    } by {
        assert(same_options(u[ids[i] as int], v[ids[i] as int]));
    }
}

/// Nimbers of different sizes are not comparable.
proof fn lemma_nimbers_apart(u: Seq<Node>, ids: Seq<usize>, i: int, j: int)
    requires
        closed(u),
        nimber_chain(u, ids),
        0 <= i < ids.len(),
        0 <= j < ids.len(),
        i != j,
    ensures
        !leq(u, ids[i] as int, ids[j] as int),
{
    let a = ids[i] as int;
    let b = ids[j] as int;
    if i < j {
        assert(ids.take(j)[i] == ids[i]);
        assert(u[b].right.contains(a));
        lemma_leq_reflexive(u, a);
    } else {
        assert(ids.take(i)[j] == ids[j]);
        assert(u[a].left.contains(b));
        lemma_leq_reflexive(u, b);
    }
}

/// The game whose options on both sides are the nimbers of a chain is in
/// canonical form.
proof fn lemma_next_nimber_canonical(u: Seq<Node>, ids: Seq<usize>, sorted: Seq<usize>)
    requires
        closed(u),
        nimber_chain(u, ids),
        places(sorted) =~= places(ids),
    ensures
        canonical_at(u.push(form(sorted, sorted)), u.len() as int),
{
    let f = form(sorted, sorted);
    let w = u.push(f);
    let m = u.len() as int;
    assert(w[m] == f);
    assert forall|x: int, y: int| places(ids).contains(x) && places(ids).contains(y) && x
        != y implies !leq(w, x, y) by {
        let i = choose|k: int| 0 <= k < ids.len() && ids[k] == x;
        let j = choose|k: int| 0 <= k < ids.len() && ids[k] == y;
        lemma_nimbers_apart(u, ids, i, j);
        lemma_leq_extended(u, f, x, y);
    }
    assert forall|l: int, lr: int|
        0 <= l < m && places(ids).contains(l) && #[trigger] w[l].right.contains(lr) implies !leq(
        w,
        lr,
        m,
    ) && !leq(w, m, lr) by {
        let i = choose|k: int| 0 <= k < ids.len() && ids[k] == l;
        assert(w[l] == u[l]);
        assert(places(ids.take(i)).contains(lr));
        let j = choose|k: int| 0 <= k < ids.take(i).len() && ids.take(i)[k] == lr;
        assert(ids[j] == lr);
        assert(places(ids).contains(lr));
        assert(w[m].right.contains(lr) && w[m].left.contains(lr));
        lemma_leq_reflexive(w, lr);
    }
    assert forall|l: int, lr: int|
        0 <= l < m && #[trigger] w[m].left.contains(l) && #[trigger] w[l].right.contains(
            lr,
        ) implies !leq(w, lr, m) by {
        assert(places(ids).contains(l));
    }
    assert forall|r: int, rl: int|
        0 <= r < m && #[trigger] w[m].right.contains(r) && #[trigger] w[r].left.contains(
            rl,
        ) implies !leq(w, m, rl) by {
        assert(places(ids).contains(r));
        assert(w[r] == u[r]);
        assert(u[r].left =~= u[r].right) by {
            let i = choose|k: int| 0 <= k < ids.len() && ids[k] == r;
            assert(u[ids[i] as int].left =~= places(ids.take(i)));
        }
        assert(w[r].right.contains(rl));
    }
}

/// The game with the one left option `l` and the one right option `r`.
pub open spec fn switch_node(l: int, r: int) -> Node {
    Node { left: Set::<int>::empty().insert(l), right: Set::<int>::empty().insert(r) }
}

/// The game at `a` is the number `p / 2^k`: an integer is the integer; a
/// fraction that can be shortened is the shorter fraction; and any other
/// has the value of the game from the next fraction below it to the next
/// above it.
pub open spec fn is_number(u: Seq<Node>, a: int, p: int, k: nat) -> bool
    decreases k,
{
    if k == 0 {
        is_integer(u, a, p)
    } else if p % 2 == 0 {
        is_number(u, a, p / 2, (k - 1) as nat)
    } else {
        &&& 0 <= a < u.len()
        &&& exists|l: int, r: int|
            is_number(u, l, (p - 1) / 2, (k - 1) as nat) && is_number(
                u,
                r,
                (p + 1) / 2,
                (k - 1) as nat,
            ) && form_equals(u, #[trigger] switch_node(l, r), a)
    }
}

/// A number is a game of the table.
pub proof fn lemma_number_below(u: Seq<Node>, a: int, p: int, k: nat)
    requires
        is_number(u, a, p, k),
    ensures
        0 <= a < u.len(),
    decreases k,
{
    if k > 0 && p % 2 == 0 {
        lemma_number_below(u, a, p / 2, (k - 1) as nat);
    }
}

/// A number stays the same number when the table grows.
pub proof fn lemma_number_prefix(u: Seq<Node>, v: Seq<Node>, a: int, p: int, k: nat)
    requires
        is_prefix(u, v),
        is_number(u, a, p, k),
    ensures
        is_number(v, a, p, k),
    decreases k,
{
    if k == 0 {
        lemma_integer_prefix(u, v, a, p);
    } else if p % 2 == 0 {
        lemma_number_prefix(u, v, a, p / 2, (k - 1) as nat);
    } else {
        let (l, r) = choose|l: int, r: int|
            is_number(u, l, (p - 1) / 2, (k - 1) as nat) && is_number(
                u,
                r,
                (p + 1) / 2,
                (k - 1) as nat,
            ) && form_equals(u, #[trigger] switch_node(l, r), a);
        lemma_number_prefix(u, v, l, (p - 1) / 2, (k - 1) as nat);
        lemma_number_prefix(u, v, r, (p + 1) / 2, (k - 1) as nat);
        lemma_number_below(u, l, (p - 1) / 2, (k - 1) as nat);
        lemma_number_below(u, r, (p + 1) / 2, (k - 1) as nat);
        lemma_form_equals_prefix(u, v, switch_node(l, r), a);
    }
}

/// A table of canonical forms holds each number at one place at most.
pub proof fn lemma_number_unique(u: Seq<Node>, a: int, b: int, p: int, k: nat)
    requires
        canonical_table(u),
        is_number(u, a, p, k),
        is_number(u, b, p, k),
    ensures
        a == b,
    decreases k,
{
    if k == 0 {
        crate::short::partizan::universe::lemma_integer_unique(u, a, b, p);
    } else if p % 2 == 0 {
        lemma_number_unique(u, a, b, p / 2, (k - 1) as nat);
    } else {
        let (l, r) = choose|l: int, r: int|
            is_number(u, l, (p - 1) / 2, (k - 1) as nat) && is_number(
                u,
                r,
                (p + 1) / 2,
                (k - 1) as nat,
            ) && form_equals(u, #[trigger] switch_node(l, r), a);
        let (l2, r2) = choose|l: int, r: int|
            is_number(u, l, (p - 1) / 2, (k - 1) as nat) && is_number(
                u,
                r,
                (p + 1) / 2,
                (k - 1) as nat,
            ) && form_equals(u, #[trigger] switch_node(l, r), b);
        lemma_number_unique(u, l, l2, (p - 1) / 2, (k - 1) as nat);
        lemma_number_unique(u, r, r2, (p + 1) / 2, (k - 1) as nat);
        lemma_one_form(u, switch_node(l, r), a, b);
    }
}

/// How two games compare: one is less than the other, they are equal, or
/// neither is at most the other.
#[derive(Debug, Clone, Copy, PartialEq, Eq, Structural)]
pub enum Comparison {
    Less,
    Equal,
    Greater,
    Confused,
}

/// How the games at `a` and `b` compare.
pub open spec fn comparison(u: Seq<Node>, a: int, b: int) -> Comparison {
    if leq(u, a, b) && leq(u, b, a) {
        Comparison::Equal
    } else if leq(u, a, b) {
        Comparison::Less
    } else if leq(u, b, a) {
        Comparison::Greater
    } else {
        Comparison::Confused
    }
}

/// A nimber stays the same nimber when the table grows.
pub proof fn lemma_nimber_prefix(u: Seq<Node>, v: Seq<Node>, a: int, n: nat)
    requires
        is_prefix(u, v),
        is_nimber(u, a, n),
    ensures
        is_nimber(v, a, n),
{
    let ids = choose|ids: Seq<usize>| #[trigger]
        nimber_chain(u, ids) && ids.len() == n + 1 && ids[n as int] == a;
    lemma_nimber_chain_prefix(u, v, ids);
}

/// Zero stays zero when the table grows.
pub proof fn lemma_zero_prefix(u: Seq<Node>, v: Seq<Node>, z: int)
    requires
        is_prefix(u, v),
        is_zero(u, z),
    ensures
        is_zero(v, z),
{
    assert(same_options(u[z], v[z]));
}

/// The game at `a` is up: the canonical form of the game from zero to the
/// nimber of size one.
pub open spec fn is_up(u: Seq<Node>, a: int) -> bool {
    &&& 0 <= a < u.len()
    &&& exists|z: int, s: int|
        is_zero(u, z) && is_nimber(u, s, 1) && form_equals(u, #[trigger] switch_node(z, s), a)
}

/// Up stays up when the table grows.
pub proof fn lemma_up_prefix(u: Seq<Node>, v: Seq<Node>, a: int)
    requires
        is_prefix(u, v),
        is_up(u, a),
    ensures
        is_up(v, a),
{
    let (z, s) = choose|z: int, s: int|
        is_zero(u, z) && is_nimber(u, s, 1) && form_equals(u, #[trigger] switch_node(z, s), a);
    lemma_zero_prefix(u, v, z);
    lemma_nimber_prefix(u, v, s, 1);
    let ids = choose|ids: Seq<usize>| #[trigger]
        nimber_chain(u, ids) && ids.len() == 2 && ids[1] == s;
    assert(0 <= s < u.len());
    lemma_form_equals_prefix(u, v, switch_node(z, s), a);
}

/// The game at `g` is the sum of `k` games `unit`, as the map of sums `t`
/// has it: no game add up to `zero`, and one more adds `unit` to the sum of
/// those before.
pub open spec fn is_multiple(t: Map<(int, int), int>, unit: int, zero: int, k: nat, g: int) -> bool
    decreases k,
{
    if k == 0 {
        g == zero
    } else {
        exists|h: int|
            is_multiple(t, unit, zero, (k - 1) as nat, h) && #[trigger] is_sum_at(t, h, unit, g)
    }
}

/// A multiple stays one when the map of sums grows.
pub proof fn lemma_multiple_grows(
    t: Map<(int, int), int>,
    t2: Map<(int, int), int>,
    unit: int,
    zero: int,
    k: nat,
    g: int,
)
    requires
        t.submap_of(t2),
        is_multiple(t, unit, zero, k, g),
    ensures
        is_multiple(t2, unit, zero, k, g),
    decreases k,
{
    if k > 0 {
        let h = choose|h: int|
            is_multiple(t, unit, zero, (k - 1) as nat, h) && #[trigger] is_sum_at(t, h, unit, g);
        lemma_multiple_grows(t, t2, unit, zero, (k - 1) as nat, h);
        assert(is_sum_at(t2, h, unit, g));
    }
}

/// The size of a multiple of up.
pub open spec fn count_of(up_multiple: int) -> nat {
    if up_multiple >= 0 {
        up_multiple as nat
    } else {
        (-up_multiple) as nat
    }
}

/// The game of which a multiple is taken: up, or the negative of up for a
/// negative multiple.
pub open spec fn unit_of(m: Map<int, int>, up: int, up_multiple: int) -> int {
    if up_multiple >= 0 {
        up
    } else {
        m[up]
    }
}

/// The games at `number`, `ups` and `star` are the parts that `nus` names:
/// its number, its multiple of up, a multiple of the negative of up where it
/// is negative, and its nimber.
pub open spec fn named_parts(
    u: Seq<Node>,
    m: Map<int, int>,
    t: Map<(int, int), int>,
    nus: Nus,
    number: int,
    ups: int,
    star: int,
) -> bool {
    &&& is_number(u, number, nus.number.numerator() as int, nus.number.spec_exponent() as nat)
    &&& is_nimber(u, star, nus.nimber as nat)
    &&& exists|up: int, z: int|
        #[trigger] is_up(u, up) && #[trigger] is_zero(u, z) && (nus.up_multiple < 0
            ==> m.contains_key(up)) && is_multiple(
            t,
            unit_of(m, up, nus.up_multiple as int),
            z,
            count_of(nus.up_multiple as int),
            ups,
        )
}

/// The game at `g` is the sum of the three games, as the map of sums `t`
/// has it: the first two are added, and the third to their sum.
pub open spec fn sum_of_three(t: Map<(int, int), int>, a: int, b: int, c: int, g: int) -> bool {
    exists|part: int| #[trigger] is_sum_at(t, a, b, part) && is_sum_at(t, part, c, g)
}

/// The game at `g` is the sum of the parts that `nus` names.
pub open spec fn is_number_up_star(
    u: Seq<Node>,
    m: Map<int, int>,
    t: Map<(int, int), int>,
    nus: Nus,
    g: int,
) -> bool {
    exists|number: int, ups: int, star: int| #[trigger]
        named_parts(u, m, t, nus, number, ups, star) && sum_of_three(t, number, ups, star, g)
}

/// The number with the given sign and magnitude.
pub open spec fn signed_value(negative: bool, magnitude: int) -> int {
    if negative {
        -magnitude
    } else {
        magnitude
    }
}

impl GameStorage {
    /// The game with the one left option `l` and the one right option `r`,
    /// in canonical form.
    pub fn construct_switch(&mut self, l: Game, r: Game) -> (g: Game)
        requires
            old(self).wf(),
            old(self).has(l),
            old(self).has(r),
        ensures
            final(self).wf(),
            final(self).grows_from(old(self)),
            final(self).has(g),
            final(self).negations() == old(self).negations(),
            final(self).sums() == old(self).sums(),
            form_equals(final(self)@, switch_node(l.id as int, r.id as int), g.id as int),
    {
        let mut left: Vec<Game> = Vec::new();
        left.push(l);
        let mut right: Vec<Game> = Vec::new();
        right.push(r);
        let moves = Moves { left, right };
        proof {
            assert(moves.left@[0] == l);
            assert(moves.right@[0] == r);
            assert(game_places(moves.left@) =~= Set::<int>::empty().insert(l.id as int));
            assert(game_places(moves.right@) =~= Set::<int>::empty().insert(r.id as int));
            assert(moves_node(moves) == switch_node(l.id as int, r.id as int));
        }
        self.construct_from_moves(moves)
    }

    /// The number `±magnitude / 2^k` as a game.
    fn construct_fraction(&mut self, negative: bool, magnitude: u64, k: u32) -> (g: Game)
        requires
            old(self).wf(),
            magnitude <= 0x1_0000_0000,
        ensures
            final(self).wf(),
            final(self).grows_from(old(self)),
            final(self).has(g),
            final(self).negations() == old(self).negations(),
            final(self).sums() == old(self).sums(),
            is_number(final(self)@, g.id as int, signed_value(negative, magnitude as int), k as nat),
        decreases k,
    {
        let ghost p = signed_value(negative, magnitude as int);
        if k == 0 {
            let n: i64 = if negative {
                -(magnitude as i64)
            } else {
                magnitude as i64
            };
            return self.construct_integer(n);
        }
        if magnitude % 2 == 0 {
            assert(p % 2 == 0 && p / 2 == signed_value(negative, (magnitude / 2) as int));
            return self.construct_fraction(negative, magnitude / 2, k - 1);
        }
        let ghost first = *self;
        let (below, above): (u64, u64) = if negative {
            ((magnitude + 1) / 2, (magnitude - 1) / 2)
        } else {
            ((magnitude - 1) / 2, (magnitude + 1) / 2)
        };
        assert(signed_value(negative, below as int) == (p - 1) / 2);
        assert(signed_value(negative, above as int) == (p + 1) / 2);
        let l = self.construct_fraction(negative, below, k - 1);
        let ghost second = *self;
        let r = self.construct_fraction(negative, above, k - 1);
        let ghost third = *self;
        proof {
            self.lemma_grows_transitive(&second, &first);
            lemma_number_prefix(second@, third@, l.id as int, (p - 1) / 2, (k - 1) as nat);
        }
        let g = self.construct_switch(l, r);
        proof {
            self.lemma_grows_transitive(&third, &first);
            lemma_number_prefix(third@, self@, l.id as int, (p - 1) / 2, (k - 1) as nat);
            lemma_number_prefix(third@, self@, r.id as int, (p + 1) / 2, (k - 1) as nat);
        }
        g
    }

    /// How the games `a` and `b` compare.
    pub fn compare(&mut self, a: Game, b: Game) -> (r: Comparison)
        requires
            old(self).wf(),
            old(self).has(a),
            old(self).has(b),
        ensures
            final(self).wf(),
            final(self)@ == old(self)@,
            final(self).entries() == old(self).entries(),
            r == comparison(old(self)@, a.id as int, b.id as int),
    {
        let below = self.leq(a, b);
        let above = self.leq(b, a);
        if below && above {
            Comparison::Equal
        } else if below {
            Comparison::Less
        } else if above {
            Comparison::Greater
        } else {
            Comparison::Confused
        }
    }

    /// Up as a game: the canonical form of the game from zero to the nimber
    /// of size one.
    pub fn construct_up(&mut self) -> (g: Game)
        requires
            old(self).wf(),
        ensures
            final(self).wf(),
            final(self).grows_from(old(self)),
            final(self).has(g),
            final(self).negations() == old(self).negations(),
            final(self).sums() == old(self).sums(),
            is_up(final(self)@, g.id as int),
    {
        let ghost first = *self;
        let z = self.construct_integer(0);
        let ghost second = *self;
        let s = self.construct_nimber(1);
        let ghost third = *self;
        let g = self.construct_switch(z, s);
        proof {
            self.lemma_grows_transitive(&third, &second);
            self.lemma_grows_transitive(&second, &first);
            assert(is_zero(second@, z.id as int));
            lemma_zero_prefix(second@, self@, z.id as int);
            lemma_nimber_prefix(third@, self@, s.id as int, 1);
        }
        g
    }

    /// The sum of `count` games `unit`, added one by one to `zero`.
    pub fn construct_multiple(&mut self, unit: Game, zero: Game, count: u32) -> (g: Game)
        requires
            old(self).wf(),
            old(self).has(unit),
            old(self).has(zero),
        ensures
            final(self).wf(),
            final(self).grows_from(old(self)),
            final(self).has(g),
            final(self).negations() == old(self).negations(),
            is_multiple(final(self).sums(), unit.id as int, zero.id as int, count as nat, g.id as int),
    {
        let ghost first = *self;
        proof {
            first.lemma_grows_reflexive(&first);
        }
        let mut cur = zero;
        let mut k: u32 = 0;
        while k < count
            invariant
                self.wf(),
                self.grows_from(&first),
                self.negations() == first.negations(),
                self.has(unit),
                self.has(cur),
                k <= count,
                is_multiple(self.sums(), unit.id as int, zero.id as int, k as nat, cur.id as int),
            decreases count - k,
        {
            let ghost middle = *self;
            let next = self.construct_sum(cur, unit);
            proof {
                self.lemma_grows_transitive(&middle, &first);
                lemma_multiple_grows(
                    middle.sums(),
                    self.sums(),
                    unit.id as int,
                    zero.id as int,
                    k as nat,
                    cur.id as int,
                );
            }
            cur = next;
            k += 1;
        }
        cur
    }

    /// The sum of a number, a multiple of up and a nimber, as `nus` names
    /// them.
    pub fn construct_number_up_star(&mut self, nus: Nus) -> (g: Game)
        requires
            old(self).wf(),
            nus.number.wf(),
        ensures
            final(self).wf(),
            final(self).grows_from(old(self)),
            final(self).has(g),
            is_number_up_star(
                final(self)@,
                final(self).negations(),
                final(self).sums(),
                nus,
                g.id as int,
            ),
    {
        let ghost s0 = *self;
        let number = self.construct_rational(nus.number);
        let ghost s1 = *self;
        let star = self.construct_nimber(nus.nimber);
        let ghost s2 = *self;
        let z = self.construct_integer(0);
        let ghost s3 = *self;
        let up = self.construct_up();
        let ghost s4 = *self;
        let (unit, count): (Game, u32) = if nus.up_multiple >= 0 {
            (up, nus.up_multiple as u32)
        } else {
            (self.negate(up), (-(nus.up_multiple as i64)) as u32)
        };
        let ghost s5 = *self;
        proof {
            s5.lemma_grows_reflexive(&s5);
        }
        let ups = self.construct_multiple(unit, z, count);
        let ghost s6 = *self;
        let part = self.construct_sum(number, ups);
        let ghost s7 = *self;
        let g = self.construct_sum(part, star);
        proof {
            s2.lemma_grows_transitive(&s1, &s0);
            s3.lemma_grows_transitive(&s2, &s0);
            s4.lemma_grows_transitive(&s3, &s0);
            s5.lemma_grows_transitive(&s4, &s0);
            s6.lemma_grows_transitive(&s5, &s0);
            s7.lemma_grows_transitive(&s6, &s0);
            self.lemma_grows_transitive(&s7, &s0);
            self.lemma_grows_transitive(&s7, &s6);
            self.lemma_grows_transitive(&s6, &s5);
            self.lemma_grows_transitive(&s5, &s4);
            self.lemma_grows_transitive(&s4, &s3);
            self.lemma_grows_transitive(&s3, &s2);
            self.lemma_grows_transitive(&s2, &s1);
            let u = self@;
            lemma_number_prefix(
                s1@,
                u,
                number.id as int,
                nus.number.numerator() as int,
                nus.number.spec_exponent() as nat,
            );
            lemma_nimber_prefix(s2@, u, star.id as int, nus.nimber as nat);
            assert(is_zero(s3@, z.id as int));
            lemma_zero_prefix(s3@, u, z.id as int);
            lemma_up_prefix(s4@, u, up.id as int);
            lemma_multiple_grows(
                s6.sums(),
                self.sums(),
                unit.id as int,
                z.id as int,
                count as nat,
                ups.id as int,
            );
            assert(count as nat == count_of(nus.up_multiple as int));
            assert(unit.id == unit_of(self.negations(), up.id as int, nus.up_multiple as int));
            assert(is_up(u, up.id as int) && is_zero(u, z.id as int));
            assert(named_parts(
                u,
                self.negations(),
                self.sums(),
                nus,
                number.id as int,
                ups.id as int,
                star.id as int,
            ));
            assert(is_sum_at(self.sums(), number.id as int, ups.id as int, part.id as int));
            assert(sum_of_three(
                self.sums(),
                number.id as int,
                ups.id as int,
                star.id as int,
                g.id as int,
            ));
        }
        g
    }

    /// The number `numerator / 2^exponent` as a game; the fraction need
    /// not be in lowest terms.
    pub fn construct_dyadic(&mut self, numerator: i32, exponent: u32) -> (g: Game)
        requires
            old(self).wf(),
        ensures
            final(self).wf(),
            final(self).grows_from(old(self)),
            final(self).has(g),
            final(self).negations() == old(self).negations(),
            final(self).sums() == old(self).sums(),
            is_number(final(self)@, g.id as int, numerator as int, exponent as nat),
    {
        let negative = numerator < 0;
        let magnitude: u64 = if negative {
            (-(numerator as i64)) as u64
        } else {
            numerator as u64
        };
        self.construct_fraction(negative, magnitude, exponent)
    }

    /// The number `number` as a game: the game of the table, put there if
    /// need be, that is that number.
    pub fn construct_rational(&mut self, number: DyadicRationalNumber) -> (g: Game)
        requires
            old(self).wf(),
            number.wf(),
        ensures
            final(self).wf(),
            final(self).grows_from(old(self)),
            final(self).has(g),
            final(self).negations() == old(self).negations(),
            final(self).sums() == old(self).sums(),
            is_number(
                final(self)@,
                g.id as int,
                number.numerator() as int,
                number.spec_exponent() as nat,
            ),
    {
        let n = number.numerator();
        let negative = n < 0;
        let magnitude: u64 = if negative {
            (-(n as i64)) as u64
        } else {
            n as u64
        };
        self.construct_fraction(negative, magnitude, number.denominator_exponent() as u32)
    }
}

impl GameStorage {
    /// The nimber of size `n` as a game: the one game of the table, put
    /// there if need be, whose options on both sides are the smaller
    /// nimbers.
    pub fn construct_nimber(&mut self, n: u32) -> (g: Game)
        requires
            old(self).wf(),
        ensures
            final(self).wf(),
            final(self).grows_from(old(self)),
            final(self).has(g),
            final(self).negations() == old(self).negations(),
            final(self).sums() == old(self).sums(),
            is_nimber(final(self)@, g.id as int, n as nat),
    {
        let ghost first = *self;
        proof {
            first.lemma_grows_reflexive(&first);
        }
        let mut ids: Vec<usize> = Vec::new();
        let mut sorted: Vec<usize> = Vec::new();
        let mut k: u32 = 0;
        let mut last: usize = 0;
        loop
            invariant_except_break
                ids@.len() == k,
            invariant
                self.wf(),
                self.grows_from(&first),
                self.negations() == first.negations(),
                self.sums() == first.sums(),
                k <= n,
                nimber_chain(self@, ids@),
                strictly_increasing(sorted@),
                places(sorted@) =~= places(ids@),
                all_below(sorted@, self@.len() as int),
            ensures
                self.wf(),
                self.grows_from(&first),
                self.negations() == first.negations(),
                self.sums() == first.sums(),
                ids@.len() == n + 1,
                nimber_chain(self@, ids@),
                last == ids@[n as int],
            decreases n - k,
        {
            let ghost u = self@;
            let ghost middle = *self;
            proof {
                self.lemma_wf();
                lemma_next_nimber_canonical(u, ids@, sorted@);
                lemma_form_below(sorted@, sorted@, u.len() as int);
            }
            let left = copy_of(&sorted);
            let right = copy_of(&sorted);
            let id = self.intern(left, right);
            let ghost before = ids@;
            ids.push(id);
            proof {
                self.lemma_grows_transitive(&middle, &first);
                self.lemma_wf();
                lemma_nimber_chain_prefix(u, self@, before);
                assert(ids@.take(k as int) =~= before);
                assert forall|i: int| 0 <= i < ids@.len() implies {
                    &&& (#[trigger] ids@[i]) < self@.len()
                    &&& self@[ids@[i] as int].left =~= places(ids@.take(i))
                    &&& self@[ids@[i] as int].right =~= places(ids@.take(i))
                } by {
                    if i < k {
                        assert(ids@[i] == before[i]);
                        assert(ids@.take(i) =~= before.take(i));
                    }
                }
                assert(places(ids@) =~= places(before).insert(id as int)) by {
                    assert(ids@ =~= before.insert(k as int, id));
                    crate::short::partizan::id_list::lemma_places_insert(before, k as int, id);
                }
            }
            sorted_insert(&mut sorted, id);
            last = id;
            if k == n {
                break;
            }
            k += 1;
        }
        Game { id: last }
    }
}

} // verus!
