//! The table of positions: what the canonical form of each position is that
//! was worked out, and the table of games in which the forms are.

use crate::short::partizan::algebra::{is_sum_at, pair};
use crate::short::partizan::game_storage::{moves_node, Game, GameStorage, Moves};
use crate::short::partizan::id_list::places;
use crate::short::partizan::partizan_game::{
    lemma_position_values_grow, lemma_position_values_part, lemma_position_values_whole,
    lemma_sum_of_parts_stable, node_of, part_value, position_values, states_of, sum_of_parts,
    sum_value, whole_value, PartizanGame,
};
use crate::short::partizan::universe::{form_equals, is_integer, lemma_integer_prefix};
use std::collections::HashMap;
use vstd::prelude::*;

verus! {

/// A map from positions to games, filed by the fingerprints of the
/// positions.
pub struct PositionMap<G: PartizanGame> {
    keys: Vec<G>,
    values: Vec<usize>,
    index: HashMap<u64, Vec<usize>>,
}

impl<G: PartizanGame> View for PositionMap<G> {
    type V = Map<G::State, int>;

    /// The map from positions to the places of games.
    closed spec fn view(&self) -> Map<G::State, int> {
        Map::new(
            |p: G::State| exists|i: int| 0 <= i < self.keys@.len() && self.keys@[i].state() == p,
            |p: G::State|
                self.values@[choose|i: int| 0 <= i < self.keys@.len() && self.keys@[i].state() == p] as int,
        )
    }
}

impl<G: PartizanGame> PositionMap<G> {
    /// Every position is kept once, with a value, and is found by its
    /// fingerprint.
    pub closed spec fn wf(&self) -> bool {
        &&& self.values@.len() == self.keys@.len()
        &&& forall|i: int, j: int|
            0 <= i < j < self.keys@.len() ==> self.keys@[i].state() != self.keys@[j].state()
        &&& forall|i: int|
            0 <= i < self.keys@.len() ==> self.index@.contains_key(
                G::fingerprint_spec((#[trigger] self.keys@[i]).state()),
            ) && places(self.index@[G::fingerprint_spec(self.keys@[i].state())]@).contains(i)
        &&& forall|h: u64, k: int|
            self.index@.contains_key(h) && 0 <= k < self.index@[h]@.len()
                ==> #[trigger] self.index@[h]@[k] < self.keys@.len()
    }

    /// An empty map.
    pub fn new() -> (m: Self)
        ensures
            m.wf(),
            m@ == Map::<G::State, int>::empty(),
    {
        let m = PositionMap { keys: Vec::new(), values: Vec::new(), index: HashMap::new() };
        assert(m@ =~= Map::<G::State, int>::empty());
        m
    }

    /// Number of positions in the map.
    pub fn len(&self) -> (n: usize)
        ensures
            n == self.spec_len(),
    {
        self.keys.len()
    }

    /// Number of positions in the map.
    pub closed spec fn spec_len(&self) -> nat {
        self.keys@.len()
    }

    /// The value of the position `p`, if the map has one.
    pub fn get(&self, p: &G) -> (r: Option<usize>)
        requires
            self.wf(),
        ensures
            match r {
                Some(v) => self@.contains_key(p.state()) && self@[p.state()] == v,
                None => !self@.contains_key(p.state()),
            },
    {
        broadcast use vstd::std_specs::hash::group_hash_axioms;

        let h = p.fingerprint();
        match self.index.get(&h) {
            Some(bucket) => {
                let mut k: usize = 0;
                while k < bucket.len()
                    invariant
                        self.wf(),
                        self.index@.contains_key(h),
                        *bucket == self.index@[h],
                        k <= bucket@.len(),
                        forall|j: int|
                            0 <= j < k ==> self.keys@[#[trigger] bucket@[j] as int].state() != p.state(),
                    decreases bucket@.len() - k,
                {
                    let e = bucket[k];
                    assert(self.index@[h]@[k as int] < self.keys@.len());
                    if self.keys[e].same_as(p) {
                        proof {
                            let c = choose|i: int|
                                0 <= i < self.keys@.len() && self.keys@[i].state() == p.state();
                            assert(c == e);
                        }
                        return Some(self.values[e]);
                    }
                    k += 1;
                }
                proof {
                    if self@.contains_key(p.state()) {
                        let i = choose|i: int|
                            0 <= i < self.keys@.len() && self.keys@[i].state() == p.state();
                        assert(places(
                            self.index@[G::fingerprint_spec(self.keys@[i].state())]@,
                        ).contains(i));
                        let j = choose|j: int| 0 <= j < bucket@.len() && bucket@[j] == i;
                        assert(self.keys@[bucket@[j] as int].state() != p.state());
                    }
                }
                None
            },
            None => {
                proof {
                    if self@.contains_key(p.state()) {
                        let i = choose|i: int|
                            0 <= i < self.keys@.len() && self.keys@[i].state() == p.state();
                        assert(self.index@.contains_key(
                            G::fingerprint_spec(self.keys@[i].state()),
                        ));
                    }
                }
                None
            },
        }
    }

    /// Puts the position `p` with the value `v` into the map. Where the map
    /// holds `p` already, with this value, nothing changes; a position keeps
    /// the value that it has.
    pub fn insert(&mut self, p: G, v: usize)
        requires
            old(self).wf(),
            old(self)@.contains_key(p.state()) ==> old(self)@[p.state()] == v,
        ensures
            final(self).wf(),
            final(self)@ == old(self)@.insert(p.state(), v as int),
            final(self).spec_len() == old(self).spec_len() + (if old(self)@.contains_key(p.state()) {
                0int
            } else {
                1int
            }),
    {
        broadcast use vstd::std_specs::hash::group_hash_axioms;

        if self.get(&p).is_some() {
            assert(self@ =~= old(self)@.insert(p.state(), v as int));
            return ;
        }
        let ghost before = *self;
        let ghost ps = p.state();
        let h = p.fingerprint();
        let at = self.keys.len();
        self.keys.push(p);
        self.values.push(v);
        let mut bucket = match self.index.remove(&h) {
            Some(b) => b,
            None => Vec::new(),
        };
        let ghost old_bucket = bucket@;
        bucket.push(at);
        self.index.insert(h, bucket);
        proof {
            assert forall|i: int, j: int| 0 <= i < j < self.keys@.len() implies self.keys@[i].state()
                != self.keys@[j].state() by {
                if j == at {
                    assert(before.keys@[i] == self.keys@[i]);
                } else {
                    assert(before.keys@[i] == self.keys@[i] && before.keys@[j] == self.keys@[j]);
                }
            }
            assert forall|i: int| 0 <= i < self.keys@.len() implies self.index@.contains_key(
                G::fingerprint_spec((#[trigger] self.keys@[i]).state()),
            ) && places(self.index@[G::fingerprint_spec(self.keys@[i].state())]@).contains(i) by {
                let f = G::fingerprint_spec(self.keys@[i].state());
                if i < at {
                    assert(self.keys@[i] == before.keys@[i]);
                    assert(before.index@.contains_key(f));
                    if f == h {
                        let m = choose|m: int| 0 <= m < old_bucket.len() && old_bucket[m] == i;
                        assert(self.index@[h]@[m] == i);
                    } else {
                        assert(self.index@[f] == before.index@[f]);
                    }
                } else {
                    assert(self.index@[h]@[old_bucket.len() as int] == i);
                }
            }
            assert forall|f: u64, k: int|
                self.index@.contains_key(f) && 0 <= k < self.index@[f]@.len()
                    implies #[trigger] self.index@[f]@[k] < self.keys@.len() by {
                if f == h {
                    if k < old_bucket.len() {
                        assert(before.index@.contains_key(h));
                        assert(before.index@[h]@[k] < before.keys@.len());
                    }
                } else {
                    assert(before.index@.contains_key(f));
                    assert(before.index@[f]@[k] < before.keys@.len());
                }
            }
            assert forall|q: G::State|
                self@.contains_key(q) == before@.insert(ps, v as int).contains_key(q) by {
                if self@.contains_key(q) {
                    let i = choose|i: int| 0 <= i < self.keys@.len() && self.keys@[i].state() == q;
                    if i < at {
                        assert(before.keys@[i].state() == q);
                    }
                }
                if before@.contains_key(q) {
                    let i = choose|i: int|
                        0 <= i < before.keys@.len() && before.keys@[i].state() == q;
                    assert(self.keys@[i].state() == q);
                }
                if q == ps {
                    assert(self.keys@[at as int].state() == q);
                }
            }
            assert forall|q: G::State| self@.contains_key(q) implies self@[q] == before@.insert(
                ps,
                v as int,
            )[q] by {
                let i = choose|i: int| 0 <= i < self.keys@.len() && self.keys@[i].state() == q;
                if q == ps {
                    assert(self.keys@[at as int].state() == q);
                    assert(i == at);
                } else {
                    assert(i < at);
                    assert(before.keys@[i].state() == q);
                    let j = choose|j: int|
                        0 <= j < before.keys@.len() && before.keys@[j].state() == q;
                    assert(self.keys@[j].state() == q);
                    assert(i == j);
                }
            }
            assert(self@ =~= before@.insert(ps, v as int));
        }
    }
}

/// The table of positions of one game, with the table of games in which
/// their canonical forms are.
pub struct TranspositionTable<G: PartizanGame> {
    games: GameStorage,
    whole: PositionMap<G>,
    part: PositionMap<G>,
}

impl<G: PartizanGame> TranspositionTable<G> {
    /// The table of games.
    pub closed spec fn games(&self) -> GameStorage {
        self.games
    }

    /// The canonical forms of the whole positions that were worked out,
    /// each under its normal shape.
    pub closed spec fn grids(&self) -> Map<G::State, int> {
        self.whole@
    }

    /// The canonical forms of the parts of positions that were worked out.
    pub closed spec fn parts(&self) -> Map<G::State, int> {
        self.part@
    }

    /// The table of games is one of canonical forms, and the maps of
    /// positions hold the values of the positions.
    pub closed spec fn wf(&self) -> bool {
        &&& self.games.wf()
        &&& self.whole.wf()
        &&& self.part.wf()
        &&& position_values::<G>(self.games@, self.games.sums(), self.whole@, self.part@)
    }

    /// What holds of every table.
    pub proof fn lemma_wf(&self)
        requires
            self.wf(),
        ensures
            self.games().wf(),
            position_values::<G>(self.games()@, self.games().sums(), self.grids(), self.parts()),
    {
    }

    /// The form of a position whose value the rules of the game do not tell
    /// is the sum of the forms of its parts, added one by one to zero.
    pub proof fn lemma_form_is_sum_of_parts(&self, g: G::State)
        requires
            self.wf(),
            self.grids().contains_key(g),
            G::reduced(g) is None,
        ensures
            sum_value::<G>(self.games()@, self.games().sums(), self.parts(), g, self.grids()[g]),
    {
        self.lemma_wf();
        assert(whole_value::<G>(
            self.games()@,
            self.games().sums(),
            self.parts(),
            g,
            self.grids()[g],
        ));
    }

    /// A position that is its own only part has, as a position, the form
    /// that it has as a part: the forms of the parts of a position are the
    /// forms of those parts taken as positions of their own.
    pub proof fn lemma_part_as_position(&self, c: G::State)
        requires
            self.wf(),
            self.grids().contains_key(c),
            G::reduced(c) is None,
            G::components(c) =~= seq![c],
        ensures
            self.parts().contains_key(c),
            self.grids()[c] == self.parts()[c],
    {
        self.lemma_wf();
        self.games().lemma_wf();
        let u = self.games()@;
        let t = self.games().sums();
        let part = self.parts();
        let v = self.grids()[c];
        assert(whole_value::<G>(u, t, part, c, v));
        assert(sum_value::<G>(u, t, part, c, v));
        let zero = choose|zero: int| #[trigger]
            is_integer(u, zero, 0) && sum_of_parts::<G>(
                t,
                part,
                G::components(c),
                G::components(c).len() as int,
                zero,
            ) == Some(v);
        let parts = G::components(c);
        assert(parts.len() == 1 && parts[0] == c);
        assert(sum_of_parts::<G>(t, part, parts, 0, zero) == Some(zero));
        assert(sum_of_parts::<G>(t, part, parts, 1, zero) == Some(v));
        assert(part.contains_key(c) && t.contains_key(pair(part[c], zero)) && t[pair(
            part[c],
            zero,
        )] == v);
        crate::short::partizan::identities::lemma_sum_with_zero(u, t, part[c], zero);
    }

    /// The form of a part has the value of the game whose options are the
    /// forms of the positions that the players can move to.
    pub proof fn lemma_form_of_part(&self, c: G::State)
        requires
            self.wf(),
            self.parts().contains_key(c),
        ensures
            part_value::<G>(self.games()@, self.grids(), c, self.parts()[c]),
    {
        self.lemma_wf();
    }

    /// This table has grown from `old`: its games have, and it holds every
    /// position of `old` with the same value.
    pub open spec fn grows_from(&self, old: &Self) -> bool {
        &&& self.games().grows_from(&old.games())
        &&& old.grids().submap_of(self.grids())
        &&& old.parts().submap_of(self.parts())
    }

    /// Growing is transitive.
    pub proof fn lemma_grows_transitive(&self, middle: &Self, old: &Self)
        requires
            middle.grows_from(old),
            self.grows_from(middle),
        ensures
            self.grows_from(old),
    {
        self.games().lemma_grows_transitive(&middle.games(), &old.games());
        assert forall|k: G::State| #[trigger] old.grids().contains_key(k) implies self.grids().contains_key(
            k,
        ) && self.grids()[k] == old.grids()[k] by {
            assert(middle.grids().contains_key(k));
        }
        assert forall|k: G::State| #[trigger] old.parts().contains_key(k) implies self.parts().contains_key(
            k,
        ) && self.parts()[k] == old.parts()[k] by {
            assert(middle.parts().contains_key(k));
        }
    }

    /// An empty table.
    pub fn new() -> (t: Self)
        ensures
            t.wf(),
            t.grids() == Map::<G::State, int>::empty(),
    {
        TranspositionTable {
            games: GameStorage::new(),
            whole: PositionMap::new(),
            part: PositionMap::new(),
        }
    }

    /// The table of games, to read.
    pub fn game_backend(&self) -> (g: &GameStorage)
        ensures
            *g == self.games(),
    {
        &self.games
    }

    /// Number of whole positions in the table.
    pub fn grids_saved(&self) -> (n: usize)
        ensures
            n == self.whole_len(),
    {
        self.whole.len()
    }

    /// Number of whole positions in the table.
    pub closed spec fn whole_len(&self) -> nat {
        self.whole.spec_len()
    }

    /// The canonical form that the table has for the position `p`, taken as
    /// it is.
    pub fn grids_get(&self, p: &G) -> (r: Option<Game>)
        requires
            self.wf(),
        ensures
            match r {
                Some(g) => self.grids().contains_key(p.state()) && self.grids()[p.state()] == g.id
                    && self.games().has(g),
                None => !self.grids().contains_key(p.state()),
            },
    {
        match self.whole.get(p) {
            Some(v) => {
                assert(whole_value::<G>(self.games@, self.games.sums(), self.part@, p.state(), v as int));
                Some(Game { id: v })
            },
            None => None,
        }
    }

    /// The negative of the game `a`, in the table of games.
    pub fn negate(&mut self, a: Game) -> (g: Game)
        requires
            old(self).wf(),
            old(self).games().has(a),
        ensures
            final(self).wf(),
            final(self).grows_from(old(self)),
            final(self).games().has(g),
            final(self).games().negations().contains_key(a.id as int),
            final(self).games().negations()[a.id as int] == g.id,
    {
        let ghost u0 = self.games@;
        let ghost t0 = self.games.sums();
        let g = self.games.negate(a);
        proof {
            lemma_position_values_grow::<G>(
                u0,
                t0,
                self.whole@,
                self.part@,
                self.games@,
                self.games.sums(),
            );
        }
        g
    }

    /// The sum of the games `a` and `b`, in the table of games.
    pub fn construct_sum(&mut self, a: Game, b: Game) -> (g: Game)
        requires
            old(self).wf(),
            old(self).games().has(a),
            old(self).games().has(b),
        ensures
            final(self).wf(),
            final(self).grows_from(old(self)),
            final(self).games().has(g),
            is_sum_at(final(self).games().sums(), a.id as int, b.id as int, g.id as int),
    {
        let ghost u0 = self.games@;
        let ghost t0 = self.games.sums();
        let g = self.games.construct_sum(a, b);
        proof {
            lemma_position_values_grow::<G>(
                u0,
                t0,
                self.whole@,
                self.part@,
                self.games@,
                self.games.sums(),
            );
        }
        g
    }

    /// The integer `n`, in the table of games.
    pub fn construct_integer(&mut self, n: i64) -> (g: Game)
        requires
            old(self).wf(),
        ensures
            final(self).wf(),
            final(self).grows_from(old(self)),
            final(self).games().has(g),
            is_integer(final(self).games()@, g.id as int, n as int),
    {
        let ghost u0 = self.games@;
        let ghost t0 = self.games.sums();
        let g = self.games.construct_integer(n);
        proof {
            lemma_position_values_grow::<G>(
                u0,
                t0,
                self.whole@,
                self.part@,
                self.games@,
                self.games.sums(),
            );
        }
        g
    }

    /// The canonical form of the game with the given options, in the table
    /// of games.
    pub fn construct_from_moves(&mut self, moves: Moves) -> (g: Game)
        requires
            old(self).wf(),
            old(self).games().has_all(moves.left@),
            old(self).games().has_all(moves.right@),
        ensures
            final(self).wf(),
            final(self).grows_from(old(self)),
            final(self).games().has(g),
            form_equals(final(self).games()@, moves_node(moves), g.id as int),
    {
        let ghost u0 = self.games@;
        let ghost t0 = self.games.sums();
        let g = self.games.construct_from_moves(moves);
        proof {
            lemma_position_values_grow::<G>(
                u0,
                t0,
                self.whole@,
                self.part@,
                self.games@,
                self.games.sums(),
            );
        }
        g
    }

    /// Whether the game `a` is at most the game `b`.
    pub fn leq(&mut self, a: Game, b: Game) -> (r: bool)
        requires
            old(self).wf(),
            old(self).games().has(a),
            old(self).games().has(b),
        ensures
            final(self).wf(),
            final(self).grows_from(old(self)),
            final(self).games()@ == old(self).games()@,
            r == crate::short::partizan::universe::leq(old(self).games()@, a.id as int, b.id as int),
    {
        let ghost before = self.games;
        let r = self.games.leq(a, b);
        proof {
            self.games.lemma_grows_reflexive(&before);
        }
        r
    }

    /// The canonical forms of the positions `moves`, each in its normal
    /// shape, in the order of the list.
    fn option_forms(&mut self, moves: &Vec<G>, Ghost(bound): Ghost<nat>) -> (out: Vec<Game>)
        requires
            old(self).wf(),
            forall|k: int|
                0 <= k < moves@.len() ==> G::valid((#[trigger] moves@[k]).state()) && G::rank(
                    moves@[k].state(),
                ) < bound,
        ensures
            final(self).wf(),
            final(self).grows_from(old(self)),
            final(self).games().has_all(out@),
            out@.len() == moves@.len(),
            forall|k: int|
                0 <= k < moves@.len() ==> final(self).grids().contains_key(
                    G::normal((#[trigger] moves@[k]).state()),
                ) && final(self).grids()[G::normal(moves@[k].state())] == out@[k].id,
        decreases bound, 0int,
    {
        let ghost start = *self;
        let mut out: Vec<Game> = Vec::new();
        let mut k: usize = 0;
        proof {
            start.games().lemma_grows_reflexive(&start.games());
        }
        while k < moves.len()
            invariant
                self.wf(),
                self.grows_from(&start),
                forall|j: int|
                    0 <= j < moves@.len() ==> G::valid((#[trigger] moves@[j]).state()) && G::rank(
                        moves@[j].state(),
                    ) < bound,
                k <= moves@.len(),
                out@.len() == k,
                self.games().has_all(out@),
                forall|j: int|
                    0 <= j < k ==> self.grids().contains_key(G::normal((#[trigger] moves@[j]).state()))
                        && self.grids()[G::normal(moves@[j].state())] == out@[j].id,
            decreases moves@.len() - k,
        {
            let ghost middle = *self;
            let ghost before = out@;
            let g = self.canonical_form(&moves[k]);
            out.push(g);
            proof {
                self.lemma_grows_transitive(&middle, &start);
                assert forall|j: int| 0 <= j < out@.len() implies self.games().has(
                    #[trigger] out@[j],
                ) by {
                    if j < k {
                        assert(middle.games().has(before[j]));
                    }
                }
                assert forall|j: int| 0 <= j < k + 1 implies self.grids().contains_key(
                    G::normal((#[trigger] moves@[j]).state()),
                ) && self.grids()[G::normal(moves@[j].state())] == out@[j].id by {
                    let key = G::normal(moves@[j].state());
                    if j < k {
                        assert(middle.grids().contains_key(key));
                        assert(middle.grids()[key] == before[j].id);
                        assert(middle.grids().dom().contains(key));
                        assert(self.grids().dom().contains(key));
                        assert(self.grids()[key] == middle.grids()[key]);
                        assert(out@[j] == before[j]);
                    } else {
                        assert(j == k);
                        assert(self.grids().contains_key(G::normal(moves@[k as int].state())));
                        assert(out@[j] == g);
                    }
                }
            }
            k += 1;
        }
        out
    }

    /// The canonical form of the part `c` of a position: the game with the
    /// value of the game whose options are the canonical forms of the
    /// positions that the players can move to from `c`.
    fn part_form(&mut self, c: &G) -> (r: Game)
        requires
            old(self).wf(),
            G::valid(c.state()),
        ensures
            final(self).wf(),
            final(self).grows_from(old(self)),
            final(self).games().has(r),
            final(self).parts().contains_key(c.state()),
            final(self).parts()[c.state()] == r.id,
        decreases G::rank(c.state()), 1int,
    {
        let ghost start = *self;
        proof {
            start.games().lemma_grows_reflexive(&start.games());
        }
        if let Some(v) = self.part.get(c) {
            assert(part_value::<G>(self.games@, self.whole@, c.state(), v as int));
            return Game { id: v };
        }
        let left_moves = c.left_moves();
        let right_moves = c.right_moves();
        let left = self.option_forms(&left_moves, Ghost(G::rank(c.state())));
        let ghost s1 = *self;
        let right = self.option_forms(&right_moves, Ghost(G::rank(c.state())));
        let ghost s2 = *self;
        proof {
            s2.lemma_grows_transitive(&s1, &start);
        }
        if let Some(v) = self.part.get(c) {
            assert(part_value::<G>(self.games@, self.whole@, c.state(), v as int));
            return Game { id: v };
        }
        let ghost w = self.whole@;
        let moves = Moves { left, right };
        proof {
            assert forall|j: int| 0 <= j < moves.left@.len() implies s2.games().has(
                #[trigger] moves.left@[j],
            ) by {
                assert(s1.games().has(moves.left@[j]));
            }
            let cs = c.state();
            let node = node_of::<G>(w, cs);
            let built = moves_node(moves);
            assert forall|m: G::State| #[trigger] G::left_options(cs).contains(m) implies w.contains_key(
                G::normal(m),
            ) by {
                let k = choose|k: int|
                    0 <= k < left_moves@.len() && (#[trigger] left_moves@[k]).state() == m;
                assert(s1.grids().contains_key(G::normal(left_moves@[k].state())));
            }
            assert forall|m: G::State| #[trigger] G::right_options(cs).contains(m) implies w.contains_key(
                G::normal(m),
            ) by {
                let k = choose|k: int|
                    0 <= k < right_moves@.len() && (#[trigger] right_moves@[k]).state() == m;
                assert(s2.grids().contains_key(G::normal(right_moves@[k].state())));
            }
            assert forall|v: int| node.left.contains(v) == built.left.contains(v) by {
                if node.left.contains(v) {
                    let m = choose|m: G::State| #[trigger]
                        G::left_options(cs).contains(m) && w.contains_key(G::normal(m)) && w[G::normal(
                            m,
                        )] == v;
                    let k = choose|k: int|
                        0 <= k < left_moves@.len() && (#[trigger] left_moves@[k]).state() == m;
                    assert(s1.grids().contains_key(G::normal(left_moves@[k].state())));
                    assert(moves.left@[k].id == v);
                }
                if built.left.contains(v) {
                    let k = choose|k: int| 0 <= k < moves.left@.len() && moves.left@[k].id == v;
                    assert(s1.grids().contains_key(G::normal(left_moves@[k].state())));
                    assert(G::left_options(cs).contains(left_moves@[k].state()));
                }
            }
            assert forall|v: int| node.right.contains(v) == built.right.contains(v) by {
                if node.right.contains(v) {
                    let m = choose|m: G::State| #[trigger]
                        G::right_options(cs).contains(m) && w.contains_key(G::normal(m)) && w[G::normal(
                            m,
                        )] == v;
                    let k = choose|k: int|
                        0 <= k < right_moves@.len() && (#[trigger] right_moves@[k]).state() == m;
                    assert(s2.grids().contains_key(G::normal(right_moves@[k].state())));
                    assert(moves.right@[k].id == v);
                }
                if built.right.contains(v) {
                    let k = choose|k: int| 0 <= k < moves.right@.len() && moves.right@[k].id == v;
                    assert(s2.grids().contains_key(G::normal(right_moves@[k].state())));
                    assert(G::right_options(cs).contains(right_moves@[k].state()));
                }
            }
            assert(node.left =~= built.left && node.right =~= built.right);
            assert(node == built);
        }
        let ghost u0 = self.games@;
        let ghost t0 = self.games.sums();
        let g = self.games.construct_from_moves(moves);
        proof {
            lemma_position_values_grow::<G>(
                u0,
                t0,
                self.whole@,
                self.part@,
                self.games@,
                self.games.sums(),
            );
            lemma_position_values_part::<G>(
                self.games@,
                self.games.sums(),
                self.whole@,
                self.part@,
                c.state(),
                g.id as int,
            );
        }
        self.part.insert(c.duplicate(), g.id);
        proof {
            self.games().lemma_grows_transitive(&s2.games(), &start.games());
        }
        g
    }

    /// The canonical form of the position `pos`.
    ///
    /// The position is brought into its normal shape, under which the table
    /// keeps it. Its form is the integer that the rules of the game tell, or
    /// else the sum of the forms of its parts, each of which is the game whose
    /// options are the forms of the positions that the players can move to.
    pub fn canonical_form(&mut self, pos: &G) -> (r: Game)
        requires
            old(self).wf(),
            G::valid(pos.state()),
        ensures
            final(self).wf(),
            final(self).grows_from(old(self)),
            final(self).games().has(r),
            final(self).grids().contains_key(G::normal(pos.state())),
            final(self).grids()[G::normal(pos.state())] == r.id,
        decreases G::rank(pos.state()), 2int,
    {
        let ghost start = *self;
        proof {
            start.games().lemma_grows_reflexive(&start.games());
        }
        let g = pos.normalized();
        if let Some(v) = self.whole.get(&g) {
            assert(whole_value::<G>(self.games@, self.games.sums(), self.part@, g.state(), v as int));
            return Game { id: v };
        }
        if let Some(n) = g.reductions() {
            let ghost u0 = self.games@;
            let ghost t0 = self.games.sums();
            let v = self.games.construct_integer(n);
            proof {
                lemma_position_values_grow::<G>(
                    u0,
                    t0,
                    self.whole@,
                    self.part@,
                    self.games@,
                    self.games.sums(),
                );
                lemma_position_values_whole::<G>(
                    self.games@,
                    self.games.sums(),
                    self.whole@,
                    self.part@,
                    g.state(),
                    v.id as int,
                );
            }
            self.whole.insert(g, v.id);
            return v;
        }
        let parts = g.decompositions();
        proof {
            assert(states_of(parts@) =~= G::components(g.state()));
        }
        let ghost u0 = self.games@;
        let ghost t0 = self.games.sums();
        let zero = self.games.construct_integer(0);
        proof {
            lemma_position_values_grow::<G>(
                u0,
                t0,
                self.whole@,
                self.part@,
                self.games@,
                self.games.sums(),
            );
        }
        let ghost s0 = *self;
        proof {
            s0.games().lemma_grows_reflexive(&s0.games());
        }
        let mut result = zero;
        let mut k: usize = 0;
        while k < parts.len()
            invariant
                self.wf(),
                self.grows_from(&s0),
                s0.grows_from(&start),
                G::valid(g.state()),
                G::rank(g.state()) <= G::rank(pos.state()),
                states_of(parts@) =~= G::components(g.state()),
                forall|j: int|
                    0 <= j < parts@.len() ==> G::valid((#[trigger] parts@[j]).state()) && G::rank(
                        parts@[j].state(),
                    ) <= G::rank(g.state()),
                k <= parts@.len(),
                self.games().has(result),
                self.games().has(zero),
                is_integer(self.games()@, zero.id as int, 0),
                sum_of_parts::<G>(
                    self.games().sums(),
                    self.parts(),
                    states_of(parts@),
                    k as int,
                    zero.id as int,
                ) == Some(result.id as int),
            decreases parts@.len() - k,
        {
            let ghost middle = *self;
            let v = self.part_form(&parts[k]);
            let ghost after_part = *self;
            let ghost u1 = self.games@;
            let ghost t1 = self.games.sums();
            proof {
                assert(after_part.games().has(result));
            }
            let next = self.games.construct_sum(v, result);
            proof {
                lemma_position_values_grow::<G>(
                    u1,
                    t1,
                    self.whole@,
                    self.part@,
                    self.games@,
                    self.games.sums(),
                );
                self.lemma_grows_transitive(&after_part, &middle);
                self.lemma_grows_transitive(&middle, &s0);
                lemma_integer_prefix(middle.games()@, self.games()@, zero.id as int, 0);
                lemma_sum_of_parts_stable::<G>(
                    middle.games().sums(),
                    self.games().sums(),
                    middle.parts(),
                    self.parts(),
                    states_of(parts@),
                    k as int,
                    zero.id as int,
                );
                assert(states_of(parts@)[k as int] == parts@[k as int].state());
                assert(self.parts().contains_key(parts@[k as int].state()));
                assert(is_sum_at(self.games().sums(), v.id as int, result.id as int, next.id as int));
            }
            result = next;
            k += 1;
        }
        proof {
            self.lemma_grows_transitive(&s0, &start);
        }
        if let Some(v) = self.whole.get(&g) {
            assert(whole_value::<G>(self.games@, self.games.sums(), self.part@, g.state(), v as int));
            return Game { id: v };
        }
        proof {
            assert(states_of(parts@).len() == parts@.len());
            assert(sum_value::<G>(
                self.games@,
                self.games.sums(),
                self.part@,
                g.state(),
                result.id as int,
            ));
            lemma_position_values_whole::<G>(
                self.games@,
                self.games.sums(),
                self.whole@,
                self.part@,
                g.state(),
                result.id as int,
            );
        }
        self.whole.insert(g, result.id);
        result
    }
}

} // verus!
