//! What a game with positions has to offer for its canonical forms to be
//! found, and what the table of positions holds of them.

use crate::short::partizan::algebra::pair;
use crate::short::partizan::universe::{
    form_equals, is_integer, is_prefix, lemma_form_equals_prefix, lemma_integer_prefix,
    options_below, Node,
};
use vstd::prelude::*;

verus! {

/// The members of a list.
pub open spec fn members<G>(s: Seq<G>) -> Set<G> {
    Set::new(|p: G| exists|k: int| 0 <= k < s.len() && s[k] == p)
}

/// The states of the positions of a list, in order.
pub open spec fn states_of<G: PartizanGame>(s: Seq<G>) -> Seq<G::State> {
    Seq::new(s.len(), |i: int| s[i].state())
}

/// A game played from positions, in which Left and Right have their own
/// moves and a position may fall into parts that are played side by side.
///
/// The rules of the game are stated over the states of positions: what a
/// position is, apart from how it is kept.
pub trait PartizanGame: Sized {
    /// What a position is.
    type State;

    /// What this position is.
    spec fn state(&self) -> Self::State;

    /// The state is one of the game.
    spec fn valid(s: Self::State) -> bool;

    /// A bound on the number of moves that can still be made.
    spec fn rank(s: Self::State) -> nat;

    /// The position brought into its normal shape, under which it is kept.
    spec fn normal(s: Self::State) -> Self::State;

    /// The positions that Left can move to.
    spec fn left_options(s: Self::State) -> Set<Self::State>;

    /// The positions that Right can move to.
    spec fn right_options(s: Self::State) -> Set<Self::State>;

    /// The parts into which the position falls, whose sum it is.
    spec fn components(s: Self::State) -> Seq<Self::State>;

    /// The integer that the position is known to be worth by the rules of
    /// the game, if they tell.
    spec fn reduced(s: Self::State) -> Option<int>;

    /// The number under which the position is filed.
    spec fn fingerprint_spec(s: Self::State) -> u64;

    /// The position in its normal shape.
    fn normalized(&self) -> (r: Self)
        requires
            Self::valid(self.state()),
        ensures
            r.state() == Self::normal(self.state()),
            Self::valid(r.state()),
            Self::rank(r.state()) <= Self::rank(self.state()),
    ;

    /// The positions that Left can move to, each of lower rank.
    fn left_moves(&self) -> (moves: Vec<Self>)
        requires
            Self::valid(self.state()),
        ensures
            forall|s: Self::State|
                Self::left_options(self.state()).contains(s) <==> exists|k: int|
                    0 <= k < moves@.len() && (#[trigger] moves@[k]).state() == s,
            forall|k: int|
                0 <= k < moves@.len() ==> Self::valid((#[trigger] moves@[k]).state()) && Self::rank(
                    moves@[k].state(),
                ) < Self::rank(self.state()),
    ;

    /// The positions that Right can move to, each of lower rank.
    fn right_moves(&self) -> (moves: Vec<Self>)
        requires
            Self::valid(self.state()),
        ensures
            forall|s: Self::State|
                Self::right_options(self.state()).contains(s) <==> exists|k: int|
                    0 <= k < moves@.len() && (#[trigger] moves@[k]).state() == s,
            forall|k: int|
                0 <= k < moves@.len() ==> Self::valid((#[trigger] moves@[k]).state()) && Self::rank(
                    moves@[k].state(),
                ) < Self::rank(self.state()),
    ;

    /// The parts into which the position falls, none of higher rank.
    fn decompositions(&self) -> (parts: Vec<Self>)
        requires
            Self::valid(self.state()),
        ensures
            parts@.len() == Self::components(self.state()).len(),
            forall|k: int|
                0 <= k < parts@.len() ==> (#[trigger] parts@[k]).state() == Self::components(
                    self.state(),
                )[k],
            forall|k: int|
                0 <= k < parts@.len() ==> Self::valid((#[trigger] parts@[k]).state()) && Self::rank(
                    parts@[k].state(),
                ) <= Self::rank(self.state()),
    ;

    /// The integer that the position is worth by the rules of the game, if
    /// they tell.
    fn reductions(&self) -> (r: Option<i64>)
        requires
            Self::valid(self.state()),
        ensures
            match r {
                Some(n) => Self::reduced(self.state()) == Some(n as int),
                None => Self::reduced(self.state()) is None,
            },
    ;

    /// The number under which the position is filed.
    fn fingerprint(&self) -> (r: u64)
        ensures
            r == Self::fingerprint_spec(self.state()),
    ;

    /// Whether the two positions are the same.
    fn same_as(&self, other: &Self) -> (r: bool)
        ensures
            r == (self.state() == other.state()),
    ;

    /// A copy of the position.
    fn duplicate(&self) -> (r: Self)
        ensures
            r.state() == self.state(),
    ;
}

/// The values that `whole` has for the positions of `options`, each taken in
/// its normal shape.
pub open spec fn option_values<G: PartizanGame>(whole: Map<G::State, int>, options: Set<G::State>) -> Set<int> {
    Set::new(
        |v: int|
            exists|m: G::State| #[trigger]
                options.contains(m) && whole.contains_key(G::normal(m)) && whole[G::normal(m)] == v,
    )
}

/// `whole` has a value for every position of `options`.
pub open spec fn options_known<G: PartizanGame>(whole: Map<G::State, int>, options: Set<G::State>) -> bool {
    forall|m: G::State| #[trigger] options.contains(m) ==> whole.contains_key(G::normal(m))
}

/// The game whose options are the values of the options of `c`.
pub open spec fn node_of<G: PartizanGame>(whole: Map<G::State, int>, c: G::State) -> Node {
    Node {
        left: option_values::<G>(whole, G::left_options(c)),
        right: option_values::<G>(whole, G::right_options(c)),
    }
}

/// `v` is the value of the part `c`: the game of the table `u` that has the
/// value of the game whose options are the values of the options of `c`.
pub open spec fn part_value<G: PartizanGame>(u: Seq<Node>, whole: Map<G::State, int>, c: G::State, v: int) -> bool {
    &&& 0 <= v < u.len()
    &&& options_known::<G>(whole, G::left_options(c))
    &&& options_known::<G>(whole, G::right_options(c))
    &&& form_equals(u, node_of::<G>(whole, c), v)
}

/// The sum of the values of the first `k` positions of `parts`, taken from
/// the map of sums `t` and added one by one to `zero`.
pub open spec fn sum_of_parts<G: PartizanGame>(
    t: Map<(int, int), int>,
    part: Map<G::State, int>,
    parts: Seq<G::State>,
    k: int,
    zero: int,
) -> Option<int>
    decreases k,
{
    if k <= 0 {
        Some(zero)
    } else if k > parts.len() {
        None
    } else {
        match sum_of_parts::<G>(t, part, parts, k - 1, zero) {
            Some(s) => if part.contains_key(parts[k - 1]) && t.contains_key(
                pair(part[parts[k - 1]], s),
            ) {
                Some(t[pair(part[parts[k - 1]], s)])
            } else {
                None
            },
            None => None,
        }
    }
}

/// `v` is the value of the position `g` as the sum of its parts.
pub open spec fn sum_value<G: PartizanGame>(
    u: Seq<Node>,
    t: Map<(int, int), int>,
    part: Map<G::State, int>,
    g: G::State,
    v: int,
) -> bool {
    exists|zero: int| #[trigger]
        is_integer(u, zero, 0) && sum_of_parts::<G>(
            t,
            part,
            G::components(g),
            G::components(g).len() as int,
            zero,
        ) == Some(v)
}

/// `v` is the value of the whole position `g`: the integer that the rules
/// tell, or the sum of the values of its parts.
pub open spec fn whole_value<G: PartizanGame>(
    u: Seq<Node>,
    t: Map<(int, int), int>,
    part: Map<G::State, int>,
    g: G::State,
    v: int,
) -> bool {
    &&& 0 <= v < u.len()
    &&& match G::reduced(g) {
        Some(n) => is_integer(u, v, n),
        None => sum_value::<G>(u, t, part, g, v),
    }
}

/// The maps `whole` and `part` hold values of positions: every position of
/// `whole` has the integer that the rules tell or the sum of the values of
/// its parts, and every position of `part` has the value of the game made of
/// the values of its options.
pub open spec fn position_values<G: PartizanGame>(
    u: Seq<Node>,
    t: Map<(int, int), int>,
    whole: Map<G::State, int>,
    part: Map<G::State, int>,
) -> bool {
    &&& forall|g: G::State| #[trigger] whole.contains_key(g) ==> whole_value::<G>(u, t, part, g, whole[g])
    &&& forall|c: G::State| #[trigger] part.contains_key(c) ==> part_value::<G>(u, whole, c, part[c])
}

/// A sum of parts stays what it is when the maps know more.
pub proof fn lemma_sum_of_parts_stable<G: PartizanGame>(
    t: Map<(int, int), int>,
    t2: Map<(int, int), int>,
    part: Map<G::State, int>,
    part2: Map<G::State, int>,
    parts: Seq<G::State>,
    k: int,
    zero: int,
)
    requires
        t.submap_of(t2),
        part.submap_of(part2),
        sum_of_parts::<G>(t, part, parts, k, zero) is Some,
    ensures
        sum_of_parts::<G>(t2, part2, parts, k, zero) == sum_of_parts::<G>(t, part, parts, k, zero),
    decreases k,
{
    if k > 0 {
        lemma_sum_of_parts_stable::<G>(t, t2, part, part2, parts, k - 1, zero);
        let s = sum_of_parts::<G>(t, part, parts, k - 1, zero)->0;
        assert(part.contains_key(parts[k - 1]));
        assert(t.contains_key(pair(part[parts[k - 1]], s)));
    }
}

/// The values of the options stay what they are when the map knows more.
pub proof fn lemma_option_values_stable<G: PartizanGame>(
    whole: Map<G::State, int>,
    whole2: Map<G::State, int>,
    options: Set<G::State>,
)
    requires
        whole.submap_of(whole2),
        options_known::<G>(whole, options),
    ensures
        option_values::<G>(whole2, options) =~= option_values::<G>(whole, options),
        options_known::<G>(whole2, options),
{
    assert forall|v: int| option_values::<G>(whole2, options).contains(v) == option_values::<G>(
        whole,
        options,
    ).contains(v) by {
        if option_values::<G>(whole2, options).contains(v) {
            let m = choose|m: G::State| #[trigger]
                options.contains(m) && whole2.contains_key(G::normal(m)) && whole2[G::normal(m)] == v;
            assert(options.contains(m) && whole.contains_key(G::normal(m)) && whole[G::normal(m)] == v);
        }
        if option_values::<G>(whole, options).contains(v) {
            let m = choose|m: G::State| #[trigger]
                options.contains(m) && whole.contains_key(G::normal(m)) && whole[G::normal(m)] == v;
            assert(options.contains(m) && whole2.contains_key(G::normal(m)) && whole2[G::normal(m)] == v);
        }
    }
    assert forall|m: G::State| #[trigger] options.contains(m) implies whole2.contains_key(G::normal(m)) by {
        assert(whole.contains_key(G::normal(m)));
    }
}

/// The values of the options of a position are games of the table.
pub proof fn lemma_node_below<G: PartizanGame>(
    u: Seq<Node>,
    t: Map<(int, int), int>,
    whole: Map<G::State, int>,
    part: Map<G::State, int>,
    c: G::State,
)
    requires
        position_values::<G>(u, t, whole, part),
    ensures
        options_below(node_of::<G>(whole, c), u.len() as int),
{
    let g = node_of::<G>(whole, c);
    assert forall|v: int| #[trigger] g.left.contains(v) implies 0 <= v < u.len() by {
        let m = choose|m: G::State| #[trigger]
            G::left_options(c).contains(m) && whole.contains_key(G::normal(m)) && whole[G::normal(m)] == v;
        assert(whole_value::<G>(u, t, part, G::normal(m), whole[G::normal(m)]));
    }
    assert forall|v: int| #[trigger] g.right.contains(v) implies 0 <= v < u.len() by {
        let m = choose|m: G::State| #[trigger]
            G::right_options(c).contains(m) && whole.contains_key(G::normal(m)) && whole[G::normal(m)] == v;
        assert(whole_value::<G>(u, t, part, G::normal(m), whole[G::normal(m)]));
    }
}

/// The maps of positions hold values still when the table of games has
/// grown and all maps know more.
pub proof fn lemma_position_values_grow<G: PartizanGame>(
    u: Seq<Node>,
    t: Map<(int, int), int>,
    whole: Map<G::State, int>,
    part: Map<G::State, int>,
    u2: Seq<Node>,
    t2: Map<(int, int), int>,
)
    requires
        position_values::<G>(u, t, whole, part),
        is_prefix(u, u2),
        t.submap_of(t2),
    ensures
        position_values::<G>(u2, t2, whole, part),
{
    assert forall|g: G::State| #[trigger] whole.contains_key(g) implies whole_value::<G>(
        u2,
        t2,
        part,
        g,
        whole[g],
    ) by {
        let v = whole[g];
        assert(whole_value::<G>(u, t, part, g, v));
        if G::reduced(g) matches Some(n) && is_integer(u, v, n) {
            lemma_integer_prefix(u, u2, v, G::reduced(g)->0);
        } else {
            let zero = choose|zero: int| #[trigger]
                is_integer(u, zero, 0) && sum_of_parts::<G>(
                    t,
                    part,
                    G::components(g),
                    G::components(g).len() as int,
                    zero,
                ) == Some(v);
            lemma_integer_prefix(u, u2, zero, 0);
            lemma_sum_of_parts_stable::<G>(
                t,
                t2,
                part,
                part,
                G::components(g),
                G::components(g).len() as int,
                zero,
            );
        }
    }
    assert forall|c: G::State| #[trigger] part.contains_key(c) implies part_value::<G>(u2, whole, c, part[c]) by {
        assert(part_value::<G>(u, whole, c, part[c]));
        lemma_node_below::<G>(u, t, whole, part, c);
        lemma_form_equals_prefix(u, u2, node_of::<G>(whole, c), part[c]);
    }
}

/// The maps of positions hold values still when the map of whole positions
/// takes in a position with its value.
pub proof fn lemma_position_values_whole<G: PartizanGame>(
    u: Seq<Node>,
    t: Map<(int, int), int>,
    whole: Map<G::State, int>,
    part: Map<G::State, int>,
    g: G::State,
    v: int,
)
    requires
        position_values::<G>(u, t, whole, part),
        !whole.contains_key(g),
        whole_value::<G>(u, t, part, g, v),
    ensures
        position_values::<G>(u, t, whole.insert(g, v), part),
{
    let whole2 = whole.insert(g, v);
    assert forall|c: G::State| #[trigger] part.contains_key(c) implies part_value::<G>(u, whole2, c, part[c]) by {
        assert(part_value::<G>(u, whole, c, part[c]));
        lemma_option_values_stable::<G>(whole, whole2, G::left_options(c));
        lemma_option_values_stable::<G>(whole, whole2, G::right_options(c));
        assert(node_of::<G>(whole2, c) == node_of::<G>(whole, c));
    }
}

/// The maps of positions hold values still when the map of parts takes in a
/// part with its value.
pub proof fn lemma_position_values_part<G: PartizanGame>(
    u: Seq<Node>,
    t: Map<(int, int), int>,
    whole: Map<G::State, int>,
    part: Map<G::State, int>,
    c: G::State,
    v: int,
)
    requires
        position_values::<G>(u, t, whole, part),
        !part.contains_key(c),
        part_value::<G>(u, whole, c, v),
    ensures
        position_values::<G>(u, t, whole, part.insert(c, v)),
{
    let part2 = part.insert(c, v);
    assert forall|g: G::State| #[trigger] whole.contains_key(g) implies whole_value::<G>(
        u,
        t,
        part2,
        g,
        whole[g],
    ) by {
        let w = whole[g];
        assert(whole_value::<G>(u, t, part, g, w));
        if !(G::reduced(g) matches Some(n) && is_integer(u, w, n)) {
            let zero = choose|zero: int| #[trigger]
                is_integer(u, zero, 0) && sum_of_parts::<G>(
                    t,
                    part,
                    G::components(g),
                    G::components(g).len() as int,
                    zero,
                ) == Some(w);
            lemma_sum_of_parts_stable::<G>(
                t,
                t,
                part,
                part2,
                G::components(g),
                G::components(g).len() as int,
                zero,
            );
        }
    }
}

} // verus!
