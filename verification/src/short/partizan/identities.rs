//! What holds of negation and sum in every table of canonical forms: the
//! negative of the negative of a game is the game, zero added to a game
//! leaves the game, a game and its negative add up to zero, and a sum does
//! not depend on the order of its terms.

use crate::short::partizan::algebra::{
    is_sum_at, negation_map, option_sums, pair, sum_map, sum_node, sums_of_options_known,
    lemma_sum_node_below,
};
use crate::short::partizan::universe::{
    canonical_table, form_equals, is_prefix, leq, lemma_canonical_unique, lemma_form_equals_entry,
    lemma_leq_prefix, lemma_leq_reflexive, lemma_leq_transitive, options_below, same_options, Node,
};
use vstd::prelude::*;

verus! {

/// The game at `z` is zero: it has no options.
pub open spec fn is_zero(u: Seq<Node>, z: int) -> bool {
    &&& 0 <= z < u.len()
    &&& u[z].left =~= Set::<int>::empty()
    &&& u[z].right =~= Set::<int>::empty()
}

/// The negative of the negative of a game is the game itself.
pub proof fn lemma_negation_involution(u: Seq<Node>, m: Map<int, int>, a: int)
    requires
        negation_map(u, m),
        m.contains_key(a),
    ensures
        m.contains_key(m[a]),
        m[m[a]] == a,
{
}

/// The sum of two games does not depend on their order: what the map of
/// sums has for `a` and `b` it has for `b` and `a`.
pub proof fn lemma_sum_commutative(t: Map<(int, int), int>, a: int, b: int, c: int)
    ensures
        is_sum_at(t, a, b, c) == is_sum_at(t, b, a, c),
{
    assert(pair(a, b) == pair(b, a));
}

/// The game of the option sums does not depend on the order of the terms.
proof fn lemma_sum_node_symmetric(u: Seq<Node>, t: Map<(int, int), int>, a: int, b: int)
    ensures
        sum_node(u, t, a, b) == sum_node(u, t, b, a),
        sums_of_options_known(u, t, a, b) == sums_of_options_known(u, t, b, a),
{
    assert forall|x: int, y: int| pair(x, y) == #[trigger] pair(y, x) by {}
    let g = sum_node(u, t, a, b);
    let h = sum_node(u, t, b, a);
    assert forall|s: int| g.left.contains(s) == h.left.contains(s) by {
        lemma_option_sums_symmetric(t, a, b, u[a].left, u[b].left, s);
    }
    assert forall|s: int| g.right.contains(s) == h.right.contains(s) by {
        lemma_option_sums_symmetric(t, a, b, u[a].right, u[b].right, s);
    }
    assert(g.left =~= h.left);
    assert(g.right =~= h.right);
    if sums_of_options_known(u, t, a, b) {
        assert forall|l: int| #[trigger] u[b].left.contains(l) implies t.contains_key(pair(l, a)) by {
            assert(pair(l, a) == pair(a, l));
        }
        assert forall|l: int| #[trigger] u[a].left.contains(l) implies t.contains_key(pair(b, l)) by {
            assert(pair(l, b) == pair(b, l));
        }
        assert forall|l: int| #[trigger] u[b].right.contains(l) implies t.contains_key(pair(l, a)) by {
            assert(pair(l, a) == pair(a, l));
        }
        assert forall|l: int| #[trigger] u[a].right.contains(l) implies t.contains_key(pair(b, l)) by {
            assert(pair(l, b) == pair(b, l));
        }
    }
    if sums_of_options_known(u, t, b, a) {
        assert forall|l: int| #[trigger] u[a].left.contains(l) implies t.contains_key(pair(l, b)) by {
            assert(pair(l, b) == pair(b, l));
        }
        assert forall|l: int| #[trigger] u[b].left.contains(l) implies t.contains_key(pair(a, l)) by {
            assert(pair(l, a) == pair(a, l));
        }
        assert forall|l: int| #[trigger] u[a].right.contains(l) implies t.contains_key(pair(l, b)) by {
            assert(pair(l, b) == pair(b, l));
        }
        assert forall|l: int| #[trigger] u[b].right.contains(l) implies t.contains_key(pair(a, l)) by {
            assert(pair(l, a) == pair(a, l));
        }
    }
}

proof fn lemma_option_sums_symmetric(
    t: Map<(int, int), int>,
    a: int,
    b: int,
    src_a: Set<int>,
    src_b: Set<int>,
    s: int,
)
    ensures
        option_sums(t, a, b, src_a, src_b).contains(s) == option_sums(t, b, a, src_b, src_a).contains(
            s,
        ),
{
    if option_sums(t, a, b, src_a, src_b).contains(s) {
        if exists|l: int| #[trigger]
            src_a.contains(l) && t.contains_key(pair(l, b)) && t[pair(l, b)] == s {
            let l = choose|l: int| #[trigger]
                src_a.contains(l) && t.contains_key(pair(l, b)) && t[pair(l, b)] == s;
            assert(pair(l, b) == pair(b, l));
            assert(src_a.contains(l) && t.contains_key(pair(b, l)) && t[pair(b, l)] == s);
        } else {
            let l = choose|l: int| #[trigger]
                src_b.contains(l) && t.contains_key(pair(a, l)) && t[pair(a, l)] == s;
            assert(pair(l, a) == pair(a, l));
            assert(src_b.contains(l) && t.contains_key(pair(l, a)) && t[pair(l, a)] == s);
        }
    }
    if option_sums(t, b, a, src_b, src_a).contains(s) {
        if exists|l: int| #[trigger]
            src_b.contains(l) && t.contains_key(pair(l, a)) && t[pair(l, a)] == s {
            let l = choose|l: int| #[trigger]
                src_b.contains(l) && t.contains_key(pair(l, a)) && t[pair(l, a)] == s;
            assert(pair(l, a) == pair(a, l));
            assert(src_b.contains(l) && t.contains_key(pair(a, l)) && t[pair(a, l)] == s);
        } else {
            let l = choose|l: int| #[trigger]
                src_a.contains(l) && t.contains_key(pair(b, l)) && t[pair(b, l)] == s;
            assert(pair(l, b) == pair(b, l));
            assert(src_a.contains(l) && t.contains_key(pair(l, b)) && t[pair(l, b)] == s);
        }
    }
}

/// What a map of sums says of a sum that it knows, in whatever order the
/// terms are given: the sum has the value of the game of the option sums,
/// and those are known.
pub proof fn lemma_sum_entry(u: Seq<Node>, t: Map<(int, int), int>, a: int, b: int)
    requires
        sum_map(u, t),
        t.contains_key(pair(a, b)),
    ensures
        0 <= a < u.len(),
        0 <= b < u.len(),
        0 <= t[pair(a, b)] < u.len(),
        sums_of_options_known(u, t, a, b),
        form_equals(u, sum_node(u, t, a, b), t[pair(a, b)]),
        options_below(sum_node(u, t, a, b), u.len() as int),
{
    let key = pair(a, b);
    assert(t.contains_key((key.0, key.1)));
    lemma_sum_node_symmetric(u, t, a, b);
    lemma_sum_node_below(u, t, a, b);
}

/// Two games of the table with the value of one game are one game.
pub proof fn lemma_one_form(u: Seq<Node>, g: Node, c: int, d: int)
    requires
        canonical_table(u),
        0 <= c < u.len(),
        0 <= d < u.len(),
        form_equals(u, g, c),
        form_equals(u, g, d),
    ensures
        c == d,
{
    let w = u.push(g);
    let n = u.len() as int;
    lemma_leq_transitive(w, c, n, d);
    lemma_leq_transitive(w, d, n, c);
    assert(is_prefix(u, w));
    lemma_leq_prefix(u, w, c, d);
    lemma_leq_prefix(u, w, d, c);
    lemma_canonical_unique(u, c, d);
}

/// Zero added to a game leaves the game.
pub proof fn lemma_sum_with_zero(u: Seq<Node>, t: Map<(int, int), int>, a: int, z: int)
    requires
        canonical_table(u),
        sum_map(u, t),
        is_zero(u, z),
        t.contains_key(pair(a, z)),
    ensures
        t[pair(a, z)] == a,
    decreases a,
{
    lemma_sum_entry(u, t, a, z);
    let g = sum_node(u, t, a, z);
    assert forall|s: int| g.left.contains(s) == u[a].left.contains(s) by {
        if g.left.contains(s) {
            let l = choose|l: int| #[trigger]
                u[a].left.contains(l) && t.contains_key(pair(l, z)) && t[pair(l, z)] == s;
            lemma_sum_with_zero(u, t, l, z);
        }
        if u[a].left.contains(s) {
            assert(t.contains_key(pair(s, z)));
            lemma_sum_with_zero(u, t, s, z);
        }
    }
    assert forall|s: int| g.right.contains(s) == u[a].right.contains(s) by {
        if g.right.contains(s) {
            let l = choose|l: int| #[trigger]
                u[a].right.contains(l) && t.contains_key(pair(l, z)) && t[pair(l, z)] == s;
            lemma_sum_with_zero(u, t, l, z);
        }
        if u[a].right.contains(s) {
            assert(t.contains_key(pair(s, z)));
            lemma_sum_with_zero(u, t, s, z);
        }
    }
    assert(same_options(u[a], g));
    lemma_form_equals_entry(u, g, a);
    lemma_one_form(u, g, t[pair(a, z)], a);
}

/// A sum that has zero among its right options is not at least zero, and
/// one that has zero among its left options is not at most zero.
proof fn lemma_sum_beside_zero(u: Seq<Node>, t: Map<(int, int), int>, a: int, b: int, z: int)
    requires
        canonical_table(u),
        sum_map(u, t),
        is_zero(u, z),
        t.contains_key(pair(a, b)),
    ensures
        sum_node(u, t, a, b).right.contains(z) ==> !leq(u, z, t[pair(a, b)]),
        sum_node(u, t, a, b).left.contains(z) ==> !leq(u, t[pair(a, b)], z),
{
    lemma_sum_entry(u, t, a, b);
    let g = sum_node(u, t, a, b);
    let w = u.push(g);
    let n = u.len() as int;
    let s = t[pair(a, b)];
    assert(is_prefix(u, w));
    lemma_leq_reflexive(w, z);
    lemma_leq_prefix(u, w, z, s);
    lemma_leq_prefix(u, w, s, z);
    if g.right.contains(z) {
        assert(w[n].right.contains(z));
        assert(!leq(w, z, n));
        if leq(u, z, s) {
            lemma_leq_transitive(w, z, s, n);
        }
    }
    if g.left.contains(z) {
        assert(w[n].left.contains(z));
        assert(!leq(w, n, z));
        if leq(u, s, z) {
            lemma_leq_transitive(w, n, s, z);
        }
    }
}

/// A game and its negative add up to zero.
pub proof fn lemma_sum_with_negative(
    u: Seq<Node>,
    m: Map<int, int>,
    t: Map<(int, int), int>,
    a: int,
    z: int,
)
    requires
        canonical_table(u),
        negation_map(u, m),
        sum_map(u, t),
        is_zero(u, z),
        m.contains_key(a),
        t.contains_key(pair(a, m[a])),
    ensures
        t[pair(a, m[a])] == z,
    decreases a + m[a], 1int,
{
    let b = m[a];
    assert(m.contains_key(b) && m[b] == a);
    lemma_sum_entry(u, t, a, b);
    let g = sum_node(u, t, a, b);
    let w = u.push(g);
    let n = u.len() as int;
    assert(is_prefix(u, w));
    // No left option of the sum is at least zero.
    assert forall|s: int| #[trigger] g.left.contains(s) implies !leq(w, z, s) by {
        if exists|l: int| #[trigger]
            u[a].left.contains(l) && t.contains_key(pair(l, b)) && t[pair(l, b)] == s {
            let l = choose|l: int| #[trigger]
                u[a].left.contains(l) && t.contains_key(pair(l, b)) && t[pair(l, b)] == s;
            lemma_option_answered(u, m, t, a, l, z, true);
        } else {
            let l = choose|l: int| #[trigger]
                u[b].left.contains(l) && t.contains_key(pair(a, l)) && t[pair(a, l)] == s;
            assert(pair(a, l) == pair(l, a));
            lemma_option_answered(u, m, t, b, l, z, true);
        }
        lemma_sum_node_below(u, t, a, b);
        lemma_leq_prefix(u, w, z, s);
    }
    // No right option of the sum is at most zero.
    assert forall|s: int| #[trigger] g.right.contains(s) implies !leq(w, s, z) by {
        if exists|l: int| #[trigger]
            u[a].right.contains(l) && t.contains_key(pair(l, b)) && t[pair(l, b)] == s {
            let l = choose|l: int| #[trigger]
                u[a].right.contains(l) && t.contains_key(pair(l, b)) && t[pair(l, b)] == s;
            lemma_option_answered(u, m, t, a, l, z, false);
        } else {
            let l = choose|l: int| #[trigger]
                u[b].right.contains(l) && t.contains_key(pair(a, l)) && t[pair(a, l)] == s;
            assert(pair(a, l) == pair(l, a));
            lemma_option_answered(u, m, t, b, l, z, false);
        }
        lemma_sum_node_below(u, t, a, b);
        lemma_leq_prefix(u, w, s, z);
    }
    assert(w[n] == g);
    assert(w[z] == u[z]);
    assert(leq(w, n, z));
    assert(leq(w, z, n));
    lemma_one_form(u, g, t[pair(a, b)], z);
}

/// A move in the sum of a game and its negative is answered by the
/// negative of the move in the other term, which leaves zero: after a left
/// option `l` of `a` (`left`) the sum is not at least zero, after a right
/// option not at most zero.
proof fn lemma_option_answered(
    u: Seq<Node>,
    m: Map<int, int>,
    t: Map<(int, int), int>,
    a: int,
    l: int,
    z: int,
    left: bool,
)
    requires
        canonical_table(u),
        negation_map(u, m),
        sum_map(u, t),
        is_zero(u, z),
        m.contains_key(a),
        if left {
            u[a].left.contains(l)
        } else {
            u[a].right.contains(l)
        },
        t.contains_key(pair(l, m[a])),
    ensures
        left ==> !leq(u, z, t[pair(l, m[a])]),
        !left ==> !leq(u, t[pair(l, m[a])], z),
    decreases a + m[a], 0int,
{
    let b = m[a];
    assert(m.contains_key(b) && m[b] == a);
    assert(0 <= l < a);
    lemma_sum_entry(u, t, l, b);
    let g = sum_node(u, t, l, b);
    if left {
        assert(m.contains_key(l) && u[b].right.contains(m[l]));
        assert(0 <= m[l] < b);
        assert(t.contains_key(pair(l, m[l])));
        lemma_sum_with_negative(u, m, t, l, z);
        assert(u[b].right.contains(m[l]) && t.contains_key(pair(l, m[l])) && t[pair(l, m[l])] == z);
        assert(g.right.contains(z));
    } else {
        assert(m.contains_key(l) && u[b].left.contains(m[l]));
        assert(0 <= m[l] < b);
        assert(t.contains_key(pair(l, m[l])));
        lemma_sum_with_negative(u, m, t, l, z);
        assert(u[b].left.contains(m[l]) && t.contains_key(pair(l, m[l])) && t[pair(l, m[l])] == z);
        assert(g.left.contains(z));
    }
    lemma_sum_beside_zero(u, t, l, b, z);
}

} // verus!
