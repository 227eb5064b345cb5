//! Negation and sum of the games of a table, as maps that the table keeps.
//!
//! The negative of a game has the negatives of its right options as left
//! options and the negatives of its left options as right options. The sum of
//! two games has as left options the sums of a left option of one with the
//! other, and as right options those of the right options; in a table of
//! canonical forms it is the game of the table with that value.

use crate::short::partizan::universe::{
    canonical_at, canonical_table, closed, form_equals, is_prefix, leq, lemma_form_equals_prefix,
    lemma_leq_prefix, no_dominated, no_reversible, options_below, same_options, Node,
};
use crate::short::partizan::id_list::places;
use vstd::prelude::*;

verus! {

/// `m` maps games of the table `u` to their negatives: it is its own
/// inverse, it knows the negative of every option of a game whose negative it
/// knows, and the negative of a game has the negatives of the game's left
/// options as right options and those of its right options as left options.
pub open spec fn negation_map(u: Seq<Node>, m: Map<int, int>) -> bool {
    &&& forall|a: int| #[trigger]
        m.contains_key(a) ==> 0 <= a < u.len() && 0 <= m[a] < u.len() && m.contains_key(m[a])
            && m[m[a]] == a
    &&& forall|a: int, x: int|
        m.contains_key(a) && #[trigger] u[a].left.contains(x) ==> m.contains_key(x)
            && u[m[a]].right.contains(m[x])
    &&& forall|a: int, x: int|
        m.contains_key(a) && #[trigger] u[a].right.contains(x) ==> m.contains_key(x)
            && u[m[a]].left.contains(m[x])
}

/// Negation turns the order round: `a` is at most `b` exactly when the
/// negative of `b` is at most the negative of `a`.
pub proof fn lemma_leq_mirror(u: Seq<Node>, m: Map<int, int>, a: int, b: int)
    requires
        closed(u),
        negation_map(u, m),
        m.contains_key(a),
        m.contains_key(b),
    ensures
        leq(u, a, b) == leq(u, m[b], m[a]),
    decreases a + b,
{
    let na = m[a];
    let nb = m[b];
    assert(m.contains_key(na) && m.contains_key(nb));
    if leq(u, a, b) {
        assert forall|l: int| 0 <= l < nb && #[trigger] u[nb].left.contains(l) implies !leq(
            u,
            na,
            l,
        ) by {
            assert(m.contains_key(l) && u[b].right.contains(m[l]));
            lemma_leq_mirror(u, m, m[l], a);
        }
        assert forall|r: int| 0 <= r < na && #[trigger] u[na].right.contains(r) implies !leq(
            u,
            r,
            nb,
        ) by {
            assert(m.contains_key(r) && u[a].left.contains(m[r]));
            lemma_leq_mirror(u, m, b, m[r]);
        }
    }
    if leq(u, nb, na) {
        assert forall|l: int| 0 <= l < a && #[trigger] u[a].left.contains(l) implies !leq(
            u,
            b,
            l,
        ) by {
            assert(m.contains_key(l) && u[na].right.contains(m[l]));
            lemma_leq_mirror(u, m, b, l);
        }
        assert forall|r: int| 0 <= r < b && #[trigger] u[b].right.contains(r) implies !leq(
            u,
            r,
            a,
        ) by {
            assert(m.contains_key(r) && u[nb].left.contains(m[r]));
            lemma_leq_mirror(u, m, r, a);
        }
    }
}

/// The options of `g` are the negatives of the options of the game at `a`,
/// left for right.
pub open spec fn negated_options(u: Seq<Node>, m: Map<int, int>, a: int, g: Node) -> bool {
    &&& forall|x: int| #[trigger] u[a].left.contains(x) ==> m.contains_key(x) && g.right.contains(m[x])
    &&& forall|x: int| #[trigger] u[a].right.contains(x) ==> m.contains_key(x) && g.left.contains(m[x])
    &&& forall|y: int| #[trigger] g.right.contains(y) ==> m.contains_key(y) && u[a].left.contains(m[y])
    &&& forall|y: int| #[trigger] g.left.contains(y) ==> m.contains_key(y) && u[a].right.contains(m[y])
}

/// A map of negatives stays one when the table grows.
pub proof fn lemma_negation_map_prefix(u: Seq<Node>, v: Seq<Node>, m: Map<int, int>)
    requires
        is_prefix(u, v),
        negation_map(u, m),
    ensures
        negation_map(v, m),
{
    assert forall|a: int, x: int|
        m.contains_key(a) && #[trigger] v[a].left.contains(x) implies m.contains_key(x)
        && v[m[a]].right.contains(m[x]) by {
        assert(same_options(u[a], v[a]) && same_options(u[m[a]], v[m[a]]));
        assert(u[a].left.contains(x));
    }
    assert forall|a: int, x: int|
        m.contains_key(a) && #[trigger] v[a].right.contains(x) implies m.contains_key(x)
        && v[m[a]].left.contains(m[x]) by {
        assert(same_options(u[a], v[a]) && same_options(u[m[a]], v[m[a]]));
        assert(u[a].right.contains(x));
    }
}

/// The game whose options are the negatives of the options of the game at
/// `a` is in canonical form, and the map of negatives can take the two in.
pub proof fn lemma_negated_form(u: Seq<Node>, m: Map<int, int>, a: int, g: Node)
    requires
        canonical_table(u),
        negation_map(u, m),
        0 <= a < u.len(),
        !m.contains_key(a),
        options_below(g, u.len() as int),
        negated_options(u, m, a, g),
    ensures
        canonical_at(u.push(g), u.len() as int),
        negation_map(u.push(g), m.insert(a, u.len() as int).insert(u.len() as int, a)),
{
    let n = u.len() as int;
    let w = u.push(g);
    let m2 = m.insert(a, n).insert(n, a);
    assert(is_prefix(u, w));
    assert(w[a] == u[a]);
    assert(w[n] == g);
    lemma_negation_map_prefix(u, w, m);
    assert(closed(w)) by {
        assert forall|i: int, x: int| 0 <= i < w.len() && #[trigger] w[i].left.contains(x) implies 0
            <= x < i by {
            if i < n {
                assert(u[i].left.contains(x));
            }
        }
        assert forall|i: int, x: int|
            0 <= i < w.len() && #[trigger] w[i].right.contains(x) implies 0 <= x < i by {
            if i < n {
                assert(u[i].right.contains(x));
            }
        }
    }
    assert(negation_map(w, m2)) by {
        assert forall|b: int| #[trigger] m2.contains_key(b) implies 0 <= b < w.len() && 0 <= m2[b]
            < w.len() && m2.contains_key(m2[b]) && m2[m2[b]] == b by {
            if b != a && b != n {
                assert(m.contains_key(b));
                assert(m[b] != a);
            }
        }
        assert forall|b: int, x: int|
            m2.contains_key(b) && #[trigger] w[b].left.contains(x) implies m2.contains_key(x)
            && w[m2[b]].right.contains(m2[x]) by {
            if b == n {
                assert(m.contains_key(x));
            } else if b == a {
                assert(u[a].left.contains(x));
            } else {
                assert(m.contains_key(b));
                assert(m[b] != a) by {
                    assert(m.contains_key(m[b]));
                }
                assert(m.contains_key(x));
                assert(w[m[b]].right.contains(m[x]));
            }
        }
        assert forall|b: int, x: int|
            m2.contains_key(b) && #[trigger] w[b].right.contains(x) implies m2.contains_key(x)
            && w[m2[b]].left.contains(m2[x]) by {
            if b == n {
                assert(m.contains_key(x));
            } else if b == a {
                assert(u[a].right.contains(x));
            } else {
                assert(m.contains_key(b));
                assert(m[b] != a) by {
                    assert(m.contains_key(m[b]));
                }
                assert(m.contains_key(x));
                assert(w[m[b]].left.contains(m[x]));
            }
        }
    }
    assert(canonical_at(u, a));
    assert(no_dominated(w, n)) by {
        assert forall|p: int, q: int|
            #[trigger] w[n].left.contains(p) && #[trigger] w[n].left.contains(q) && p
                != q implies !leq(w, p, q) by {
            assert(m.contains_key(p) && m.contains_key(q));
            assert(m[m[p]] == p && m[m[q]] == q);
            lemma_leq_mirror(u, m, p, q);
            lemma_leq_prefix(u, w, p, q);
        }
        assert forall|p: int, q: int|
            #[trigger] w[n].right.contains(p) && #[trigger] w[n].right.contains(q) && p
                != q implies !leq(w, p, q) by {
            assert(m.contains_key(p) && m.contains_key(q));
            assert(m[m[p]] == p && m[m[q]] == q);
            lemma_leq_mirror(u, m, p, q);
            lemma_leq_prefix(u, w, p, q);
        }
    }
    assert(no_reversible(w, n)) by {
        assert forall|l: int, lr: int|
            0 <= l < n && #[trigger] w[n].left.contains(l) && #[trigger] w[l].right.contains(
                lr,
            ) implies !leq(w, lr, n) by {
            assert(w[l] == u[l]);
            assert(m.contains_key(l) && u[a].right.contains(m[l]));
            assert(u[l].right.contains(lr));
            assert(m.contains_key(lr) && u[m[l]].left.contains(m[lr]));
            assert(m2.contains_key(lr) && m2[lr] == m[lr]);
            lemma_leq_mirror(w, m2, lr, n);
            lemma_leq_prefix(u, w, a, m[lr]);
        }
        assert forall|r: int, rl: int|
            0 <= r < n && #[trigger] w[n].right.contains(r) && #[trigger] w[r].left.contains(
                rl,
            ) implies !leq(w, n, rl) by {
            assert(w[r] == u[r]);
            assert(m.contains_key(r) && u[a].left.contains(m[r]));
            assert(u[r].left.contains(rl));
            assert(m.contains_key(rl) && u[m[r]].right.contains(m[rl]));
            assert(m2.contains_key(rl) && m2[rl] == m[rl]);
            lemma_leq_mirror(w, m2, n, rl);
            lemma_leq_prefix(u, w, m[rl], a);
        }
    }
}

/// Where the table holds the negated form already, at `e`, the map of
/// negatives does not know `e` yet: its negative would be a game with the
/// options of the game at `a`, which is that game itself.
pub proof fn lemma_negated_entry_fresh(u: Seq<Node>, m: Map<int, int>, a: int, g: Node, e: int)
    requires
        canonical_table(u),
        negation_map(u, m),
        0 <= a < u.len(),
        !m.contains_key(a),
        0 <= e < u.len(),
        same_options(u[e], g),
        negated_options(u, m, a, g),
    ensures
        !m.contains_key(e),
{
    if m.contains_key(e) {
        let c = m[e];
        assert(m.contains_key(c) && m[c] == e);
        assert forall|x: int| u[c].left.contains(x) implies u[a].left.contains(x) by {
            assert(m.contains_key(x) && u[e].right.contains(m[x]));
            assert(g.right.contains(m[x]));
            assert(m[m[x]] == x);
        }
        assert forall|x: int| u[a].left.contains(x) implies u[c].left.contains(x) by {
            assert(m.contains_key(x) && g.right.contains(m[x]));
            assert(u[e].right.contains(m[x]));
            assert(m.contains_key(m[x]) && u[m[e]].left.contains(m[m[x]]));
            assert(m[m[x]] == x);
        }
        assert forall|x: int| u[c].right.contains(x) implies u[a].right.contains(x) by {
            assert(m.contains_key(x) && u[e].left.contains(m[x]));
            assert(g.left.contains(m[x]));
            assert(m[m[x]] == x);
        }
        assert forall|x: int| u[a].right.contains(x) implies u[c].right.contains(x) by {
            assert(m.contains_key(x) && g.left.contains(m[x]));
            assert(u[e].left.contains(m[x]));
            assert(m.contains_key(m[x]) && u[m[e]].right.contains(m[m[x]]));
            assert(m[m[x]] == x);
        }
        assert(same_options(u[c], u[a]));
        assert(false);
    }
}

/// Where the table holds the negated form already, at `e`, the map of
/// negatives can take the game and `e` in.
pub proof fn lemma_negated_entry(u: Seq<Node>, m: Map<int, int>, a: int, g: Node, e: int)
    requires
        canonical_table(u),
        negation_map(u, m),
        0 <= a < u.len(),
        !m.contains_key(a),
        0 <= e < u.len(),
        same_options(u[e], g),
        negated_options(u, m, a, g),
    ensures
        negation_map(u, m.insert(a, e).insert(e, a)),
{
    let m2 = m.insert(a, e).insert(e, a);
    lemma_negated_entry_fresh(u, m, a, g, e);
    assert forall|b: int| #[trigger] m2.contains_key(b) implies 0 <= b < u.len() && 0 <= m2[b]
        < u.len() && m2.contains_key(m2[b]) && m2[m2[b]] == b by {
        if b != a && b != e {
            assert(m.contains_key(b));
            assert(m.contains_key(m[b]));
        }
    }
    assert forall|b: int, x: int|
        m2.contains_key(b) && #[trigger] u[b].left.contains(x) implies m2.contains_key(x)
        && u[m2[b]].right.contains(m2[x]) by {
        if b == e {
            assert(g.left.contains(x));
            assert(m.contains_key(x));
        } else if b == a {
            assert(m.contains_key(x));
            assert(g.right.contains(m[x]));
        } else {
            assert(m.contains_key(b));
            assert(m.contains_key(m[b]));
            assert(m.contains_key(x));
        }
    }
    assert forall|b: int, x: int|
        m2.contains_key(b) && #[trigger] u[b].right.contains(x) implies m2.contains_key(x)
        && u[m2[b]].left.contains(m2[x]) by {
        if b == e {
            assert(g.right.contains(x));
            assert(m.contains_key(x));
        } else if b == a {
            assert(m.contains_key(x));
            assert(g.left.contains(m[x]));
        } else {
            assert(m.contains_key(b));
            assert(m.contains_key(m[b]));
            assert(m.contains_key(x));
        }
    }
}

/// The two places in rising order: the sum does not depend on the order of
/// its terms, and is kept once for both orders.
pub open spec fn pair(a: int, b: int) -> (int, int) {
    if a <= b {
        (a, b)
    } else {
        (b, a)
    }
}

/// The set of the sums of the games of `src_a` with `b` and of `a` with the
/// games of `src_b`, all sums taken from `t`.
pub open spec fn option_sums(
    t: Map<(int, int), int>,
    a: int,
    b: int,
    src_a: Set<int>,
    src_b: Set<int>,
) -> Set<int> {
    Set::new(
        |s: int|
            (exists|l: int| #[trigger]
                src_a.contains(l) && t.contains_key(pair(l, b)) && t[pair(l, b)] == s) || (exists|
                l: int,
            | #[trigger]
                src_b.contains(l) && t.contains_key(pair(a, l)) && t[pair(a, l)] == s),
    )
}

/// The game whose left options are the sums of a left option of `a` with `b`
/// and of `a` with a left option of `b`, and whose right options are those of
/// the right options, all sums taken from `t`.
pub open spec fn sum_node(u: Seq<Node>, t: Map<(int, int), int>, a: int, b: int) -> Node {
    Node {
        left: option_sums(t, a, b, u[a].left, u[b].left),
        right: option_sums(t, a, b, u[a].right, u[b].right),
    }
}

/// `t` knows the sum of every option of `a` with `b` and of `a` with every
/// option of `b`.
pub open spec fn sums_of_options_known(u: Seq<Node>, t: Map<(int, int), int>, a: int, b: int) -> bool {
    &&& forall|l: int| #[trigger] u[a].left.contains(l) ==> t.contains_key(pair(l, b))
    &&& forall|l: int| #[trigger] u[b].left.contains(l) ==> t.contains_key(pair(a, l))
    &&& forall|r: int| #[trigger] u[a].right.contains(r) ==> t.contains_key(pair(r, b))
    &&& forall|r: int| #[trigger] u[b].right.contains(r) ==> t.contains_key(pair(a, r))
}

/// `t` maps pairs of games of the table `u` to their sums: for every pair
/// that it knows, it knows the sums that make up the options of the sum, and
/// the sum is a game of the table with the value of the game that has those
/// options.
pub open spec fn sum_map(u: Seq<Node>, t: Map<(int, int), int>) -> bool {
    forall|a: int, b: int| #[trigger]
        t.contains_key((a, b)) ==> {
            &&& 0 <= a <= b < u.len()
            &&& 0 <= t[(a, b)] < u.len()
            &&& sums_of_options_known(u, t, a, b)
            &&& form_equals(u, sum_node(u, t, a, b), t[(a, b)])
        }
}

/// The options of a sum are games of the table.
pub proof fn lemma_sum_node_below(u: Seq<Node>, t: Map<(int, int), int>, a: int, b: int)
    requires
        sum_map(u, t),
    ensures
        options_below(sum_node(u, t, a, b), u.len() as int),
{
    let g = sum_node(u, t, a, b);
    assert forall|s: int| #[trigger] g.left.contains(s) implies 0 <= s < u.len() by {
        if exists|l: int| #[trigger]
            u[a].left.contains(l) && t.contains_key(pair(l, b)) && t[pair(l, b)] == s {
            let l = choose|l: int| #[trigger]
                u[a].left.contains(l) && t.contains_key(pair(l, b)) && t[pair(l, b)] == s;
            assert(t.contains_key((pair(l, b).0, pair(l, b).1)));
        } else {
            let l = choose|l: int| #[trigger]
                u[b].left.contains(l) && t.contains_key(pair(a, l)) && t[pair(a, l)] == s;
            assert(t.contains_key((pair(a, l).0, pair(a, l).1)));
        }
    }
    assert forall|s: int| #[trigger] g.right.contains(s) implies 0 <= s < u.len() by {
        if exists|r: int| #[trigger]
            u[a].right.contains(r) && t.contains_key(pair(r, b)) && t[pair(r, b)] == s {
            let r = choose|r: int| #[trigger]
                u[a].right.contains(r) && t.contains_key(pair(r, b)) && t[pair(r, b)] == s;
            assert(t.contains_key((pair(r, b).0, pair(r, b).1)));
        } else {
            let r = choose|r: int| #[trigger]
                u[b].right.contains(r) && t.contains_key(pair(a, r)) && t[pair(a, r)] == s;
            assert(t.contains_key((pair(a, r).0, pair(a, r).1)));
        }
    }
}

/// The game that makes up a sum is the same game when the table has grown
/// and the map knows more.
pub proof fn lemma_sum_node_stable(
    u: Seq<Node>,
    v: Seq<Node>,
    t: Map<(int, int), int>,
    t2: Map<(int, int), int>,
    a: int,
    b: int,
)
    requires
        is_prefix(u, v),
        0 <= a < u.len(),
        0 <= b < u.len(),
        t.submap_of(t2),
        sums_of_options_known(u, t, a, b),
    ensures
        sum_node(v, t2, a, b) == sum_node(u, t, a, b),
        sums_of_options_known(v, t2, a, b),
{
    let g = sum_node(u, t, a, b);
    let h = sum_node(v, t2, a, b);
    assert(same_options(u[a], v[a]) && same_options(u[b], v[b]));
    assert forall|s: int| g.left.contains(s) == h.left.contains(s) by {
        if g.left.contains(s) {
            if exists|l: int| #[trigger]
                u[a].left.contains(l) && t.contains_key(pair(l, b)) && t[pair(l, b)] == s {
                let l = choose|l: int| #[trigger]
                    u[a].left.contains(l) && t.contains_key(pair(l, b)) && t[pair(l, b)] == s;
                assert(v[a].left.contains(l) && t2.contains_key(pair(l, b)) && t2[pair(l, b)] == s);
            } else {
                let l = choose|l: int| #[trigger]
                    u[b].left.contains(l) && t.contains_key(pair(a, l)) && t[pair(a, l)] == s;
                assert(v[b].left.contains(l) && t2.contains_key(pair(a, l)) && t2[pair(a, l)] == s);
            }
        }
        if h.left.contains(s) {
            if exists|l: int| #[trigger]
                v[a].left.contains(l) && t2.contains_key(pair(l, b)) && t2[pair(l, b)] == s {
                let l = choose|l: int| #[trigger]
                    v[a].left.contains(l) && t2.contains_key(pair(l, b)) && t2[pair(l, b)] == s;
                assert(u[a].left.contains(l) && t.contains_key(pair(l, b)) && t[pair(l, b)] == s);
            } else {
                let l = choose|l: int| #[trigger]
                    v[b].left.contains(l) && t2.contains_key(pair(a, l)) && t2[pair(a, l)] == s;
                assert(u[b].left.contains(l) && t.contains_key(pair(a, l)) && t[pair(a, l)] == s);
            }
        }
    }
    assert forall|s: int| g.right.contains(s) == h.right.contains(s) by {
        if g.right.contains(s) {
            if exists|r: int| #[trigger]
                u[a].right.contains(r) && t.contains_key(pair(r, b)) && t[pair(r, b)] == s {
                let r = choose|r: int| #[trigger]
                    u[a].right.contains(r) && t.contains_key(pair(r, b)) && t[pair(r, b)] == s;
                assert(v[a].right.contains(r) && t2.contains_key(pair(r, b)) && t2[pair(r, b)] == s);
            } else {
                let r = choose|r: int| #[trigger]
                    u[b].right.contains(r) && t.contains_key(pair(a, r)) && t[pair(a, r)] == s;
                assert(v[b].right.contains(r) && t2.contains_key(pair(a, r)) && t2[pair(a, r)] == s);
            }
        }
        if h.right.contains(s) {
            if exists|r: int| #[trigger]
                v[a].right.contains(r) && t2.contains_key(pair(r, b)) && t2[pair(r, b)] == s {
                let r = choose|r: int| #[trigger]
                    v[a].right.contains(r) && t2.contains_key(pair(r, b)) && t2[pair(r, b)] == s;
                assert(u[a].right.contains(r) && t.contains_key(pair(r, b)) && t[pair(r, b)] == s);
            } else {
                let r = choose|r: int| #[trigger]
                    v[b].right.contains(r) && t2.contains_key(pair(a, r)) && t2[pair(a, r)] == s;
                assert(u[b].right.contains(r) && t.contains_key(pair(a, r)) && t[pair(a, r)] == s);
            }
        }
    }
    assert(g.left =~= h.left && g.right =~= h.right);
    assert forall|l: int| #[trigger] v[a].left.contains(l) implies t2.contains_key(pair(l, b)) by {
        assert(u[a].left.contains(l));
    }
    assert forall|l: int| #[trigger] v[b].left.contains(l) implies t2.contains_key(pair(a, l)) by {
        assert(u[b].left.contains(l));
    }
    assert forall|r: int| #[trigger] v[a].right.contains(r) implies t2.contains_key(pair(r, b)) by {
        assert(u[a].right.contains(r));
    }
    assert forall|r: int| #[trigger] v[b].right.contains(r) implies t2.contains_key(pair(a, r)) by {
        assert(u[b].right.contains(r));
    }
}

/// A map of sums stays one when the table grows.
pub proof fn lemma_sum_map_prefix(u: Seq<Node>, v: Seq<Node>, t: Map<(int, int), int>)
    requires
        is_prefix(u, v),
        sum_map(u, t),
    ensures
        sum_map(v, t),
{
    assert forall|a: int, b: int| #[trigger] t.contains_key((a, b)) implies {
        &&& 0 <= a <= b < v.len()
        &&& 0 <= t[(a, b)] < v.len()
        &&& sums_of_options_known(v, t, a, b)
        &&& form_equals(v, sum_node(v, t, a, b), t[(a, b)])
    } by {
        lemma_sum_node_stable(u, v, t, t, a, b);
        lemma_sum_node_below(u, t, a, b);
        lemma_form_equals_prefix(u, v, sum_node(u, t, a, b), t[(a, b)]);
    }
}

/// A map of sums can take in a pair whose option sums it knows, with the
/// game of the table that has the value of the sum.
pub proof fn lemma_sum_map_insert(u: Seq<Node>, t: Map<(int, int), int>, a: int, b: int, c: int)
    requires
        sum_map(u, t),
        0 <= a <= b < u.len(),
        0 <= c < u.len(),
        !t.contains_key((a, b)),
        sums_of_options_known(u, t, a, b),
        form_equals(u, sum_node(u, t, a, b), c),
    ensures
        sum_map(u, t.insert((a, b), c)),
{
    let t2 = t.insert((a, b), c);
    assert(is_prefix(u, u));
    assert forall|x: int, y: int| #[trigger] t2.contains_key((x, y)) implies {
        &&& 0 <= x <= y < u.len()
        &&& 0 <= t2[(x, y)] < u.len()
        &&& sums_of_options_known(u, t2, x, y)
        &&& form_equals(u, sum_node(u, t2, x, y), t2[(x, y)])
    } by {
        if x == a && y == b {
            lemma_sum_node_stable(u, u, t, t2, a, b);
        } else {
            assert(t.contains_key((x, y)));
            lemma_sum_node_stable(u, u, t, t2, x, y);
        }
    }
}

/// The map of sums `t` has `c` as the sum of `a` and `b`.
pub open spec fn is_sum_at(t: Map<(int, int), int>, a: int, b: int, c: int) -> bool {
    t.contains_key(pair(a, b)) && t[pair(a, b)] == c
}

/// `sums` lists, in order, the sums of the games of `xs` with `b` and then
/// those of the games of `ys` with `a`.
pub open spec fn lists_sums(
    t: Map<(int, int), int>,
    a: int,
    b: int,
    xs: Seq<usize>,
    ys: Seq<usize>,
    sums: Seq<int>,
) -> bool {
    &&& sums.len() == xs.len() + ys.len()
    &&& forall|k: int| 0 <= k < xs.len() ==> is_sum_at(t, #[trigger] xs[k] as int, b, sums[k])
    &&& forall|k: int|
        0 <= k < ys.len() ==> is_sum_at(t, #[trigger] ys[k] as int, a, sums[xs.len() + k])
}

/// A list of the option sums names the set of the option sums.
pub proof fn lemma_lists_option_sums(
    t: Map<(int, int), int>,
    a: int,
    b: int,
    xs: Seq<usize>,
    ys: Seq<usize>,
    sums: Seq<int>,
)
    requires
        lists_sums(t, a, b, xs, ys, sums),
    ensures
        Set::new(|s: int| exists|k: int| 0 <= k < sums.len() && sums[k] == s) =~= option_sums(
            t,
            a,
            b,
            places(xs),
            places(ys),
        ),
        forall|l: int| #[trigger] places(xs).contains(l) ==> t.contains_key(pair(l, b)),
        forall|l: int| #[trigger] places(ys).contains(l) ==> t.contains_key(pair(a, l)),
{
    let named = Set::new(|s: int| exists|k: int| 0 <= k < sums.len() && sums[k] == s);
    let wanted = option_sums(t, a, b, places(xs), places(ys));
    assert forall|l: int| #[trigger] places(xs).contains(l) implies t.contains_key(pair(l, b)) by {
        let k = choose|k: int| 0 <= k < xs.len() && xs[k] == l;
        assert(is_sum_at(t, xs[k] as int, b, sums[k]));
    }
    assert forall|l: int| #[trigger] places(ys).contains(l) implies t.contains_key(pair(a, l)) by {
        let k = choose|k: int| 0 <= k < ys.len() && ys[k] == l;
        assert(is_sum_at(t, ys[k] as int, a, sums[xs.len() + k]));
        assert(pair(a, l) == pair(l, a));
    }
    assert forall|s: int| named.contains(s) == wanted.contains(s) by {
        if named.contains(s) {
            let k = choose|k: int| 0 <= k < sums.len() && sums[k] == s;
            if k < xs.len() {
                assert(is_sum_at(t, xs[k] as int, b, sums[k]));
                assert(places(xs).contains(xs[k] as int));
            } else {
                let j = k - xs.len();
                assert(is_sum_at(t, ys[j] as int, a, sums[xs.len() + j]));
                assert(places(ys).contains(ys[j] as int));
                assert(pair(a, ys[j] as int) == pair(ys[j] as int, a));
            }
        }
        if wanted.contains(s) {
            if exists|l: int| #[trigger]
                places(xs).contains(l) && t.contains_key(pair(l, b)) && t[pair(l, b)] == s {
                let l = choose|l: int| #[trigger]
                    places(xs).contains(l) && t.contains_key(pair(l, b)) && t[pair(l, b)] == s;
                let k = choose|k: int| 0 <= k < xs.len() && xs[k] == l;
                assert(is_sum_at(t, xs[k] as int, b, sums[k]));
            } else {
                let l = choose|l: int| #[trigger]
                    places(ys).contains(l) && t.contains_key(pair(a, l)) && t[pair(a, l)] == s;
                let k = choose|k: int| 0 <= k < ys.len() && ys[k] == l;
                assert(is_sum_at(t, ys[k] as int, a, sums[xs.len() + k]));
                assert(pair(a, l) == pair(l, a));
            }
        }
    }
}

} // verus!
