//! The order on short partizan games, over a table of games in which every
//! game names its options by their place in the table.
//!
//! A table is a sequence of nodes. A node holds the places of its left and of
//! its right options, all of which come before the node itself, so that the
//! games of a table are well founded. The game at place `a` is at most the
//! game at place `b` when no left option of `a` is at least `b` and no right
//! option of `b` is at most `a`.

use vstd::prelude::*;

verus! {

/// A game, given by the places of its options.
pub struct Node {
    pub left: Set<int>,
    pub right: Set<int>,
}

/// Two nodes with the same options.
pub open spec fn same_options(m: Node, n: Node) -> bool {
    m.left =~= n.left && m.right =~= n.right
}

/// Every option of every node comes before the node.
pub open spec fn closed(u: Seq<Node>) -> bool {
    &&& forall|i: int, x: int| 0 <= i < u.len() && #[trigger] u[i].left.contains(x) ==> 0 <= x < i
    &&& forall|i: int, x: int| 0 <= i < u.len() && #[trigger] u[i].right.contains(x) ==> 0 <= x < i
}

/// The game at `a` is at most the game at `b`.
pub open spec fn leq(u: Seq<Node>, a: int, b: int) -> bool
    decreases a + b,
{
    &&& 0 <= a < u.len()
    &&& 0 <= b < u.len()
    &&& forall|l: int| 0 <= l < a && #[trigger] u[a].left.contains(l) ==> !leq(u, b, l)
    &&& forall|r: int| 0 <= r < b && #[trigger] u[b].right.contains(r) ==> !leq(u, r, a)
}

/// The games at `a` and `b` have the same value.
pub open spec fn equal_value(u: Seq<Node>, a: int, b: int) -> bool {
    leq(u, a, b) && leq(u, b, a)
}

/// No option of the game at `a` is dominated by another option of the same
/// player.
pub open spec fn no_dominated(u: Seq<Node>, a: int) -> bool {
    &&& forall|x: int, y: int|
        #[trigger] u[a].left.contains(x) && #[trigger] u[a].left.contains(y) && x != y ==> !leq(
            u,
            x,
            y,
        )
    &&& forall|x: int, y: int|
        #[trigger] u[a].right.contains(x) && #[trigger] u[a].right.contains(y) && x != y ==> !leq(
            u,
            x,
            y,
        )
}

/// No option of the game at `a` is reversible: no left option has a right
/// option that is at most `a`, and no right option has a left option that is
/// at least `a`.
pub open spec fn no_reversible(u: Seq<Node>, a: int) -> bool {
    &&& forall|l: int, lr: int|
        0 <= l < a && #[trigger] u[a].left.contains(l) && #[trigger] u[l].right.contains(lr)
            ==> !leq(u, lr, a)
    &&& forall|r: int, rl: int|
        0 <= r < a && #[trigger] u[a].right.contains(r) && #[trigger] u[r].left.contains(rl)
            ==> !leq(u, a, rl)
}

/// The game at `a` is in canonical form, given that its options are.
pub open spec fn canonical_at(u: Seq<Node>, a: int) -> bool {
    no_dominated(u, a) && no_reversible(u, a)
}

/// A table of canonical forms: closed, every game in canonical form, and no
/// game in it twice.
pub open spec fn canonical_table(u: Seq<Node>) -> bool {
    &&& closed(u)
    &&& forall|a: int| 0 <= a < u.len() ==> canonical_at(u, a)
    &&& forall|a: int, b: int|
        0 <= a < u.len() && 0 <= b < u.len() && same_options(#[trigger] u[a], #[trigger] u[b])
            ==> a == b
}

/// Every game is at most itself; no game is at most one of its left options,
/// nor at least one of its right options.
pub proof fn lemma_leq_reflexive(u: Seq<Node>, a: int)
    requires
        0 <= a < u.len(),
    ensures
        leq(u, a, a),
        forall|l: int| 0 <= l < a && #[trigger] u[a].left.contains(l) ==> !leq(u, a, l),
        forall|r: int| 0 <= r < a && #[trigger] u[a].right.contains(r) ==> !leq(u, r, a),
    decreases a,
{
    assert forall|l: int| 0 <= l < a && #[trigger] u[a].left.contains(l) implies !leq(u, a, l) by {
        lemma_leq_reflexive(u, l);
    }
    assert forall|r: int| 0 <= r < a && #[trigger] u[a].right.contains(r) implies !leq(u, r, a) by {
        lemma_leq_reflexive(u, r);
    }
}

/// The order is transitive.
pub proof fn lemma_leq_transitive(u: Seq<Node>, a: int, b: int, c: int)
    requires
        leq(u, a, b),
        leq(u, b, c),
    ensures
        leq(u, a, c),
    decreases a + b + c,
{
    assert forall|l: int| 0 <= l < a && #[trigger] u[a].left.contains(l) implies !leq(u, c, l) by {
        if leq(u, c, l) {
            lemma_leq_transitive(u, b, c, l);
        }
    }
    assert forall|r: int| 0 <= r < c && #[trigger] u[c].right.contains(r) implies !leq(u, r, a) by {
        if leq(u, r, a) {
            lemma_leq_transitive(u, r, a, b);
        }
    }
}

/// Where `a` is not at most `b`, a left option of `a` is at least `b` or a
/// right option of `b` is at most `a`.
pub proof fn lemma_not_leq(u: Seq<Node>, a: int, b: int)
    requires
        0 <= a < u.len(),
        0 <= b < u.len(),
        !leq(u, a, b),
    ensures
        (exists|l: int| 0 <= l < a && #[trigger] u[a].left.contains(l) && leq(u, b, l)) || (exists|
            r: int,
        |
            0 <= r < b && #[trigger] u[b].right.contains(r) && leq(u, r, a)),
{
}

/// The places `a` in `u` and `a2` in `v` hold the same game: the same place
/// below `p`, or two nodes from `p` on with the same options, all below `p`.
pub open spec fn same_game(u: Seq<Node>, v: Seq<Node>, p: int, a: int, a2: int) -> bool {
    ||| a == a2 && 0 <= a < p
    ||| {
        &&& p <= a < u.len()
        &&& p <= a2 < v.len()
        &&& same_options(u[a], v[a2])
        &&& forall|x: int| #[trigger] u[a].left.contains(x) ==> 0 <= x < p
        &&& forall|x: int| #[trigger] u[a].right.contains(x) ==> 0 <= x < p
    }
}

/// The order depends only on the games compared: two tables that agree below
/// `p` order the same games in the same way.
pub proof fn lemma_leq_same_games(
    u: Seq<Node>,
    v: Seq<Node>,
    p: int,
    a: int,
    a2: int,
    b: int,
    b2: int,
)
    requires
        0 <= p <= u.len(),
        p <= v.len(),
        forall|i: int| 0 <= i < p ==> same_options(#[trigger] u[i], v[i]),
        same_game(u, v, p, a, a2),
        same_game(u, v, p, b, b2),
    ensures
        leq(u, a, b) == leq(v, a2, b2),
    decreases a + b,
{
    assert forall|l: int| 0 <= l < a && #[trigger] u[a].left.contains(l) implies leq(u, b, l)
        == leq(v, b2, l) by {
        lemma_leq_same_games(u, v, p, b, b2, l, l);
    }
    assert forall|r: int| 0 <= r < b && #[trigger] u[b].right.contains(r) implies leq(u, r, a)
        == leq(v, r, a2) by {
        lemma_leq_same_games(u, v, p, r, r, a, a2);
    }
    assert forall|l: int| 0 <= l < a2 && #[trigger] v[a2].left.contains(l) implies 0 <= l < a
        && u[a].left.contains(l) by {}
    assert forall|r: int| 0 <= r < b2 && #[trigger] v[b2].right.contains(r) implies 0 <= r < b
        && u[b].right.contains(r) by {}
}

/// Two games of a table of canonical forms that have the same value are the
/// same game.
pub proof fn lemma_canonical_unique(u: Seq<Node>, a: int, b: int)
    requires
        canonical_table(u),
        equal_value(u, a, b),
    ensures
        a == b,
    decreases a + b,
{
    assert forall|l: int| u[a].left.contains(l) implies u[b].left.contains(l) by {
        lemma_left_option_shared(u, a, b, l);
    }
    assert forall|l: int| u[b].left.contains(l) implies u[a].left.contains(l) by {
        lemma_left_option_shared(u, b, a, l);
    }
    assert forall|r: int| u[a].right.contains(r) implies u[b].right.contains(r) by {
        lemma_right_option_shared(u, a, b, r);
    }
    assert forall|r: int| u[b].right.contains(r) implies u[a].right.contains(r) by {
        lemma_right_option_shared(u, b, a, r);
    }
    assert(same_options(u[a], u[b]));
}

proof fn lemma_left_option_shared(u: Seq<Node>, a: int, b: int, l: int)
    requires
        canonical_table(u),
        equal_value(u, a, b),
        u[a].left.contains(l),
    ensures
        u[b].left.contains(l),
    decreases a + b, 0int,
{
    assert(canonical_at(u, a) && canonical_at(u, b));
    // Some left option of b is at least l, for else l would be reversible.
    assert(!leq(u, b, l));
    lemma_not_leq(u, b, l);
    if exists|lr: int| 0 <= lr < l && #[trigger] u[l].right.contains(lr) && leq(u, lr, b) {
        let lr = choose|lr: int| 0 <= lr < l && #[trigger] u[l].right.contains(lr) && leq(u, lr, b);
        lemma_leq_transitive(u, lr, b, a);
        assert(false);
    }
    let bl = choose|bl: int| 0 <= bl < b && #[trigger] u[b].left.contains(bl) && leq(u, l, bl);
    // And some left option of a is at least that one.
    assert(!leq(u, a, bl));
    lemma_not_leq(u, a, bl);
    if exists|blr: int| 0 <= blr < bl && #[trigger] u[bl].right.contains(blr) && leq(u, blr, a) {
        let blr = choose|blr: int|
            0 <= blr < bl && #[trigger] u[bl].right.contains(blr) && leq(u, blr, a);
        lemma_leq_transitive(u, blr, a, b);
        assert(false);
    }
    let l2 = choose|l2: int| 0 <= l2 < a && #[trigger] u[a].left.contains(l2) && leq(u, bl, l2);
    lemma_leq_transitive(u, l, bl, l2);
    assert(l == l2);
    lemma_canonical_unique(u, l, bl);
}

proof fn lemma_right_option_shared(u: Seq<Node>, a: int, b: int, r: int)
    requires
        canonical_table(u),
        equal_value(u, a, b),
        u[a].right.contains(r),
    ensures
        u[b].right.contains(r),
    decreases a + b, 0int,
{
    assert(canonical_at(u, a) && canonical_at(u, b));
    assert(!leq(u, r, b));
    lemma_not_leq(u, r, b);
    if exists|rl: int| 0 <= rl < r && #[trigger] u[r].left.contains(rl) && leq(u, b, rl) {
        let rl = choose|rl: int| 0 <= rl < r && #[trigger] u[r].left.contains(rl) && leq(u, b, rl);
        lemma_leq_transitive(u, a, b, rl);
        assert(false);
    }
    let br = choose|br: int| 0 <= br < b && #[trigger] u[b].right.contains(br) && leq(u, br, r);
    assert(!leq(u, br, a));
    lemma_not_leq(u, br, a);
    if exists|brl: int| 0 <= brl < br && #[trigger] u[br].left.contains(brl) && leq(u, a, brl) {
        let brl = choose|brl: int|
            0 <= brl < br && #[trigger] u[br].left.contains(brl) && leq(u, a, brl);
        lemma_leq_transitive(u, b, a, brl);
        assert(false);
    }
    let r2 = choose|r2: int| 0 <= r2 < a && #[trigger] u[a].right.contains(r2) && leq(u, r2, br);
    lemma_leq_transitive(u, r2, br, r);
    assert(r == r2);
    lemma_canonical_unique(u, r, br);
}

/// Every option of the node is a place below `n`.
pub open spec fn options_below(g: Node, n: int) -> bool {
    &&& forall|x: int| #[trigger] g.left.contains(x) ==> 0 <= x < n
    &&& forall|x: int| #[trigger] g.right.contains(x) ==> 0 <= x < n
}

/// The games `g` and `h`, whose options are games of the table `u`, have the
/// same value.
pub open spec fn forms_equal(u: Seq<Node>, g: Node, h: Node) -> bool {
    equal_value(u.push(g).push(h), u.len() as int, u.len() as int + 1)
}

/// The game `g`, whose options are games of the table `u`, has the value of
/// the game at `a`.
pub open spec fn form_equals(u: Seq<Node>, g: Node, a: int) -> bool {
    equal_value(u.push(g), u.len() as int, a)
}

/// Games with the same options have the same value.
pub proof fn lemma_forms_equal_same_options(u: Seq<Node>, g: Node, h: Node)
    requires
        options_below(g, u.len() as int),
        same_options(g, h),
    ensures
        forms_equal(u, g, h),
{
    let w = u.push(g).push(h);
    let n = u.len() as int;
    lemma_leq_reflexive(w, n);
    lemma_leq_same_games(w, w, n, n, n, n, n + 1);
    lemma_leq_same_games(w, w, n, n, n + 1, n, n);
}

/// Having the same value is transitive.
pub proof fn lemma_forms_equal_transitive(u: Seq<Node>, f: Node, g: Node, h: Node)
    requires
        options_below(f, u.len() as int),
        options_below(g, u.len() as int),
        options_below(h, u.len() as int),
        forms_equal(u, f, g),
        forms_equal(u, g, h),
    ensures
        forms_equal(u, f, h),
{
    let n = u.len() as int;
    let w = u.push(f).push(g).push(h);
    let fg = u.push(f).push(g);
    let gh = u.push(g).push(h);
    let fh = u.push(f).push(h);
    lemma_leq_same_games(w, fg, n, n, n, n + 1, n + 1);
    lemma_leq_same_games(w, fg, n, n + 1, n + 1, n, n);
    lemma_leq_same_games(w, gh, n, n + 1, n, n + 2, n + 1);
    lemma_leq_same_games(w, gh, n, n + 2, n + 1, n + 1, n);
    lemma_leq_transitive(w, n, n + 1, n + 2);
    lemma_leq_transitive(w, n + 2, n + 1, n);
    lemma_leq_same_games(w, fh, n, n, n, n + 2, n + 1);
    lemma_leq_same_games(w, fh, n, n + 2, n + 1, n, n);
}

/// A game of the table that has the options of `g` has the value of `g`.
pub proof fn lemma_form_equals_entry(u: Seq<Node>, g: Node, a: int)
    requires
        closed(u),
        0 <= a < u.len(),
        same_options(u[a], g),
    ensures
        form_equals(u, g, a),
{
    let w = u.push(g);
    let n = u.len() as int;
    lemma_leq_reflexive(w, n);
    assert(options_below(g, a)) by {
        assert forall|x: int| #[trigger] g.left.contains(x) implies 0 <= x < a by {
            assert(u[a].left.contains(x));
        }
        assert forall|x: int| #[trigger] g.right.contains(x) implies 0 <= x < a by {
            assert(u[a].right.contains(x));
        }
    }
    lemma_leq_same_options(w, n, a);
}

/// Two places of one table whose nodes have the same options are ordered as
/// one place.
pub proof fn lemma_leq_same_options(w: Seq<Node>, a: int, b: int)
    requires
        0 <= a < w.len(),
        0 <= b < w.len(),
        same_options(w[a], w[b]),
        options_below(w[a], if a < b {
            a
        } else {
            b
        }),
    ensures
        leq(w, a, b),
        leq(w, b, a),
{
    let p = if a < b {
        a
    } else {
        b
    };
    lemma_leq_reflexive(w, a);
    if a != b {
        if a < b {
            // Below a the tables agree; b is a place from a on with options below a.
            lemma_leq_same_top(w, a, b);
        } else {
            lemma_leq_same_top(w, b, a);
        }
    }
}

proof fn lemma_leq_same_top(w: Seq<Node>, a: int, b: int)
    requires
        0 <= a < b < w.len(),
        same_options(w[a], w[b]),
        options_below(w[a], a),
    ensures
        leq(w, a, b),
        leq(w, b, a),
{
    lemma_leq_reflexive(w, a);
    lemma_leq_same_games(w, w, a, a, a, a, b);
    lemma_leq_same_games(w, w, a, a, b, a, a);
}

/// A left option that another left option is at least can be left out.
pub proof fn lemma_drop_dominated_left(u: Seq<Node>, g: Node, h: Node, x: int, y: int)
    requires
        options_below(g, u.len() as int),
        g.left.contains(x),
        g.left.contains(y),
        x != y,
        leq(u, x, y),
        h.left =~= g.left.remove(x),
        h.right =~= g.right,
    ensures
        forms_equal(u, g, h),
{
    let n = u.len() as int;
    let w = u.push(g).push(h);
    lemma_leq_reflexive(w, n);
    lemma_leq_reflexive(w, n + 1);
    lemma_leq_same_games(u, w, n, x, x, y, y);
    assert(w[n + 1].left.contains(y));
    assert(leq(w, n + 1, n)) by {
        assert forall|l: int| 0 <= l < n + 1 && #[trigger] w[n + 1].left.contains(l) implies !leq(
            w,
            n,
            l,
        ) by {
            assert(w[n].left.contains(l));
        }
        assert forall|r: int| 0 <= r < n && #[trigger] w[n].right.contains(r) implies !leq(
            w,
            r,
            n + 1,
        ) by {
            assert(w[n + 1].right.contains(r));
        }
    }
    assert(leq(w, n, n + 1)) by {
        assert forall|l: int| 0 <= l < n && #[trigger] w[n].left.contains(l) implies !leq(
            w,
            n + 1,
            l,
        ) by {
            if l != x {
                assert(w[n + 1].left.contains(l));
            }
        }
        assert forall|r: int| 0 <= r < n + 1 && #[trigger] w[n + 1].right.contains(r) implies !leq(
            w,
            r,
            n,
        ) by {
            assert(w[n].right.contains(r));
        }
    }
}

/// A right option that another right option is at most can be left out.
pub proof fn lemma_drop_dominated_right(u: Seq<Node>, g: Node, h: Node, x: int, y: int)
    requires
        options_below(g, u.len() as int),
        g.right.contains(x),
        g.right.contains(y),
        x != y,
        leq(u, y, x),
        h.left =~= g.left,
        h.right =~= g.right.remove(x),
    ensures
        forms_equal(u, g, h),
{
    let n = u.len() as int;
    let w = u.push(g).push(h);
    lemma_leq_reflexive(w, n);
    lemma_leq_reflexive(w, n + 1);
    lemma_leq_same_games(u, w, n, y, y, x, x);
    assert(w[n + 1].right.contains(y));
    assert(leq(w, n + 1, n)) by {
        assert forall|l: int| 0 <= l < n + 1 && #[trigger] w[n + 1].left.contains(l) implies !leq(
            w,
            n,
            l,
        ) by {
            assert(w[n].left.contains(l));
        }
        assert forall|r: int| 0 <= r < n && #[trigger] w[n].right.contains(r) implies !leq(
            w,
            r,
            n + 1,
        ) by {
            if r != x {
                assert(w[n + 1].right.contains(r));
            }
        }
    }
    assert(leq(w, n, n + 1)) by {
        assert forall|l: int| 0 <= l < n && #[trigger] w[n].left.contains(l) implies !leq(
            w,
            n + 1,
            l,
        ) by {
            assert(w[n + 1].left.contains(l));
        }
        assert forall|r: int| 0 <= r < n + 1 && #[trigger] w[n + 1].right.contains(r) implies !leq(
            w,
            r,
            n,
        ) by {
            assert(w[n].right.contains(r));
        }
    }
}

/// A left option `x` with a right option `via` that is at most the game can
/// be replaced by the left options of `via`.
pub proof fn lemma_bypass_reversible_left(u: Seq<Node>, g: Node, h: Node, x: int, via: int)
    requires
        closed(u),
        options_below(g, u.len() as int),
        g.left.contains(x),
        u[x].right.contains(via),
        leq(u.push(g), via, u.len() as int),
        h.left =~= g.left.remove(x).union(u[via].left),
        h.right =~= g.right,
    ensures
        forms_equal(u, g, h),
        options_below(h, u.len() as int),
{
    let n = u.len() as int;
    let w = u.push(g).push(h);
    assert(0 <= via < x && x < n);
    assert(options_below(h, n)) by {
        assert forall|l: int| #[trigger] h.left.contains(l) implies 0 <= l < n by {
            if u[via].left.contains(l) {
            } else {
                assert(g.left.contains(l));
            }
        }
    }
    lemma_leq_reflexive(w, n);
    lemma_leq_reflexive(w, n + 1);
    lemma_leq_reflexive(w, via);
    lemma_leq_same_games(u.push(g), w, n, via, via, n, n);
    assert(w[via] == u[via]);
    assert(w[x] == u[x]);
    assert(leq(w, n + 1, n)) by {
        assert forall|l: int| 0 <= l < n + 1 && #[trigger] w[n + 1].left.contains(l) implies !leq(
            w,
            n,
            l,
        ) by {
            if g.left.contains(l) {
                assert(w[n].left.contains(l));
            } else {
                assert(w[via].left.contains(l));
                if leq(w, n, l) {
                    lemma_leq_transitive(w, via, n, l);
                }
            }
        }
        assert forall|r: int| 0 <= r < n && #[trigger] w[n].right.contains(r) implies !leq(
            w,
            r,
            n + 1,
        ) by {
            assert(w[n + 1].right.contains(r));
        }
    }
    assert(leq(w, via, n + 1)) by {
        assert forall|l: int| 0 <= l < via && #[trigger] w[via].left.contains(l) implies !leq(
            w,
            n + 1,
            l,
        ) by {
            assert(w[n + 1].left.contains(l));
        }
        assert forall|r: int| 0 <= r < n + 1 && #[trigger] w[n + 1].right.contains(r) implies !leq(
            w,
            r,
            via,
        ) by {
            assert(w[n].right.contains(r));
            if leq(w, r, via) {
                lemma_leq_transitive(w, r, via, n);
            }
        }
    }
    assert(leq(w, n, n + 1)) by {
        assert forall|l: int| 0 <= l < n && #[trigger] w[n].left.contains(l) implies !leq(
            w,
            n + 1,
            l,
        ) by {
            if l != x {
                assert(w[n + 1].left.contains(l));
            } else {
                assert(w[x].right.contains(via));
            }
        }
        assert forall|r: int| 0 <= r < n + 1 && #[trigger] w[n + 1].right.contains(r) implies !leq(
            w,
            r,
            n,
        ) by {
            assert(w[n].right.contains(r));
        }
    }
}

/// A right option `x` with a left option `via` that is at least the game can
/// be replaced by the right options of `via`.
pub proof fn lemma_bypass_reversible_right(u: Seq<Node>, g: Node, h: Node, x: int, via: int)
    requires
        closed(u),
        options_below(g, u.len() as int),
        g.right.contains(x),
        u[x].left.contains(via),
        leq(u.push(g), u.len() as int, via),
        h.left =~= g.left,
        h.right =~= g.right.remove(x).union(u[via].right),
    ensures
        forms_equal(u, g, h),
        options_below(h, u.len() as int),
{
    let n = u.len() as int;
    let w = u.push(g).push(h);
    assert(0 <= via < x && x < n);
    assert(options_below(h, n)) by {
        assert forall|r: int| #[trigger] h.right.contains(r) implies 0 <= r < n by {
            if u[via].right.contains(r) {
            } else {
                assert(g.right.contains(r));
            }
        }
    }
    lemma_leq_reflexive(w, n);
    lemma_leq_reflexive(w, n + 1);
    lemma_leq_reflexive(w, via);
    lemma_leq_same_games(u.push(g), w, n, n, n, via, via);
    assert(w[via] == u[via]);
    assert(w[x] == u[x]);
    assert(leq(w, n, n + 1)) by {
        assert forall|r: int| 0 <= r < n + 1 && #[trigger] w[n + 1].right.contains(r) implies !leq(
            w,
            r,
            n,
        ) by {
            if g.right.contains(r) {
                assert(w[n].right.contains(r));
            } else {
                assert(w[via].right.contains(r));
                if leq(w, r, n) {
                    lemma_leq_transitive(w, r, n, via);
                }
            }
        }
        assert forall|l: int| 0 <= l < n && #[trigger] w[n].left.contains(l) implies !leq(
            w,
            n + 1,
            l,
        ) by {
            assert(w[n + 1].left.contains(l));
        }
    }
    assert(leq(w, n + 1, via)) by {
        assert forall|r: int| 0 <= r < via && #[trigger] w[via].right.contains(r) implies !leq(
            w,
            r,
            n + 1,
        ) by {
            assert(w[n + 1].right.contains(r));
        }
        assert forall|l: int| 0 <= l < n + 1 && #[trigger] w[n + 1].left.contains(l) implies !leq(
            w,
            via,
            l,
        ) by {
            assert(w[n].left.contains(l));
            if leq(w, via, l) {
                lemma_leq_transitive(w, n, via, l);
            }
        }
    }
    assert(leq(w, n + 1, n)) by {
        assert forall|r: int| 0 <= r < n && #[trigger] w[n].right.contains(r) implies !leq(
            w,
            r,
            n + 1,
        ) by {
            if r != x {
                assert(w[n + 1].right.contains(r));
            } else {
                assert(w[x].left.contains(via));
            }
        }
        assert forall|l: int| 0 <= l < n + 1 && #[trigger] w[n + 1].left.contains(l) implies !leq(
            w,
            n,
            l,
        ) by {
            assert(w[n].left.contains(l));
        }
    }
}

/// Two places of one table whose nodes have the same options stand in the
/// same order to every place.
pub proof fn lemma_leq_copy(w: Seq<Node>, a: int, b: int, c: int)
    requires
        0 <= b < w.len(),
        0 <= c < w.len(),
        same_options(w[b], w[c]),
        options_below(w[b], if b < c {
            b
        } else {
            c
        }),
    ensures
        leq(w, a, b) == leq(w, a, c),
        leq(w, b, a) == leq(w, c, a),
    decreases a,
{
    if 0 <= a < w.len() {
        assert forall|l: int| 0 <= l < a && #[trigger] w[a].left.contains(l) implies leq(w, b, l)
            == leq(w, c, l) by {
            lemma_leq_copy(w, l, b, c);
        }
        assert forall|r: int| 0 <= r < a && #[trigger] w[a].right.contains(r) implies leq(w, r, b)
            == leq(w, r, c) by {
            lemma_leq_copy(w, r, b, c);
        }
        assert forall|r: int| #[trigger] w[b].right.contains(r) implies 0 <= r < b && 0 <= r < c
            && w[c].right.contains(r) by {}
        assert forall|r: int| #[trigger] w[c].right.contains(r) implies 0 <= r < b && 0 <= r < c
            && w[b].right.contains(r) by {}
        assert forall|l: int| #[trigger] w[b].left.contains(l) implies 0 <= l < b && 0 <= l < c
            && w[c].left.contains(l) by {}
        assert forall|l: int| #[trigger] w[c].left.contains(l) implies 0 <= l < b && 0 <= l < c
            && w[b].left.contains(l) by {}
    }
}

/// A table of canonical forms stays one when a game in canonical form that
/// it does not hold yet is put at its end.
pub proof fn lemma_table_extended(u: Seq<Node>, g: Node)
    requires
        canonical_table(u),
        options_below(g, u.len() as int),
        canonical_at(u.push(g), u.len() as int),
        forall|a: int| 0 <= a < u.len() ==> !same_options(#[trigger] u[a], g),
    ensures
        canonical_table(u.push(g)),
{
    let w = u.push(g);
    let n = u.len() as int;
    assert forall|a: int| 0 <= a < w.len() implies canonical_at(w, a) by {
        if a < n {
            assert(canonical_at(u, a));
            assert(w[a] == u[a]);
            assert forall|x: int, y: int|
                #[trigger] w[a].left.contains(x) && #[trigger] w[a].left.contains(y) && x
                    != y implies !leq(w, x, y) by {
                lemma_leq_same_games(u, w, n, x, x, y, y);
            }
            assert forall|x: int, y: int|
                #[trigger] w[a].right.contains(x) && #[trigger] w[a].right.contains(y) && x
                    != y implies !leq(w, x, y) by {
                lemma_leq_same_games(u, w, n, x, x, y, y);
            }
            assert forall|l: int, lr: int|
                0 <= l < a && #[trigger] w[a].left.contains(l) && #[trigger] w[l].right.contains(
                    lr,
                ) implies !leq(w, lr, a) by {
                assert(w[l] == u[l]);
                lemma_leq_same_games(u, w, n, lr, lr, a, a);
            }
            assert forall|r: int, rl: int|
                0 <= r < a && #[trigger] w[a].right.contains(r) && #[trigger] w[r].left.contains(
                    rl,
                ) implies !leq(w, a, rl) by {
                assert(w[r] == u[r]);
                lemma_leq_same_games(u, w, n, a, a, rl, rl);
            }
        }
    }
    assert forall|a: int, b: int|
        0 <= a < w.len() && 0 <= b < w.len() && same_options(
            #[trigger] w[a],
            #[trigger] w[b],
        ) implies a == b by {
        if a < n && b < n {
            assert(same_options(u[a], u[b]));
        } else if a < n {
            assert(same_options(u[a], g));
        } else if b < n {
            assert(same_options(u[b], g));
        }
    }
    assert(closed(w)) by {
        assert forall|i: int, x: int| 0 <= i < w.len() && #[trigger] w[i].left.contains(x) implies 0
            <= x < i by {
            if i < n {
                assert(u[i].left.contains(x));
            }
        }
        assert forall|i: int, x: int|
            0 <= i < w.len() && #[trigger] w[i].right.contains(x) implies 0 <= x < i by {
            if i < n {
                assert(u[i].right.contains(x));
            }
        }
    }
}

/// The table `v` holds the games of `u` at their places, and maybe more.
pub open spec fn is_prefix(u: Seq<Node>, v: Seq<Node>) -> bool {
    &&& u.len() <= v.len()
    &&& forall|i: int| 0 <= i < u.len() ==> same_options(#[trigger] u[i], v[i])
}

/// A table that has grown orders its old games as before.
pub proof fn lemma_leq_prefix(u: Seq<Node>, v: Seq<Node>, a: int, b: int)
    requires
        is_prefix(u, v),
        0 <= a < u.len(),
        0 <= b < u.len(),
    ensures
        leq(v, a, b) == leq(u, a, b),
{
    lemma_leq_same_games(u, v, u.len() as int, a, a, b, b);
}

/// A game built from games of a table has the same value against the table
/// when the table has grown.
pub proof fn lemma_form_equals_prefix(u: Seq<Node>, v: Seq<Node>, g: Node, a: int)
    requires
        is_prefix(u, v),
        options_below(g, u.len() as int),
        0 <= a < u.len(),
    ensures
        form_equals(v, g, a) == form_equals(u, g, a),
{
    let p = u.len() as int;
    lemma_leq_same_games(u.push(g), v.push(g), p, p, v.len() as int, a, a);
    lemma_leq_same_games(u.push(g), v.push(g), p, a, a, p, v.len() as int);
}

/// What canonicalisation hands back: where `gf` has the value of `g0`, and
/// the table `v` is `u` with `gf` at `id`, either found there or put at the
/// end, the game at `id` has the value of `g0`.
pub proof fn lemma_construct_result(u: Seq<Node>, g0: Node, gf: Node, v: Seq<Node>, id: int)
    requires
        closed(u),
        options_below(g0, u.len() as int),
        options_below(gf, u.len() as int),
        forms_equal(u, g0, gf),
        (v == u && 0 <= id < u.len() && same_options(u[id], gf)) || (v == u.push(gf) && id
            == u.len()),
    ensures
        form_equals(v, g0, id),
        is_prefix(u, v),
{
    let n = u.len() as int;
    let w = u.push(g0).push(gf);
    if v == u {
        assert(options_below(gf, id)) by {
            assert forall|x: int| #[trigger] gf.left.contains(x) implies 0 <= x < id by {
                assert(u[id].left.contains(x));
            }
            assert forall|x: int| #[trigger] gf.right.contains(x) implies 0 <= x < id by {
                assert(u[id].right.contains(x));
            }
        }
        assert(w[id] == u[id]);
        lemma_leq_copy(w, n, id, n + 1);
        lemma_leq_same_games(u.push(g0), w, n + 1, n, n, id, id);
        lemma_leq_same_games(u.push(g0), w, n + 1, id, id, n, n);
    } else {
        let w2 = u.push(gf).push(g0);
        lemma_leq_same_games(w, w2, n, n, n + 1, n + 1, n);
        lemma_leq_same_games(w, w2, n, n + 1, n, n, n + 1);
    }
}

/// A game in canonical form whose value a table of canonical forms holds is
/// held there as it is.
pub proof fn lemma_canonical_form_is_itself(u: Seq<Node>, g: Node, r: int)
    requires
        canonical_table(u),
        options_below(g, u.len() as int),
        canonical_at(u.push(g), u.len() as int),
        0 <= r < u.len(),
        form_equals(u, g, r),
    ensures
        same_options(u[r], g),
{
    let n = u.len() as int;
    let w = u.push(g);
    if exists|e: int| 0 <= e < u.len() && same_options(#[trigger] u[e], g) {
        let e = choose|e: int| 0 <= e < u.len() && same_options(#[trigger] u[e], g);
        assert(options_below(g, e)) by {
            assert forall|x: int| #[trigger] g.left.contains(x) implies 0 <= x < e by {
                assert(u[e].left.contains(x));
            }
            assert forall|x: int| #[trigger] g.right.contains(x) implies 0 <= x < e by {
                assert(u[e].right.contains(x));
            }
        }
        assert(w[e] == u[e]);
        lemma_leq_copy(w, r, e, n);
        lemma_leq_same_games(u, w, n, e, e, r, r);
        lemma_leq_same_games(u, w, n, r, r, e, e);
        lemma_canonical_unique(u, e, r);
    } else {
        lemma_table_extended(u, g);
        lemma_canonical_unique(w, n, r);
    }
}

/// The element of a set of one element.
pub open spec fn sole(s: Set<int>) -> int {
    choose|x: int| s.contains(x)
}

/// The set holds `x` and nothing else.
pub open spec fn is_only(s: Set<int>, x: int) -> bool {
    s =~= Set::<int>::empty().insert(x)
}

/// The sole element of a set of one element is that element.
pub proof fn lemma_sole(s: Set<int>, x: int)
    requires
        is_only(s, x),
    ensures
        sole(s) == x,
{
    assert(s.contains(x));
}

/// The game at `a` is the integer `n`: zero has no options; a positive
/// integer has the integer before it as its one left option and no right
/// option; a negative integer has the integer after it as its one right option
/// and no left option.
pub open spec fn is_integer(u: Seq<Node>, a: int, n: int) -> bool
    decreases
            (if n >= 0 {
                n
            } else {
                -n
            }),
{
    &&& 0 <= a < u.len()
    &&& if n == 0 {
        u[a].left =~= Set::<int>::empty() && u[a].right =~= Set::<int>::empty()
    } else if n > 0 {
        u[a].right =~= Set::<int>::empty() && is_only(u[a].left, sole(u[a].left)) && is_integer(
            u,
            sole(u[a].left),
            n - 1,
        )
    } else {
        u[a].left =~= Set::<int>::empty() && is_only(u[a].right, sole(u[a].right)) && is_integer(
            u,
            sole(u[a].right),
            n + 1,
        )
    }
}

/// An integer stays the same integer when the table grows.
pub proof fn lemma_integer_prefix(u: Seq<Node>, v: Seq<Node>, a: int, n: int)
    requires
        is_prefix(u, v),
        is_integer(u, a, n),
    ensures
        is_integer(v, a, n),
    decreases
            (if n >= 0 {
                n
            } else {
                -n
            }),
{
    assert(same_options(u[a], v[a]));
    if n > 0 {
        lemma_integer_prefix(u, v, sole(u[a].left), n - 1);
    } else if n < 0 {
        lemma_integer_prefix(u, v, sole(u[a].right), n + 1);
    }
}

/// A table of canonical forms holds every integer at one place at most.
pub proof fn lemma_integer_unique(u: Seq<Node>, a: int, b: int, n: int)
    requires
        canonical_table(u),
        is_integer(u, a, n),
        is_integer(u, b, n),
    ensures
        a == b,
    decreases
            (if n >= 0 {
                n
            } else {
                -n
            }),
{
    if n > 0 {
        lemma_integer_unique(u, sole(u[a].left), sole(u[b].left), n - 1);
    } else if n < 0 {
        lemma_integer_unique(u, sole(u[a].right), sole(u[b].right), n + 1);
    }
    assert(same_options(u[a], u[b]));
}

/// Two to the power `n`.
pub open spec fn pow2(n: int) -> nat
    decreases n,
{
    if n <= 0 {
        1
    } else {
        2 * pow2(n - 1)
    }
}

/// The sum of `pow2(x)` over the places `x` of `s` below `n`.
pub open spec fn weight(s: Set<int>, n: int) -> nat
    decreases n,
{
    if n <= 0 {
        0
    } else {
        weight(s, n - 1) + if s.contains(n - 1) {
            pow2(n - 1)
        } else {
            0
        }
    }
}

/// A larger exponent gives at least as much.
pub proof fn lemma_pow2_monotonic(m: int, n: int)
    requires
        m <= n,
    ensures
        pow2(m) <= pow2(n),
        pow2(m) >= 1,
    decreases n,
{
    if n > 0 && m < n {
        lemma_pow2_monotonic(m, n - 1);
    } else if m > 0 {
        lemma_pow2_monotonic(m - 1, m - 1);
    }
}

/// The weight below `n` is less than `pow2(n)`.
pub proof fn lemma_weight_bound(s: Set<int>, n: int)
    ensures
        weight(s, n) < pow2(n),
    decreases n,
{
    if n > 0 {
        lemma_weight_bound(s, n - 1);
    }
}

/// Places from `m` on that are not in the set add nothing.
pub proof fn lemma_weight_below(s: Set<int>, m: int, n: int)
    requires
        m <= n,
        forall|x: int| s.contains(x) ==> x < m,
    ensures
        weight(s, n) == weight(s, m),
    decreases n - m,
{
    if m < n {
        lemma_weight_below(s, m, n - 1);
    }
}

/// Taking a place out takes its power of two off the weight.
pub proof fn lemma_weight_remove(s: Set<int>, x: int, n: int)
    requires
        0 <= x < n,
        s.contains(x),
    ensures
        weight(s.remove(x), n) + pow2(x) == weight(s, n),
    decreases n,
{
    if x == n - 1 {
        lemma_weight_same(s, s.remove(x), n - 1);
    } else {
        lemma_weight_remove(s, x, n - 1);
    }
}

/// Sets that agree below `n` weigh the same below `n`.
pub proof fn lemma_weight_same(s: Set<int>, t: Set<int>, n: int)
    requires
        forall|x: int| 0 <= x < n ==> s.contains(x) == t.contains(x),
    ensures
        weight(s, n) == weight(t, n),
    decreases n,
{
    if n > 0 {
        lemma_weight_same(s, t, n - 1);
    }
}

/// A union weighs at most what its parts weigh together.
pub proof fn lemma_weight_union(s: Set<int>, t: Set<int>, n: int)
    ensures
        weight(s.union(t), n) <= weight(s, n) + weight(t, n),
    decreases n,
{
    if n > 0 {
        lemma_weight_union(s, t, n - 1);
    }
}

/// Replacing the place `x` by places below `x` makes a set lighter.
pub proof fn lemma_weight_replace(s: Set<int>, t: Set<int>, x: int, n: int)
    requires
        0 <= x < n,
        s.contains(x),
        forall|y: int| t.contains(y) ==> y < x,
    ensures
        weight(s.remove(x).union(t), n) < weight(s, n),
{
    lemma_weight_union(s.remove(x), t, n);
    lemma_weight_remove(s, x, n);
    lemma_weight_below(t, x, n);
    lemma_weight_bound(t, x);
}

} // verus!
