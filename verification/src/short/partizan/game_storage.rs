//! The table of canonical forms.
//!
//! Every game that the table holds is in canonical form and is held once, so
//! that two games of the table have the same value exactly when they are the
//! same entry. A game is named by the place of its entry.

use crate::short::partizan::universe::{
    canonical_at, canonical_table, closed, form_equals, forms_equal, is_prefix, leq,
    lemma_bypass_reversible_left, lemma_bypass_reversible_right, lemma_drop_dominated_left,
    lemma_drop_dominated_right, lemma_forms_equal_same_options, lemma_forms_equal_transitive,
    lemma_leq_same_games, lemma_table_extended, lemma_weight_remove, lemma_weight_replace,
    lemma_pow2_monotonic, no_dominated, no_reversible, options_below, same_options, weight, Node,
    is_integer, lemma_construct_result, lemma_integer_prefix, is_only, lemma_sole,
};
use crate::short::partizan::algebra::{
    lemma_negated_entry, lemma_negated_entry_fresh, lemma_negated_form, lemma_negation_map_prefix,
    lemma_sum_map_insert, lemma_sum_map_prefix, negated_options, negation_map, pair, sum_map,
    sum_node, sums_of_options_known, is_sum_at, lemma_sum_node_stable, lists_sums,
    lemma_lists_option_sums,
};
use crate::short::partizan::id_list::{
    all_below, copy_of, lemma_places_remove, lemma_sorted_unique, places, same_list, sorted_insert,
    strictly_increasing,
};
use crate::short::partizan::number_up_star::{detect, lemma_tag_stable, tag_of, tags_wf, Nus};
use crate::text::string_of;
use std::collections::HashMap;
use vstd::prelude::*;

verus! {

/// A game of a table of canonical forms, named by its place in the table.
#[derive(Debug, Clone, Copy, Hash, PartialEq, Eq, Structural)]
pub struct Game {
    pub id: usize,
}

/// The left and right options of a game that is about to be built.
#[derive(Debug, Clone)]
pub struct Moves {
    pub left: Vec<Game>,
    pub right: Vec<Game>,
}

/// The places that a list of games names.
pub open spec fn game_places(s: Seq<Game>) -> Set<int> {
    Set::new(|x: int| exists|k: int| 0 <= k < s.len() && s[k].id == x)
}

/// The game with the given options.
pub open spec fn moves_node(moves: Moves) -> Node {
    Node { left: game_places(moves.left@), right: game_places(moves.right@) }
}

/// The left options of a game (`left`), or its right options.
pub open spec fn side(g: Node, left: bool) -> Set<int> {
    if left {
        g.left
    } else {
        g.right
    }
}

/// One number for a pair of places.
pub open spec fn pair_key(a: int, b: int) -> int {
    a * 0x1_0000_0000_0000_0000 + b
}

/// Different pairs have different keys.
pub proof fn lemma_pair_key_injective(a: int, b: int, c: int, d: int)
    requires
        0 <= b < 0x1_0000_0000_0000_0000,
        0 <= d < 0x1_0000_0000_0000_0000,
        pair_key(a, b) == pair_key(c, d),
    ensures
        a == c,
        b == d,
{
    assert(a == c) by (nonlinear_arith)
        requires
            0 <= b < 0x1_0000_0000_0000_0000,
            0 <= d < 0x1_0000_0000_0000_0000,
            a * 0x1_0000_0000_0000_0000 + b == c * 0x1_0000_0000_0000_0000 + d,
    ;
}

fn make_key(a: usize, b: usize) -> (k: u128)
    ensures
        k == pair_key(a as int, b as int),
{
    assert(a * 0x1_0000_0000_0000_0000 + b <= 0xffff_ffff_ffff_ffff * 0x1_0000_0000_0000_0000
        + 0xffff_ffff_ffff_ffff) by (nonlinear_arith)
        requires
            0 <= a <= 0xffff_ffff_ffff_ffff,
            0 <= b <= 0xffff_ffff_ffff_ffff,
    ;
    (a as u128) * 0x1_0000_0000_0000_0000u128 + (b as u128)
}

/// The game with the given lists of options.
pub open spec fn form(left: Seq<usize>, right: Seq<usize>) -> Node {
    Node { left: places(left), right: places(right) }
}

/// A game put at the end of a table is compared with the games of the table
/// as the table compares them among themselves.
pub proof fn lemma_leq_extended(u: Seq<Node>, g: Node, a: int, b: int)
    requires
        0 <= a < u.len(),
        0 <= b < u.len(),
    ensures
        leq(u.push(g), a, b) == leq(u, a, b),
{
    lemma_leq_same_games(u, u.push(g), u.len() as int, a, a, b, b);
}

/// A game whose option lists hold places below `n` has its options below `n`.
pub proof fn lemma_form_below(left: Seq<usize>, right: Seq<usize>, n: int)
    requires
        all_below(left, n),
        all_below(right, n),
    ensures
        options_below(form(left, right), n),
{
}

/// The places of the first `k + 1` elements are those of the first `k` and
/// the next one.
pub proof fn lemma_places_push(s: Seq<usize>, k: int)
    requires
        0 <= k < s.len(),
    ensures
        places(s.subrange(0, k + 1)) =~= places(s.subrange(0, k)).insert(s[k] as int),
{
    let a = s.subrange(0, k + 1);
    let b = s.subrange(0, k);
    assert forall|x: int| places(a).contains(x) == places(b).insert(s[k] as int).contains(x) by {
        if places(a).contains(x) {
            let i = choose|i: int| 0 <= i < a.len() && a[i] == x;
            if i < k {
                assert(b[i] == x);
            }
        }
        if places(b).contains(x) {
            let i = choose|i: int| 0 <= i < b.len() && b[i] == x;
            assert(a[i] == x);
        }
        if x == s[k] {
            assert(a[k] == x);
        }
    }
}

/// The places of a list of games, in order.
pub open spec fn ids_of(s: Seq<Game>) -> Seq<int> {
    Seq::new(s.len(), |i: int| s[i].id as int)
}

/// Where `left` lists the sums of the left options of `a` with `b` and then
/// those of `a` with the left options of `b`, and `right` does so for the
/// right options, the game with the options `left` and `right` is the game
/// that makes up the sum of `a` and `b`.
pub proof fn lemma_sum_node_built(
    u: Seq<Node>,
    t: Map<(int, int), int>,
    a: int,
    b: int,
    a_left: Seq<usize>,
    b_left: Seq<usize>,
    a_right: Seq<usize>,
    b_right: Seq<usize>,
    left: Seq<Game>,
    right: Seq<Game>,
)
    requires
        places(a_left) =~= u[a].left,
        places(b_left) =~= u[b].left,
        places(a_right) =~= u[a].right,
        places(b_right) =~= u[b].right,
        lists_sums(t, a, b, a_left, b_left, ids_of(left)),
        lists_sums(t, a, b, a_right, b_right, ids_of(right)),
    ensures
        sum_node(u, t, a, b) == (Node { left: game_places(left), right: game_places(right) }),
        sums_of_options_known(u, t, a, b),
{
    lemma_lists_option_sums(t, a, b, a_left, b_left, ids_of(left));
    lemma_lists_option_sums(t, a, b, a_right, b_right, ids_of(right));
    let l = ids_of(left);
    let r = ids_of(right);
    assert(game_places(left) =~= Set::new(|s: int| exists|k: int| 0 <= k < l.len() && l[k] == s)) by {
        assert forall|s: int| game_places(left).contains(s) == (exists|k: int|
            0 <= k < l.len() && l[k] == s) by {
            if game_places(left).contains(s) {
                let k = choose|k: int| 0 <= k < left.len() && left[k].id == s;
                assert(l[k] == s);
            }
            if exists|k: int| 0 <= k < l.len() && l[k] == s {
                let k = choose|k: int| 0 <= k < l.len() && l[k] == s;
                assert(left[k].id == s);
            }
        }
    }
    assert(game_places(right) =~= Set::new(|s: int| exists|k: int| 0 <= k < r.len() && r[k] == s)) by {
        assert forall|s: int| game_places(right).contains(s) == (exists|k: int|
            0 <= k < r.len() && r[k] == s) by {
            if game_places(right).contains(s) {
                let k = choose|k: int| 0 <= k < right.len() && right[k].id == s;
                assert(r[k] == s);
            }
            if exists|k: int| 0 <= k < r.len() && r[k] == s {
                let k = choose|k: int| 0 <= k < r.len() && r[k] == s;
                assert(right[k].id == s);
            }
        }
    }
}

/// `out` lists the sums of the left options (`left`), or of the right
/// options, of `a` with `b` and then of those of `b` with `a`.
pub open spec fn gathered(
    u: Seq<Node>,
    t: Map<(int, int), int>,
    a: int,
    b: int,
    left: bool,
    out: Seq<Game>,
) -> bool {
    exists|xs: Seq<usize>, ys: Seq<usize>|
        places(xs) =~= side(u[a], left) && places(ys) =~= side(u[b], left) && #[trigger] lists_sums(
            t,
            a,
            b,
            xs,
            ys,
            ids_of(out),
        )
}

/// The game with the gathered sums as options is the game that makes up the
/// sum.
pub proof fn lemma_node_of_sums(
    u0: Seq<Node>,
    u1: Seq<Node>,
    u: Seq<Node>,
    t1: Map<(int, int), int>,
    t: Map<(int, int), int>,
    a: int,
    b: int,
    left: Seq<Game>,
    right: Seq<Game>,
)
    requires
        is_prefix(u0, u1),
        is_prefix(u1, u),
        0 <= a < u0.len(),
        0 <= b < u0.len(),
        t1.submap_of(t),
        gathered(u0, t1, a, b, true, left),
        gathered(u1, t, a, b, false, right),
    ensures
        sum_node(u, t, a, b) == (Node { left: game_places(left), right: game_places(right) }),
        sums_of_options_known(u, t, a, b),
{
    let (xs, ys) = choose|xs: Seq<usize>, ys: Seq<usize>|
        places(xs) =~= side(u0[a], true) && places(ys) =~= side(u0[b], true) && #[trigger] lists_sums(
            t1,
            a,
            b,
            xs,
            ys,
            ids_of(left),
        );
    let (xr, yr) = choose|xs: Seq<usize>, ys: Seq<usize>|
        places(xs) =~= side(u1[a], false) && places(ys) =~= side(u1[b], false)
            && #[trigger] lists_sums(t, a, b, xs, ys, ids_of(right));
    assert(same_options(u0[a], u1[a]) && same_options(u1[a], u[a]));
    assert(same_options(u0[b], u1[b]) && same_options(u1[b], u[b]));
    assert(lists_sums(t, a, b, xs, ys, ids_of(left))) by {
        assert forall|k: int| 0 <= k < xs.len() implies is_sum_at(
            t,
            #[trigger] xs[k] as int,
            b,
            ids_of(left)[k],
        ) by {
            assert(is_sum_at(t1, xs[k] as int, b, ids_of(left)[k]));
        }
        assert forall|k: int| 0 <= k < ys.len() implies is_sum_at(
            t,
            #[trigger] ys[k] as int,
            a,
            ids_of(left)[xs.len() + k],
        ) by {
            assert(is_sum_at(t1, ys[k] as int, a, ids_of(left)[xs.len() + k]));
        }
    }
    lemma_sum_node_built(u, t, a, b, xs, ys, xr, yr, left, right);
}

/// The text of the game at `id`: what the game is told to be, where its tag
/// says so, else its left options and its right options between braces, with
/// a bar between the two lists.
pub open spec fn game_text(
    tags: Seq<Option<Nus>>,
    lefts: Seq<Seq<usize>>,
    rights: Seq<Seq<usize>>,
    id: int,
) -> Seq<char>
    decreases id, 1int, 0int,
{
    if 0 <= id < tags.len() && id < lefts.len() && id < rights.len() {
        match tags[id] {
            Some(t) => t.text(),
            None => seq!['{'] + list_text(tags, lefts, rights, lefts[id], lefts[id].len() as int, id)
                + seq!['|'] + list_text(tags, lefts, rights, rights[id], rights[id].len() as int, id)
                + seq!['}'],
        }
    } else {
        Seq::<char>::empty()
    }
}

/// The texts of the first `k` games of the list `s`, with commas between
/// them.
pub open spec fn list_text(
    tags: Seq<Option<Nus>>,
    lefts: Seq<Seq<usize>>,
    rights: Seq<Seq<usize>>,
    s: Seq<usize>,
    k: int,
    bound: int,
) -> Seq<char>
    decreases bound, 0int, k,
{
    if k <= 0 || k > s.len() {
        Seq::<char>::empty()
    } else {
        list_text(tags, lefts, rights, s, k - 1, bound) + (if k > 1 {
            seq![',']
        } else {
            Seq::<char>::empty()
        }) + (if 0 <= s[k - 1] < bound {
            game_text(tags, lefts, rights, s[k - 1] as int)
        } else {
            Seq::<char>::empty()
        })
    }
}

/// The lists that the vectors hold.
pub open spec fn lists_of(v: Seq<Vec<usize>>) -> Seq<Seq<usize>> {
    Seq::new(v.len(), |i: int| v[i]@)
}

/// Every entry of every list is below the place of the list.
pub open spec fn lists_go_down(v: Seq<Vec<usize>>) -> bool {
    forall|i: int, k: int| 0 <= i < v.len() && 0 <= k < v[i]@.len() ==> (#[trigger] v[i]@[k]) < i
}

/// What the text of a list is with one more game.
pub proof fn lemma_list_text_step(
    tags: Seq<Option<Nus>>,
    lefts: Seq<Seq<usize>>,
    rights: Seq<Seq<usize>>,
    s: Seq<usize>,
    k: int,
    bound: int,
)
    requires
        0 <= k < s.len(),
        s[k] < bound,
    ensures
        list_text(tags, lefts, rights, s, k + 1, bound) == list_text(
            tags,
            lefts,
            rights,
            s,
            k,
            bound,
        ) + (if k > 0 {
            seq![',']
        } else {
            Seq::<char>::empty()
        }) + game_text(tags, lefts, rights, s[k] as int),
{
    assert((k + 1) - 1 == k);
}

/// Appends the texts of the games of the list `s`, which is the list of left
/// options (`on_left`) or of right options of the game at `id`, to `out`, with
/// commas between them.
fn render_options(
    tags: &Vec<Option<Nus>>,
    left: &Vec<Vec<usize>>,
    right: &Vec<Vec<usize>>,
    id: usize,
    on_left: bool,
    out: &mut Vec<char>,
)
    requires
        tags@.len() == left@.len(),
        right@.len() == left@.len(),
        tags_wf(tags@),
        lists_go_down(left@),
        lists_go_down(right@),
        id < left@.len(),
    ensures
        final(out)@ == old(out)@ + list_text(
            tags@,
            lists_of(left@),
            lists_of(right@),
            if on_left {
                left@[id as int]@
            } else {
                right@[id as int]@
            },
            (if on_left {
                left@[id as int]@
            } else {
                right@[id as int]@
            }).len() as int,
            id as int,
        ),
    decreases id, 0int,
{
    let list: &Vec<usize> = if on_left {
        &left[id]
    } else {
        &right[id]
    };
    let ghost s = list@;
    let ghost start = out@;
    let mut k: usize = 0;
    while k < list.len()
        invariant
            tags@.len() == left@.len(),
            right@.len() == left@.len(),
            tags_wf(tags@),
            lists_go_down(left@),
            lists_go_down(right@),
            id < left@.len(),
            s == list@,
            forall|j: int| 0 <= j < s.len() ==> #[trigger] s[j] < id,
            k <= s.len(),
            out@ == start + list_text(
                tags@,
                lists_of(left@),
                lists_of(right@),
                s,
                k as int,
                id as int,
            ),
        decreases s.len() - k,
    {
        let ghost so_far = list_text(tags@, lists_of(left@), lists_of(right@), s, k as int, id as int);
        if k > 0 {
            out.push(',');
        }
        let ghost with_comma = out@;
        render_entry(tags, left, right, list[k], out);
        proof {
            lemma_list_text_step(tags@, lists_of(left@), lists_of(right@), s, k as int, id as int);
            let sep = if k > 0 {
                seq![',']
            } else {
                Seq::<char>::empty()
            };
            assert(with_comma =~= start + so_far + sep);
            assert(out@ =~= start + (so_far + sep + game_text(
                tags@,
                lists_of(left@),
                lists_of(right@),
                s[k as int] as int,
            )));
        }
        k += 1;
    }
}

/// Appends the text of the game at `id` to `out`.
fn render_entry(
    tags: &Vec<Option<Nus>>,
    left: &Vec<Vec<usize>>,
    right: &Vec<Vec<usize>>,
    id: usize,
    out: &mut Vec<char>,
)
    requires
        tags@.len() == left@.len(),
        right@.len() == left@.len(),
        tags_wf(tags@),
        lists_go_down(left@),
        lists_go_down(right@),
        id < left@.len(),
    ensures
        final(out)@ == old(out)@ + game_text(tags@, lists_of(left@), lists_of(right@), id as int),
    decreases id, 1int,
{
    match tags[id] {
        Some(t) => {
            t.render(out);
        },
        None => {
            out.push('{');
            let ghost a = out@;
            render_options(tags, left, right, id, true, out);
            let ghost b = out@;
            out.push('|');
            let ghost c = out@;
            render_options(tags, left, right, id, false, out);
            let ghost d = out@;
            out.push('}');
            proof {
                let lt = list_text(
                    tags@,
                    lists_of(left@),
                    lists_of(right@),
                    left@[id as int]@,
                    left@[id as int]@.len() as int,
                    id as int,
                );
                let rt = list_text(
                    tags@,
                    lists_of(left@),
                    lists_of(right@),
                    right@[id as int]@,
                    right@[id as int]@.len() as int,
                    id as int,
                );
                assert(a =~= old(out)@ + seq!['{']);
                assert(c =~= b + seq!['|']);
                assert(out@ =~= d + seq!['}']);
                assert(out@ =~= old(out)@ + (seq!['{'] + lt + seq!['|'] + rt + seq!['}']));
            }
        },
    }
}

/// One step of the fingerprint: `h` after taking in `x`.
pub open spec fn mix(h: u64, x: u64) -> u64 {
    h.wrapping_mul(0x100_0000_01b3).wrapping_add(x)
}

/// The fingerprint `h` after taking in the list `s`.
pub open spec fn mix_all(s: Seq<usize>, h: u64) -> u64
    decreases s.len(),
{
    if s.len() == 0 {
        h
    } else {
        mix(mix_all(s.drop_last(), h), s.last() as u64)
    }
}

/// A number for a pair of option lists, by which the table files its games.
#[verifier::opaque]
pub open spec fn fingerprint(left: Seq<usize>, right: Seq<usize>) -> u64 {
    mix_all(right, mix(mix_all(left, 0xcbf2_9ce4_8422_2325), 0xffff_ffff_ffff_ffff))
}

fn mix_list(s: &Vec<usize>, h: u64) -> (r: u64)
    ensures
        r == mix_all(s@, h),
{
    let mut r = h;
    let mut i: usize = 0;
    while i < s.len()
        invariant
            i <= s@.len(),
            r == mix_all(s@.subrange(0, i as int), h),
        decreases s@.len() - i,
    {
        proof {
            assert(s@.subrange(0, i + 1).drop_last() =~= s@.subrange(0, i as int));
        }
        r = r.wrapping_mul(0x100_0000_01b3).wrapping_add(s[i] as u64);
        i += 1;
    }
    proof {
        assert(s@.subrange(0, s@.len() as int) =~= s@);
    }
    r
}

fn fingerprint_of(left: &Vec<usize>, right: &Vec<usize>) -> (r: u64)
    ensures
        r == fingerprint(left@, right@),
{
    reveal(fingerprint);
    let h = mix_list(left, 0xcbf2_9ce4_8422_2325);
    let h = h.wrapping_mul(0x100_0000_01b3).wrapping_add(0xffff_ffff_ffff_ffff);
    mix_list(right, h)
}

/// The option `x` of the game at `n`, a left option (`on_left`) or a right
/// one, is reversible through its own option `via`.
pub open spec fn reversible_via(w: Seq<Node>, n: int, on_left: bool, x: int, via: int) -> bool {
    &&& 0 <= x < n
    &&& if on_left {
        w[n].left.contains(x) && w[x].right.contains(via) && leq(w, via, n)
    } else {
        w[n].right.contains(x) && w[x].left.contains(via) && leq(w, n, via)
    }
}

/// The table of canonical forms.
pub struct GameStorage {
    left: Vec<Vec<usize>>,
    right: Vec<Vec<usize>>,
    index: HashMap<u64, Vec<usize>>,
    leq_memo: HashMap<u128, bool>,
    negation: Vec<Option<usize>>,
    sum_memo: HashMap<u128, usize>,
    tags: Vec<Option<Nus>>,
}

impl View for GameStorage {
    type V = Seq<Node>;

    /// The games of the table, each with the places of its options.
    closed spec fn view(&self) -> Seq<Node> {
        Seq::new(
            self.left@.len(),
            |i: int| Node { left: places(self.left@[i]@), right: places(self.right@[i]@) },
        )
    }
}

impl GameStorage {
    /// The table is one of canonical forms, and what it remembers is true.
    pub closed spec fn wf(&self) -> bool {
        &&& self.right@.len() == self.left@.len()
        &&& canonical_table(self@)
        &&& forall|i: int|
            0 <= i < self.left@.len() ==> strictly_increasing(#[trigger] self.left@[i]@)
        &&& forall|i: int|
            0 <= i < self.left@.len() ==> strictly_increasing(#[trigger] self.right@[i]@)
        &&& self.leq_memo_sound()
        &&& self.index_sound()
        &&& self.negation@.len() == self.left@.len()
        &&& negation_map(self@, self.negations())
        &&& sum_map(self@, self.sums())
        &&& self.tags_sound()
    }

    spec fn tags_sound(&self) -> bool {
        &&& self.tags@.len() == self.left@.len()
        &&& tags_wf(self.tags@)
        &&& forall|i: int|
            0 <= i < self.left@.len() ==> #[trigger] self.tags@[i] == tag_of(
                self.tags@,
                self.left@[i]@,
                self.right@[i]@,
            )
    }

    /// What each game of the table is told to be from its options.
    pub closed spec fn tag_list(&self) -> Seq<Option<Nus>> {
        self.tags@
    }

    /// The lists of left options of the games of the table, each in the
    /// order of the places.
    pub closed spec fn left_lists(&self) -> Seq<Seq<usize>> {
        lists_of(self.left@)
    }

    /// The lists of right options of the games of the table, each in the
    /// order of the places.
    pub closed spec fn right_lists(&self) -> Seq<Seq<usize>> {
        lists_of(self.right@)
    }

    /// The option lists name the options of the games, each once and in
    /// rising order, and every tag is what its game is told to be from its
    /// options.
    pub proof fn lemma_lists(&self, i: int)
        requires
            self.wf(),
            0 <= i < self@.len(),
        ensures
            self.left_lists().len() == self@.len(),
            self.right_lists().len() == self@.len(),
            self.tag_list().len() == self@.len(),
            places(self.left_lists()[i]) == self@[i].left,
            places(self.right_lists()[i]) == self@[i].right,
            strictly_increasing(self.left_lists()[i]),
            strictly_increasing(self.right_lists()[i]),
            self.tag_list()[i] == tag_of(self.tag_list(), self.left_lists()[i], self.right_lists()[i]),
    {
    }

    /// A table that has grown keeps the lists and the tags of its games.
    pub proof fn lemma_grows_keeps_lists(&self, old: &Self, i: int)
        requires
            old.wf(),
            self.wf(),
            self.grows_from(old),
            0 <= i < old@.len(),
        ensures
            self.left_lists()[i] == old.left_lists()[i],
            self.right_lists()[i] == old.right_lists()[i],
            self.tag_list()[i] == old.tag_list()[i],
            i < self@.len(),
    {
        assert(self.left@[i] == old.left@[i]);
        assert(self.right@[i] == old.right@[i]);
    }

    /// The options of every game come before the game.
    pub proof fn lemma_lists_go_down(&self)
        requires
            self.wf(),
        ensures
            self.left_lists().len() == self@.len(),
            self.right_lists().len() == self@.len(),
            self.tag_list().len() == self@.len(),
            forall|i: int, k: int|
                0 <= i < self@.len() && 0 <= k < self.left_lists()[i].len() ==> (
                #[trigger] self.left_lists()[i][k]) < i,
            forall|i: int, k: int|
                0 <= i < self@.len() && 0 <= k < self.right_lists()[i].len() ==> (
                #[trigger] self.right_lists()[i][k]) < i,
            tags_wf(self.tag_list()),
    {
        assert forall|i: int, k: int|
            0 <= i < self@.len() && 0 <= k < self.left_lists()[i].len() implies (
        #[trigger] self.left_lists()[i][k]) < i by {
            assert(self@[i].left.contains(self.left@[i]@[k] as int));
        }
        assert forall|i: int, k: int|
            0 <= i < self@.len() && 0 <= k < self.right_lists()[i].len() implies (
        #[trigger] self.right_lists()[i][k]) < i by {
            assert(self@[i].right.contains(self.right@[i]@[k] as int));
        }
    }

    /// The list of the left options (`left`), or of the right options, of
    /// the game at `id`.
    pub fn option_list(&self, id: usize, left: bool) -> (list: &Vec<usize>)
        requires
            self.wf(),
            id < self@.len(),
        ensures
            list@ == (if left {
                self.left_lists()[id as int]
            } else {
                self.right_lists()[id as int]
            }),
    {
        if left {
            &self.left[id]
        } else {
            &self.right[id]
        }
    }

    /// What the game at `id` is told to be from its options.
    pub fn tag(&self, id: usize) -> (t: Option<Nus>)
        requires
            self.wf(),
            id < self@.len(),
        ensures
            t == self.tag_list()[id as int],
    {
        self.tags[id]
    }

    /// The text of the game `g`.
    pub open spec fn display_text(&self, g: Game) -> Seq<char> {
        game_text(self.tag_list(), self.left_lists(), self.right_lists(), g.id as int)
    }

    /// The negatives that the table remembers: a map from games to games.
    pub closed spec fn negations(&self) -> Map<int, int> {
        Map::new(
            |a: int| 0 <= a < self.negation@.len() && self.negation@[a] is Some,
            |a: int| self.negation@[a]->0 as int,
        )
    }

    /// The sums that the table remembers: a map from pairs of games, the
    /// lesser place first, to games.
    pub closed spec fn sums(&self) -> Map<(int, int), int> {
        Map::new(
            |k: (int, int)|
                0 <= k.0 <= k.1 <= usize::MAX && self.sum_memo@.contains_key(
                    pair_key(k.0, k.1) as u128,
                ),
            |k: (int, int)| self.sum_memo@[pair_key(k.0, k.1) as u128] as int,
        )
    }

    /// The table's games keep their option lists as `old` has them.
    pub closed spec fn keeps_entries(&self, old: &Self) -> bool {
        &&& old.left@.len() <= self.left@.len()
        &&& old.right@.len() <= self.right@.len()
        &&& forall|i: int| 0 <= i < old.left@.len() ==> #[trigger] self.left@[i] == old.left@[i]
        &&& forall|i: int| 0 <= i < old.right@.len() ==> #[trigger] self.right@[i] == old.right@[i]
        &&& old.tags@.len() <= self.tags@.len()
        &&& forall|i: int| 0 <= i < old.tags@.len() ==> #[trigger] self.tags@[i] == old.tags@[i]
    }

    /// What holds of every table: it is a table of canonical forms, and its
    /// maps of negatives and of sums are such maps.
    pub proof fn lemma_wf(&self)
        requires
            self.wf(),
        ensures
            canonical_table(self@),
            negation_map(self@, self.negations()),
            sum_map(self@, self.sums()),
    {
    }

    spec fn index_sound(&self) -> bool {
        &&& forall|i: int|
            0 <= i < self.left@.len() ==> self.index@.contains_key(
                #[trigger] fingerprint(self.left@[i]@, self.right@[i]@),
            ) && places(self.index@[fingerprint(self.left@[i]@, self.right@[i]@)]@).contains(i)
        &&& forall|key: u64, k: int|
            self.index@.contains_key(key) && 0 <= k < self.index@[key]@.len()
                ==> #[trigger] self.index@[key]@[k] < self.left@.len()
    }

    spec fn leq_memo_sound(&self) -> bool {
        forall|a: int, b: int|
            0 <= a <= usize::MAX && 0 <= b <= usize::MAX && self.leq_memo@.contains_key(
                #[trigger] pair_key(a, b) as u128,
            ) ==> a < self@.len() && b < self@.len() && self.leq_memo@[pair_key(a, b) as u128]
                == leq(self@, a, b)
    }

    /// The option lists of the games of the table, as they are kept.
    pub closed spec fn entries(&self) -> (
        Seq<Vec<usize>>,
        Seq<Vec<usize>>,
        Seq<Option<usize>>,
        Map<u128, usize>,
        Seq<Option<Nus>>,
    ) {
        (self.left@, self.right@, self.negation@, self.sum_memo@, self.tags@)
    }

    /// This table holds the games of `old` at their places, and maybe more.
    pub open spec fn grows_from(&self, old: &Self) -> bool {
        &&& is_prefix(old@, self@)
        &&& self.keeps_entries(old)
        &&& old.negations().submap_of(self.negations())
        &&& old.sums().submap_of(self.sums())
    }

    /// A table that has grown from one that has grown has grown from the
    /// first.
    pub proof fn lemma_grows_transitive(&self, middle: &Self, old: &Self)
        requires
            middle.grows_from(old),
            self.grows_from(middle),
        ensures
            self.grows_from(old),
    {
        assert forall|i: int| 0 <= i < old@.len() implies same_options(#[trigger] old@[i], self@[i]) by {
            assert(same_options(old@[i], middle@[i]));
            assert(same_options(middle@[i], self@[i]));
        }
        assert forall|i: int| 0 <= i < old.left@.len() implies #[trigger] self.left@[i]
            == old.left@[i] by {
            assert(middle.left@[i] == old.left@[i]);
        }
        assert forall|i: int| 0 <= i < old.right@.len() implies #[trigger] self.right@[i]
            == old.right@[i] by {
            assert(middle.right@[i] == old.right@[i]);
        }
        assert forall|i: int| 0 <= i < old.tags@.len() implies #[trigger] self.tags@[i]
            == old.tags@[i] by {
            assert(middle.tags@[i] == old.tags@[i]);
        }
        assert(old.negations().submap_of(self.negations())) by {
            assert forall|k: int| #[trigger] old.negations().contains_key(k) implies self.negations().contains_key(
                k,
            ) && self.negations()[k] == old.negations()[k] by {
                assert(middle.negations().contains_key(k));
            }
        }
        assert(old.sums().submap_of(self.sums())) by {
            assert forall|k: (int, int)| #[trigger] old.sums().contains_key(k) implies self.sums().contains_key(
                k,
            ) && self.sums()[k] == old.sums()[k] by {
                assert(middle.sums().contains_key(k));
            }
        }
    }

    /// A table has grown from itself, and from one with the same games and
    /// the same maps.
    pub proof fn lemma_grows_reflexive(&self, old: &Self)
        requires
            self@ == old@,
            self.entries() == old.entries(),
        ensures
            self.grows_from(old),
            self.negations() == old.negations(),
            self.sums() == old.sums(),
    {
    }

    /// `g` is a game of this table.
    pub open spec fn has(&self, g: Game) -> bool {
        g.id < self@.len()
    }

    /// Every game of the list is a game of this table.
    pub open spec fn has_all(&self, s: Seq<Game>) -> bool {
        forall|k: int| 0 <= k < s.len() ==> self.has(#[trigger] s[k])
    }

    /// A table of canonical forms stays one: its games are in canonical form
    /// and none of them is there twice.
    pub proof fn lemma_wf_is_canonical(&self)
        requires
            self.wf(),
        ensures
            canonical_table(self@),
    {
    }

    /// An empty table.
    pub fn new() -> (s: Self)
        ensures
            s.wf(),
            s@.len() == 0,
    {
        let s = GameStorage {
            left: Vec::new(),
            right: Vec::new(),
            index: HashMap::new(),
            leq_memo: HashMap::new(),
            negation: Vec::new(),
            sum_memo: HashMap::new(),
            tags: Vec::new(),
        };
        assert(s@.len() == 0);
        s
    }

    /// Number of games in the table.
    pub fn known_games_len(&self) -> (n: usize)
        requires
            self.wf(),
        ensures
            n == self@.len(),
    {
        self.left.len()
    }

    /// Whether `a` is at most `b`: no left option of `a` is at least `b`, and
    /// no right option of `b` is at most `a`. The answer is remembered.
    pub fn leq(&mut self, a: Game, b: Game) -> (r: bool)
        requires
            old(self).wf(),
            old(self).has(a),
            old(self).has(b),
        ensures
            final(self).wf(),
            final(self)@ == old(self)@,
            final(self).entries() == old(self).entries(),
            r == leq(old(self)@, a.id as int, b.id as int),
        decreases a.id + b.id,
    {
        broadcast use vstd::std_specs::hash::group_hash_axioms;

        let key = make_key(a.id, b.id);
        match self.leq_memo.get(&key) {
            Some(v) => {
                return *v;
            },
            None => {},
        }
        let ghost u = self@;
        let ghost lists = self.entries();
        let mut result = true;
        let count = self.left[a.id].len();
        let mut i: usize = 0;
        while i < count && result
            invariant
                self.wf(),
                self@ == u,
                self.entries() == lists,
                a.id < u.len(),
                b.id < u.len(),
                count == self.left@[a.id as int]@.len(),
                i <= count,
                result == forall|k: int|
                    0 <= k < i ==> !leq(u, b.id as int, #[trigger] self.left@[a.id as int]@[k] as int),
            decreases count - i,
        {
            let l = self.left[a.id][i];
            proof {
                assert(u[a.id as int].left.contains(l as int));
            }
            if self.leq(b, Game { id: l }) {
                result = false;
            }
            i += 1;
        }
        let count = self.right[b.id].len();
        let mut i: usize = 0;
        let ghost left_ok = result;
        while i < count && result
            invariant
                self.wf(),
                self@ == u,
                self.entries() == lists,
                a.id < u.len(),
                b.id < u.len(),
                count == self.right@[b.id as int]@.len(),
                i <= count,
                result == (left_ok && forall|k: int|
                    0 <= k < i ==> !leq(u, #[trigger] self.right@[b.id as int]@[k] as int, a.id as int)),
            decreases count - i,
        {
            let r = self.right[b.id][i];
            proof {
                assert(u[b.id as int].right.contains(r as int));
            }
            if self.leq(Game { id: r }, a) {
                result = false;
            }
            i += 1;
        }
        proof {
            assert(result == leq(u, a.id as int, b.id as int)) by {
                if result {
                    assert forall|l: int|
                        0 <= l < a.id && #[trigger] u[a.id as int].left.contains(l) implies !leq(
                        u,
                        b.id as int,
                        l,
                    ) by {
                        let k = choose|k: int|
                            0 <= k < self.left@[a.id as int]@.len() && self.left@[a.id as int]@[k]
                                == l;
                        assert(!leq(u, b.id as int, self.left@[a.id as int]@[k] as int));
                    }
                    assert forall|r: int|
                        0 <= r < b.id && #[trigger] u[b.id as int].right.contains(r) implies !leq(
                        u,
                        r,
                        a.id as int,
                    ) by {
                        let k = choose|k: int|
                            0 <= k < self.right@[b.id as int]@.len() && self.right@[b.id as int]@[k]
                                == r;
                        assert(!leq(u, self.right@[b.id as int]@[k] as int, a.id as int));
                    }
                } else if !left_ok {
                    let k = choose|k: int|
                        0 <= k < self.left@[a.id as int]@.len() && leq(
                            u,
                            b.id as int,
                            #[trigger] self.left@[a.id as int]@[k] as int,
                        );
                    let l = self.left@[a.id as int]@[k] as int;
                    assert(u[a.id as int].left.contains(l));
                } else {
                    let k = choose|k: int|
                        0 <= k < self.right@[b.id as int]@.len() && leq(
                            u,
                            #[trigger] self.right@[b.id as int]@[k] as int,
                            a.id as int,
                        );
                    let r = self.right@[b.id as int]@[k] as int;
                    assert(u[b.id as int].right.contains(r));
                }
            }
        }
        let ghost before = *self;
        self.leq_memo.insert(key, result);
        proof {
            assert(self@ == u);
            assert forall|c: int, d: int|
                0 <= c <= usize::MAX && 0 <= d <= usize::MAX && self.leq_memo@.contains_key(
                    #[trigger] pair_key(c, d) as u128,
                ) implies c < self@.len() && d < self@.len() && self.leq_memo@[pair_key(c, d) as u128]
                == leq(self@, c, d) by {
                assert(0 <= pair_key(c, d) <= u128::MAX) by (nonlinear_arith)
                    requires
                        0 <= c <= 0xffff_ffff_ffff_ffff,
                        0 <= d <= 0xffff_ffff_ffff_ffff,
                        pair_key(c, d) == c * 0x1_0000_0000_0000_0000 + d,
                ;
                if pair_key(c, d) as u128 == key {
                    lemma_pair_key_injective(c, d, a.id as int, b.id as int);
                } else {
                    assert(before.leq_memo@.contains_key(pair_key(c, d) as u128));
                }
            }
        }
        result
    }

    /// Compares the game `x` of the table with the game that has the options
    /// `left` and `right`, which need not be in the table: whether that game
    /// is at most `x` (`form_first`), or `x` at most that game.
    fn compare_with_form(
        &mut self,
        left: &Vec<usize>,
        right: &Vec<usize>,
        x: usize,
        form_first: bool,
    ) -> (r: bool)
        requires
            old(self).wf(),
            x < old(self)@.len(),
            all_below(left@, old(self)@.len() as int),
            all_below(right@, old(self)@.len() as int),
        ensures
            final(self).wf(),
            final(self)@ == old(self)@,
            final(self).entries() == old(self).entries(),
            r == (if form_first {
                leq(old(self)@.push(form(left@, right@)), old(self)@.len() as int, x as int)
            } else {
                leq(old(self)@.push(form(left@, right@)), x as int, old(self)@.len() as int)
            }),
        decreases x,
    {
        let ghost u = self@;
        let ghost lists = self.entries();
        let ghost g = form(left@, right@);
        let ghost w = u.push(g);
        let ghost n = u.len() as int;
        let mut result = true;
        // The options of the form against x, by the table's own order.
        let own: &Vec<usize> = if form_first {
            left
        } else {
            right
        };
        let mut i: usize = 0;
        while i < own.len() && result
            invariant
                self.wf(),
                self@ == u,
                self.entries() == lists,
                x < u.len(),
                all_below(own@, u.len() as int),
                i <= own@.len(),
                result == forall|k: int|
                    0 <= k < i ==> !(if form_first {
                        leq(u, x as int, #[trigger] own@[k] as int)
                    } else {
                        leq(u, own@[k] as int, x as int)
                    }),
            decreases own@.len() - i,
        {
            let o = own[i];
            let hit = if form_first {
                self.leq(Game { id: x }, Game { id: o })
            } else {
                self.leq(Game { id: o }, Game { id: x })
            };
            if hit {
                result = false;
            }
            i += 1;
        }
        // The options of x against the form.
        let ghost own_ok = result;
        let count = if form_first {
            self.right[x].len()
        } else {
            self.left[x].len()
        };
        let ghost theirs: Seq<usize> = if form_first {
            self.right@[x as int]@
        } else {
            self.left@[x as int]@
        };
        let mut i: usize = 0;
        while i < count && result
            invariant
                self.wf(),
                self@ == u,
                self.entries() == lists,
                x < u.len(),
                w == u.push(form(left@, right@)),
                n == u.len(),
                all_below(left@, u.len() as int),
                all_below(right@, u.len() as int),
                count == theirs.len(),
                theirs == (if form_first {
                    self.right@[x as int]@
                } else {
                    self.left@[x as int]@
                }),
                i <= count,
                result == (own_ok && forall|k: int|
                    0 <= k < i ==> !(if form_first {
                        leq(w, #[trigger] theirs[k] as int, n)
                    } else {
                        leq(w, n, theirs[k] as int)
                    })),
            decreases count - i,
        {
            let o = if form_first {
                self.right[x][i]
            } else {
                self.left[x][i]
            };
            proof {
                if form_first {
                    assert(u[x as int].right.contains(o as int));
                } else {
                    assert(u[x as int].left.contains(o as int));
                }
            }
            if self.compare_with_form(left, right, o, !form_first) {
                result = false;
            }
            i += 1;
        }
        proof {
            assert(w[n] == g);
            assert(w[x as int] == u[x as int]);
            let expected = if form_first {
                leq(w, n, x as int)
            } else {
                leq(w, x as int, n)
            };
            if result {
                if form_first {
                    assert forall|l: int| 0 <= l < n && #[trigger] w[n].left.contains(l) implies !leq(
                        w,
                        x as int,
                        l,
                    ) by {
                        let k = choose|k: int| 0 <= k < left@.len() && left@[k] == l;
                        assert(!leq(u, x as int, own@[k] as int));
                        lemma_leq_extended(u, g, x as int, l);
                    }
                    assert forall|r: int|
                        0 <= r < x && #[trigger] w[x as int].right.contains(r) implies !leq(
                        w,
                        r,
                        n,
                    ) by {
                        let k = choose|k: int| 0 <= k < theirs.len() && theirs[k] == r;
                        assert(!leq(w, theirs[k] as int, n));
                    }
                } else {
                    assert forall|l: int|
                        0 <= l < x && #[trigger] w[x as int].left.contains(l) implies !leq(
                        w,
                        n,
                        l,
                    ) by {
                        let k = choose|k: int| 0 <= k < theirs.len() && theirs[k] == l;
                        assert(!leq(w, n, theirs[k] as int));
                    }
                    assert forall|r: int| 0 <= r < n && #[trigger] w[n].right.contains(r) implies !leq(
                        w,
                        r,
                        x as int,
                    ) by {
                        let k = choose|k: int| 0 <= k < right@.len() && right@[k] == r;
                        assert(!leq(u, own@[k] as int, x as int));
                        lemma_leq_extended(u, g, r, x as int);
                    }
                }
                assert(expected);
            } else if !own_ok {
                let k = choose|k: int|
                    0 <= k < own@.len() && (if form_first {
                        leq(u, x as int, #[trigger] own@[k] as int)
                    } else {
                        leq(u, own@[k] as int, x as int)
                    });
                let o = own@[k] as int;
                if form_first {
                    assert(w[n].left.contains(o));
                    lemma_leq_extended(u, g, x as int, o);
                } else {
                    assert(w[n].right.contains(o));
                    lemma_leq_extended(u, g, o, x as int);
                }
                assert(!expected);
            } else {
                let k = choose|k: int|
                    0 <= k < theirs.len() && (if form_first {
                        leq(w, #[trigger] theirs[k] as int, n)
                    } else {
                        leq(w, n, theirs[k] as int)
                    });
                let o = theirs[k] as int;
                if form_first {
                    assert(u[x as int].right.contains(o));
                } else {
                    assert(u[x as int].left.contains(o));
                }
                assert(!expected);
            }
        }
        result
    }

    /// Looks for an option of the game with the options `left` and `right`
    /// that is reversible: the place of the option in its list, and the
    /// option of it through which it reverses.
    #[verifier::loop_isolation(false)]
    fn find_reversible(&mut self, left: &Vec<usize>, right: &Vec<usize>, on_left: bool) -> (r:
        Option<(usize, usize)>)
        requires
            old(self).wf(),
            all_below(left@, old(self)@.len() as int),
            all_below(right@, old(self)@.len() as int),
        ensures
            final(self).wf(),
            final(self)@ == old(self)@,
            final(self).entries() == old(self).entries(),
            match r {
                Some((i, via)) => i < (if on_left {
                    left@
                } else {
                    right@
                }).len() && reversible_via(
                    old(self)@.push(form(left@, right@)),
                    old(self)@.len() as int,
                    on_left,
                    (if on_left {
                        left@
                    } else {
                        right@
                    })[i as int] as int,
                    via as int,
                ),
                None => forall|x: int, via: int|
                    !reversible_via(
                        old(self)@.push(form(left@, right@)),
                        old(self)@.len() as int,
                        on_left,
                        x,
                        via,
                    ),
            },
    {
        let ghost u = self@;
        let ghost lists = self.entries();
        let ghost w = u.push(form(left@, right@));
        let ghost n = u.len() as int;
        let side: &Vec<usize> = if on_left {
            left
        } else {
            right
        };
        let mut i: usize = 0;
        while i < side.len()
            invariant
                self.wf(),
                self@ == u,
                self.entries() == lists,
                w == u.push(form(left@, right@)),
                n == u.len(),
                all_below(left@, n),
                all_below(right@, n),
                side@ == (if on_left {
                    left@
                } else {
                    right@
                }),
                i <= side@.len(),
                forall|k: int, via: int|
                    0 <= k < i ==> !#[trigger] reversible_via(w, n, on_left, side@[k] as int, via),
            decreases side@.len() - i,
        {
            let x = side[i];
            let count = if on_left {
                self.right[x].len()
            } else {
                self.left[x].len()
            };
            let ghost theirs: Seq<usize> = if on_left {
                self.right@[x as int]@
            } else {
                self.left@[x as int]@
            };
            let mut j: usize = 0;
            while j < count
                invariant
                    self.wf(),
                    self@ == u,
                    self.entries() == lists,
                    w == u.push(form(left@, right@)),
                    n == u.len(),
                    all_below(left@, n),
                    all_below(right@, n),
                    side@ == (if on_left {
                        left@
                    } else {
                        right@
                    }),
                    i < side@.len(),
                    x == side@[i as int],
                    (x as int) < n,
                    count == theirs.len(),
                    theirs == (if on_left {
                        self.right@[x as int]@
                    } else {
                        self.left@[x as int]@
                    }),
                    j <= count,
                    forall|m: int|
                        0 <= m < j ==> !#[trigger] reversible_via(w, n, on_left, x as int, theirs[m] as int),
                decreases count - j,
            {
                let via = if on_left {
                    self.right[x][j]
                } else {
                    self.left[x][j]
                };
                proof {
                    assert(w[x as int] == u[x as int]);
                    assert(w[n] == form(left@, right@));
                    if on_left {
                        assert(u[x as int].right.contains(via as int));
                        assert(w[n].left.contains(x as int));
                    } else {
                        assert(u[x as int].left.contains(via as int));
                        assert(w[n].right.contains(x as int));
                    }
                }
                if self.compare_with_form(left, right, via, !on_left) {
                    return Some((i, via));
                }
                j += 1;
            }
            proof {
                assert forall|via: int| !reversible_via(w, n, on_left, x as int, via) by {
                    assert(w[x as int] == u[x as int]);
                    if reversible_via(w, n, on_left, x as int, via) {
                        let m = choose|m: int| 0 <= m < theirs.len() && theirs[m] == via;
                        assert(!reversible_via(w, n, on_left, x as int, theirs[m] as int));
                    }
                }
            }
            i += 1;
        }
        proof {
            assert forall|x: int, via: int| !reversible_via(w, n, on_left, x, via) by {
                assert(w[n] == form(left@, right@));
                if reversible_via(w, n, on_left, x, via) {
                    let k = choose|k: int| 0 <= k < side@.len() && side@[k] == x;
                    assert(!reversible_via(w, n, on_left, side@[k] as int, via));
                }
            }
        }
        None
    }

    /// Looks for two different places `i` and `j` of the list such that the
    /// game at `list[i]` is at most the game at `list[j]`.
    #[verifier::loop_isolation(false)]
    fn find_dominated(&mut self, list: &Vec<usize>) -> (r: Option<(usize, usize)>)
        requires
            old(self).wf(),
            all_below(list@, old(self)@.len() as int),
        ensures
            final(self).wf(),
            final(self)@ == old(self)@,
            final(self).entries() == old(self).entries(),
            match r {
                Some((i, j)) => i < list@.len() && j < list@.len() && i != j && leq(
                    old(self)@,
                    list@[i as int] as int,
                    list@[j as int] as int,
                ),
                None => forall|i: int, j: int|
                    0 <= i < list@.len() && 0 <= j < list@.len() && i != j ==> !leq(
                        old(self)@,
                        #[trigger] list@[i] as int,
                        #[trigger] list@[j] as int,
                    ),
            },
    {
        let ghost u = self@;
        let ghost lists = self.entries();
        let mut i: usize = 0;
        while i < list.len()
            invariant
                self.wf(),
                self@ == u,
                self.entries() == lists,
                all_below(list@, u.len() as int),
                i <= list@.len(),
                forall|a: int, b: int|
                    0 <= a < i && 0 <= b < list@.len() && a != b ==> !leq(
                        u,
                        #[trigger] list@[a] as int,
                        #[trigger] list@[b] as int,
                    ),
            decreases list@.len() - i,
        {
            let mut j: usize = 0;
            while j < list.len()
                invariant
                    self.wf(),
                    self@ == u,
                    self.entries() == lists,
                    all_below(list@, u.len() as int),
                    i < list@.len(),
                    j <= list@.len(),
                    forall|b: int|
                        0 <= b < j && i != b ==> !leq(
                            u,
                            list@[i as int] as int,
                            #[trigger] list@[b] as int,
                        ),
                decreases list@.len() - j,
            {
                if i != j && self.leq(Game { id: list[i] }, Game { id: list[j] }) {
                    return Some((i, j));
                }
                j += 1;
            }
            i += 1;
        }
        None
    }

    /// Brings the game with the options `left` and `right` into canonical
    /// form: reversible options are bypassed and dominated options are left
    /// out, until there is none of either.
    fn canonicalize(&mut self, left: &mut Vec<usize>, right: &mut Vec<usize>)
        requires
            old(self).wf(),
            strictly_increasing(old(left)@),
            strictly_increasing(old(right)@),
            all_below(old(left)@, old(self)@.len() as int),
            all_below(old(right)@, old(self)@.len() as int),
        ensures
            final(self).wf(),
            final(self)@ == old(self)@,
            final(self).entries() == old(self).entries(),
            strictly_increasing(final(left)@),
            strictly_increasing(final(right)@),
            all_below(final(left)@, old(self)@.len() as int),
            all_below(final(right)@, old(self)@.len() as int),
            forms_equal(
                old(self)@,
                form(old(left)@, old(right)@),
                form(final(left)@, final(right)@),
            ),
            canonical_at(
                old(self)@.push(form(final(left)@, final(right)@)),
                old(self)@.len() as int,
            ),
    {
        let ghost u = self@;
        let ghost lists = self.entries();
        let ghost n = u.len() as int;
        let ghost g0 = form(left@, right@);
        proof {
            lemma_form_below(left@, right@, n);
            lemma_forms_equal_same_options(u, g0, g0);
        }
        let mut done = false;
        while !done
            invariant
                self.wf(),
                self@ == u,
                self.entries() == lists,
                n == u.len(),
                strictly_increasing(left@),
                strictly_increasing(right@),
                all_below(left@, n),
                all_below(right@, n),
                options_below(g0, n),
                forms_equal(u, g0, form(left@, right@)),
                done ==> canonical_at(u.push(form(left@, right@)), n),
            decreases
                    weight(places(left@), n) + weight(places(right@), n),
                    (if done {
                        0int
                    } else {
                        1int
                    }),
        {
            let ghost g = form(left@, right@);
            let ghost w = u.push(g);
            proof {
                lemma_form_below(left@, right@, n);
                assert(w[n] == g);
            }
            let found = self.find_reversible(left, right, true);
            if let Some((i, via)) = found {
                let x = left[i];
                let ghost before = left@;
                proof {
                    assert(w[x as int] == u[x as int]);
                    lemma_places_remove(before, i as int);
                }
                left.remove(i);
                let count = self.left[via].len();
                let ghost removed = left@;
                let mut k: usize = 0;
                while k < count
                    invariant
                        self.wf(),
                        self@ == u,
                        self.entries() == lists,
                        n == u.len(),
                        (via as int) < n,
                        count == self.left@[via as int]@.len(),
                        k <= count,
                        strictly_increasing(left@),
                        all_below(left@, n),
                        places(left@) =~= places(removed).union(
                            places(self.left@[via as int]@.subrange(0, k as int)),
                        ),
                    decreases count - k,
                {
                    let y = self.left[via][k];
                    proof {
                        assert(u[via as int].left.contains(y as int));
                        lemma_places_push(self.left@[via as int]@, k as int);
                    }
                    sorted_insert(left, y);
                    k += 1;
                }
                proof {
                    assert(self.left@[via as int]@.subrange(0, count as int)
                        =~= self.left@[via as int]@);
                    let h = form(left@, right@);
                    lemma_bypass_reversible_left(u, g, h, x as int, via as int);
                    lemma_forms_equal_transitive(u, g0, g, h);
                    lemma_weight_replace(g.left, u[via as int].left, x as int, n);
                }
            } else {
                let found = self.find_reversible(left, right, false);
                if let Some((i, via)) = found {
                    let x = right[i];
                    let ghost before = right@;
                    proof {
                        assert(w[x as int] == u[x as int]);
                        lemma_places_remove(before, i as int);
                    }
                    right.remove(i);
                    let count = self.right[via].len();
                    let ghost removed = right@;
                    let mut k: usize = 0;
                    while k < count
                        invariant
                            self.wf(),
                            self@ == u,
                            self.entries() == lists,
                            n == u.len(),
                            (via as int) < n,
                            count == self.right@[via as int]@.len(),
                            k <= count,
                            strictly_increasing(right@),
                            all_below(right@, n),
                            places(right@) =~= places(removed).union(
                                places(self.right@[via as int]@.subrange(0, k as int)),
                            ),
                        decreases count - k,
                    {
                        let y = self.right[via][k];
                        proof {
                            assert(u[via as int].right.contains(y as int));
                            lemma_places_push(self.right@[via as int]@, k as int);
                        }
                        sorted_insert(right, y);
                        k += 1;
                    }
                    proof {
                        assert(self.right@[via as int]@.subrange(0, count as int)
                            =~= self.right@[via as int]@);
                        let h = form(left@, right@);
                        lemma_bypass_reversible_right(u, g, h, x as int, via as int);
                        lemma_forms_equal_transitive(u, g0, g, h);
                        lemma_weight_replace(g.right, u[via as int].right, x as int, n);
                    }
                } else {
                    let found = self.find_dominated(left);
                    if let Some((i, j)) = found {
                        let ghost before = left@;
                        proof {
                            lemma_places_remove(before, i as int);
                            assert(g.left.contains(before[i as int] as int));
                            assert(g.left.contains(before[j as int] as int));
                        }
                        left.remove(i);
                        proof {
                            let h = form(left@, right@);
                            lemma_drop_dominated_left(
                                u,
                                g,
                                h,
                                before[i as int] as int,
                                before[j as int] as int,
                            );
                            lemma_form_below(left@, right@, n);
                            lemma_forms_equal_transitive(u, g0, g, h);
                            lemma_weight_remove(g.left, before[i as int] as int, n);
                            lemma_pow2_monotonic(0, before[i as int] as int);
                        }
                    } else {
                        let found = self.find_dominated(right);
                        if let Some((i, j)) = found {
                            let ghost before = right@;
                            proof {
                                lemma_places_remove(before, j as int);
                                assert(g.right.contains(before[i as int] as int));
                                assert(g.right.contains(before[j as int] as int));
                            }
                            right.remove(j);
                            proof {
                                let h = form(left@, right@);
                                lemma_drop_dominated_right(
                                    u,
                                    g,
                                    h,
                                    before[j as int] as int,
                                    before[i as int] as int,
                                );
                                lemma_form_below(left@, right@, n);
                                lemma_forms_equal_transitive(u, g0, g, h);
                                lemma_weight_remove(g.right, before[j as int] as int, n);
                                lemma_pow2_monotonic(0, before[j as int] as int);
                            }
                        } else {
                            proof {
                                assert(no_reversible(w, n)) by {
                                    assert forall|l: int, lr: int|
                                        0 <= l < n && #[trigger] w[n].left.contains(l)
                                            && #[trigger] w[l].right.contains(lr) implies !leq(
                                        w,
                                        lr,
                                        n,
                                    ) by {
                                        assert(!reversible_via(w, n, true, l, lr));
                                    }
                                    assert forall|r: int, rl: int|
                                        0 <= r < n && #[trigger] w[n].right.contains(r)
                                            && #[trigger] w[r].left.contains(rl) implies !leq(
                                        w,
                                        n,
                                        rl,
                                    ) by {
                                        assert(!reversible_via(w, n, false, r, rl));
                                    }
                                }
                                assert(no_dominated(w, n)) by {
                                    assert forall|x: int, y: int|
                                        #[trigger] w[n].left.contains(x) && #[trigger] w[n].left.contains(
                                            y,
                                        ) && x != y implies !leq(w, x, y) by {
                                        let i = choose|i: int| 0 <= i < left@.len() && left@[i] == x;
                                        let j = choose|j: int| 0 <= j < left@.len() && left@[j] == y;
                                        assert(!leq(u, left@[i] as int, left@[j] as int));
                                        lemma_leq_extended(u, g, x, y);
                                    }
                                    assert forall|x: int, y: int|
                                        #[trigger] w[n].right.contains(x)
                                            && #[trigger] w[n].right.contains(y) && x
                                            != y implies !leq(w, x, y) by {
                                        let i = choose|i: int|
                                            0 <= i < right@.len() && right@[i] == x;
                                        let j = choose|j: int|
                                            0 <= j < right@.len() && right@[j] == y;
                                        assert(!leq(u, right@[i] as int, right@[j] as int));
                                        lemma_leq_extended(u, g, x, y);
                                    }
                                }
                            }
                            done = true;
                        }
                    }
                }
            }
        }
    }

    /// The first place of `bucket` at which the table holds the option lists
    /// `left` and `right`.
    fn scan(&self, bucket: &Vec<usize>, left: &Vec<usize>, right: &Vec<usize>) -> (found: Option<
        usize,
    >)
        requires
            self.right@.len() == self.left@.len(),
            all_below(bucket@, self.left@.len() as int),
        ensures
            found matches Some(e) ==> e < self.left@.len() && self.left@[e as int]@ == left@
                && self.right@[e as int]@ == right@,
            found is None ==> forall|m: int|
                0 <= m < bucket@.len() ==> !(self.left@[#[trigger] bucket@[m] as int]@ == left@
                    && self.right@[bucket@[m] as int]@ == right@),
    {
        let mut k: usize = 0;
        while k < bucket.len()
            invariant
                self.right@.len() == self.left@.len(),
                all_below(bucket@, self.left@.len() as int),
                k <= bucket@.len(),
                forall|m: int|
                    0 <= m < k ==> !(self.left@[#[trigger] bucket@[m] as int]@ == left@
                        && self.right@[bucket@[m] as int]@ == right@),
            decreases bucket@.len() - k,
        {
            let e = bucket[k];
            if same_list(&self.left[e], left) && same_list(&self.right[e], right) {
                return Some(e);
            }
            k += 1;
        }
        None
    }

    /// The place at which the table holds the option lists `left` and
    /// `right`, if it holds them.
    fn lookup(&self, left: &Vec<usize>, right: &Vec<usize>, h: u64) -> (found: Option<usize>)
        requires
            self.right@.len() == self.left@.len(),
            self.index_sound(),
            h == fingerprint(left@, right@),
        ensures
            found matches Some(e) ==> e < self.left@.len() && self.left@[e as int]@ == left@
                && self.right@[e as int]@ == right@,
            found is None ==> forall|a: int|
                0 <= a < self.left@.len() ==> !(#[trigger] self.left@[a]@ == left@
                    && self.right@[a]@ == right@),
    {
        broadcast use vstd::std_specs::hash::group_hash_axioms;

        match self.index.get(&h) {
            Some(bucket) => {
                proof {
                    assert(self.index@.contains_key(h) && self.index@[h] == *bucket);
                    assert forall|k: int| 0 <= k < bucket@.len() implies #[trigger] bucket@[k]
                        < self.left@.len() by {
                        assert(self.index@[h]@[k] < self.left@.len());
                    }
                }
                let found = self.scan(bucket, left, right);
                proof {
                    if found is None {
                        assert forall|a: int| 0 <= a < self.left@.len() implies !(
                        #[trigger] self.left@[a]@ == left@ && self.right@[a]@ == right@) by {
                            if self.left@[a]@ == left@ && self.right@[a]@ == right@ {
                                let fp = fingerprint(self.left@[a]@, self.right@[a]@);
                                assert(fp == h);
                                assert(self.index@.contains_key(fp) && places(
                                    self.index@[fp]@,
                                ).contains(a));
                                let m = choose|m: int| 0 <= m < bucket@.len() && bucket@[m] == a;
                                assert(!(self.left@[bucket@[m] as int]@ == left@
                                    && self.right@[bucket@[m] as int]@ == right@));
                                assert(false);
                            }
                        }
                    }
                }
                found
            },
            None => {
                proof {
                    assert forall|a: int| 0 <= a < self.left@.len() implies !(
                    #[trigger] self.left@[a]@ == left@ && self.right@[a]@ == right@) by {
                        if self.left@[a]@ == left@ && self.right@[a]@ == right@ {
                            assert(self.index@.contains_key(
                                fingerprint(self.left@[a]@, self.right@[a]@),
                            ));
                        }
                    }
                }
                None
            },
        }
    }

    /// The place of the game with the option lists `left` and `right`, which
    /// is put at the end of the table unless the table holds it already.
    pub(crate) fn intern(&mut self, left: Vec<usize>, right: Vec<usize>) -> (id: usize)
        requires
            old(self).wf(),
            strictly_increasing(left@),
            strictly_increasing(right@),
            all_below(left@, old(self)@.len() as int),
            all_below(right@, old(self)@.len() as int),
            canonical_at(old(self)@.push(form(left@, right@)), old(self)@.len() as int),
        ensures
            final(self).wf(),
            id < final(self)@.len(),
            same_options(final(self)@[id as int], form(left@, right@)),
            (final(self)@ == old(self)@ && final(self).entries() == old(self).entries())
                || (final(self)@ == old(self)@.push(form(left@, right@)) && id == old(self)@.len()),
            final(self).grows_from(old(self)),
            final(self).negations() == old(self).negations(),
            final(self).sums() == old(self).sums(),
    {
        broadcast use vstd::std_specs::hash::group_hash_axioms;

        let ghost u = self@;
        let ghost g = form(left@, right@);
        let ghost n = u.len() as int;
        let h = fingerprint_of(&left, &right);
        if let Some(e) = self.lookup(&left, &right, h) {
            proof {
                self.lemma_grows_reflexive(self);
            }
            return e;
        }
        proof {
            lemma_form_below(left@, right@, n);
            assert forall|a: int| 0 <= a < u.len() implies !same_options(#[trigger] u[a], g) by {
                if same_options(u[a], g) {
                    lemma_sorted_unique(self.left@[a]@, left@);
                    lemma_sorted_unique(self.right@[a]@, right@);
                }
            }
            lemma_table_extended(u, g);
        }
        let ghost before = *self;
        let id = self.left.len();
        let tag = detect(&self.tags, &left, &right);
        self.left.push(left);
        self.right.push(right);
        self.negation.push(None);
        self.tags.push(tag);
        let mut bucket = match self.index.remove(&h) {
            Some(b) => b,
            None => Vec::new(),
        };
        let ghost old_bucket = bucket@;
        bucket.push(id);
        self.index.insert(h, bucket);
        proof {
            assert(self.tags_sound()) by {
                assert forall|i: int| 0 <= i < self.left@.len() implies #[trigger] self.tags@[i]
                    == tag_of(self.tags@, self.left@[i]@, self.right@[i]@) by {
                    if i < n {
                        assert(self.left@[i] == before.left@[i]);
                        assert(self.right@[i] == before.right@[i]);
                        assert forall|k: int| 0 <= k < self.left@[i]@.len() implies #[trigger] self.left@[i]@[k]
                            < before.tags@.len() by {
                            assert(u[i].left.contains(self.left@[i]@[k] as int));
                        }
                        assert forall|k: int| 0 <= k < self.right@[i]@.len() implies #[trigger] self.right@[i]@[k]
                            < before.tags@.len() by {
                            assert(u[i].right.contains(self.right@[i]@[k] as int));
                        }
                        assert(before.tags@[i] == tag_of(
                            before.tags@,
                            before.left@[i]@,
                            before.right@[i]@,
                        ));
                    }
                    lemma_tag_stable(before.tags@, self.tags@, self.left@[i]@, self.right@[i]@);
                }
            }
            assert(self@ =~= u.push(g));
            assert(self.negations() =~= before.negations());
            assert(self.sums() =~= before.sums());
            assert(is_prefix(u, self@));
            lemma_negation_map_prefix(u, self@, before.negations());
            lemma_sum_map_prefix(u, self@, before.sums());
            assert forall|a: int, b: int|
                0 <= a <= usize::MAX && 0 <= b <= usize::MAX && self.leq_memo@.contains_key(
                    #[trigger] pair_key(a, b) as u128,
                ) implies a < self@.len() && b < self@.len() && self.leq_memo@[pair_key(a, b) as u128]
                == leq(self@, a, b) by {
                assert(before.leq_memo@.contains_key(pair_key(a, b) as u128));
                lemma_leq_extended(u, g, a, b);
            }
            assert forall|i: int| 0 <= i < self.left@.len() implies self.index@.contains_key(
                #[trigger] fingerprint(self.left@[i]@, self.right@[i]@),
            ) && places(self.index@[fingerprint(self.left@[i]@, self.right@[i]@)]@).contains(
                i,
            ) by {
                let f = fingerprint(self.left@[i]@, self.right@[i]@);
                if i < n {
                    assert(self.left@[i] == before.left@[i]);
                    assert(self.right@[i] == before.right@[i]);
                    assert(before.index@.contains_key(f));
                    if f == h {
                        let m = choose|m: int| 0 <= m < old_bucket.len() && old_bucket[m] == i;
                        assert(self.index@[h]@[m] == i);
                    } else {
                        assert(self.index@[f] == before.index@[f]);
                    }
                } else {
                    assert(self.index@[h]@[old_bucket.len() as int] == i);
                }
            }
            assert forall|key: u64, k: int|
                self.index@.contains_key(key) && 0 <= k < self.index@[key]@.len()
                    implies #[trigger] self.index@[key]@[k] < self.left@.len() by {
                if key == h {
                    if k < old_bucket.len() {
                        assert(before.index@.contains_key(h));
                        assert(before.index@[h]@[k] < before.left@.len());
                    }
                } else {
                    assert(before.index@.contains_key(key));
                    assert(before.index@[key]@[k] < before.left@.len());
                }
            }
            assert forall|i: int| 0 <= i < self.left@.len() implies strictly_increasing(
                #[trigger] self.left@[i]@,
            ) by {
                if i < n {
                    assert(self.left@[i] == before.left@[i]);
                }
            }
            assert forall|i: int| 0 <= i < self.left@.len() implies strictly_increasing(
                #[trigger] self.right@[i]@,
            ) by {
                if i < n {
                    assert(self.right@[i] == before.right@[i]);
                }
            }
        }
        id
    }

    /// The places of the games of `games`, sorted and each once.
    fn sorted_ids(&self, games: &Vec<Game>) -> (ids: Vec<usize>)
        requires
            self.has_all(games@),
        ensures
            strictly_increasing(ids@),
            all_below(ids@, self@.len() as int),
            places(ids@) =~= game_places(games@),
    {
        let mut ids: Vec<usize> = Vec::new();
        let mut k: usize = 0;
        while k < games.len()
            invariant
                self.has_all(games@),
                k <= games@.len(),
                strictly_increasing(ids@),
                all_below(ids@, self@.len() as int),
                places(ids@) =~= game_places(games@.subrange(0, k as int)),
            decreases games@.len() - k,
        {
            let ghost before = ids@;
            assert(self.has(games@[k as int]));
            sorted_insert(&mut ids, games[k].id);
            proof {
                let a = games@.subrange(0, k + 1);
                let b = games@.subrange(0, k as int);
                assert forall|x: int| game_places(a).contains(x) == game_places(b).insert(
                    games@[k as int].id as int,
                ).contains(x) by {
                    if game_places(a).contains(x) {
                        let i = choose|i: int| 0 <= i < a.len() && a[i].id == x;
                        if i < k {
                            assert(b[i].id == x);
                        }
                    }
                    if game_places(b).contains(x) {
                        let i = choose|i: int| 0 <= i < b.len() && b[i].id == x;
                        assert(a[i].id == x);
                    }
                    if x == games@[k as int].id {
                        assert(a[k as int].id == x);
                    }
                }
            }
            k += 1;
        }
        proof {
            assert(games@.subrange(0, games@.len() as int) =~= games@);
        }
        ids
    }

    /// The canonical form of the game with the given options: the one game
    /// of the table, put there if need be, that has the value of the game
    /// whose left options are `moves.left` and whose right options are
    /// `moves.right`.
    pub fn construct_from_moves(&mut self, moves: Moves) -> (g: Game)
        requires
            old(self).wf(),
            old(self).has_all(moves.left@),
            old(self).has_all(moves.right@),
        ensures
            final(self).wf(),
            final(self).grows_from(old(self)),
            final(self).has(g),
            final(self).negations() == old(self).negations(),
            final(self).sums() == old(self).sums(),
            form_equals(final(self)@, moves_node(moves), g.id as int),
    {
        let ghost u = self@;
        let ghost n = u.len() as int;
        let ghost start = *self;
        let mut left = self.sorted_ids(&moves.left);
        let mut right = self.sorted_ids(&moves.right);
        let ghost g0 = form(left@, right@);
        self.canonicalize(&mut left, &mut right);
        let ghost gf = form(left@, right@);
        let ghost middle = *self;
        let id = self.intern(left, right);
        proof {
            middle.lemma_grows_reflexive(&start);
            self.lemma_grows_transitive(&middle, &start);
            lemma_form_below(left@, right@, n);
            assert(options_below(g0, n));
            lemma_construct_result(u, g0, gf, self@, id as int);
            assert(same_options(g0, moves_node(moves)));
            assert(g0 == moves_node(moves));
        }
        Game { id }
    }

    /// The integer `n` as a game: the one game of the table, put there if
    /// need be, that is the integer `n`.
    pub fn construct_integer(&mut self, n: i64) -> (g: Game)
        requires
            old(self).wf(),
        ensures
            final(self).wf(),
            final(self).grows_from(old(self)),
            final(self).has(g),
            final(self).negations() == old(self).negations(),
            final(self).sums() == old(self).sums(),
            is_integer(final(self)@, g.id as int, n as int),
    {
        let ghost start = self@;
        let ghost first = *self;
        proof {
            lemma_form_below(Seq::<usize>::empty(), Seq::<usize>::empty(), start.len() as int);
        }
        let mut cur = self.intern(Vec::new(), Vec::new());
        let mut k: i64 = 0;
        while k != n
            invariant
                self.wf(),
                is_prefix(start, self@),
                self.grows_from(&first),
                self.negations() == first.negations(),
                self.sums() == first.sums(),
                cur < self@.len(),
                is_integer(self@, cur as int, k as int),
                n >= 0 ==> 0 <= k <= n,
                n < 0 ==> n <= k <= 0,
            decreases
                    (if n >= 0 {
                        n - k
                    } else {
                        k - n
                    }),
        {
            let ghost u = self@;
            let mut left: Vec<usize> = Vec::new();
            let mut right: Vec<usize> = Vec::new();
            if n >= 0 {
                left.push(cur);
            } else {
                right.push(cur);
            }
            proof {
                let f = form(left@, right@);
                let w = u.push(f);
                let m = u.len() as int;
                assert(w[cur as int] == u[cur as int]);
                if n >= 0 {
                    assert(is_only(f.left, cur as int)) by {
                        assert(left@[0] == cur);
                    }
                    assert(f.right =~= Set::<int>::empty());
                } else {
                    assert(is_only(f.right, cur as int)) by {
                        assert(right@[0] == cur);
                    }
                    assert(f.left =~= Set::<int>::empty());
                }
                assert(canonical_at(w, m));
            }
            let ghost f = form(left@, right@);
            let ghost middle = *self;
            let next = self.intern(left, right);
            proof {
                self.lemma_grows_transitive(&middle, &first);
                lemma_integer_prefix(u, self@, cur as int, k as int);
                if n >= 0 {
                    assert(is_only(self@[next as int].left, cur as int));
                    lemma_sole(self@[next as int].left, cur as int);
                    assert(is_integer(self@, next as int, k + 1));
                } else {
                    assert(is_only(self@[next as int].right, cur as int));
                    lemma_sole(self@[next as int].right, cur as int);
                    assert(is_integer(self@, next as int, k - 1));
                }
            }
            cur = next;
            if n >= 0 {
                k += 1;
            } else {
                k -= 1;
            }
        }
        Game { id: cur }
    }

    /// The left options of `g`, in the order of their places.
    pub fn left_options(&self, g: Game) -> (out: Vec<Game>)
        requires
            self.wf(),
            self.has(g),
        ensures
            game_places(out@) =~= self@[g.id as int].left,
            self.has_all(out@),
            out@.len() == self.left_lists()[g.id as int].len(),
            forall|k: int| 0 <= k < out@.len() ==> (#[trigger] out@[k]).id == self.left_lists()[g.id as int][k],
            forall|i: int, j: int| 0 <= i < j < out@.len() ==> out@[i].id < out@[j].id,
    {
        let out = Self::as_games(&self.left[g.id]);
        proof {
            assert(strictly_increasing(self.left@[g.id as int]@));
            assert forall|k: int| 0 <= k < out@.len() implies self.has(#[trigger] out@[k]) by {
                assert(self@[g.id as int].left.contains(out@[k].id as int));
            }
        }
        out
    }

    /// The right options of `g`, in the order of their places.
    pub fn right_options(&self, g: Game) -> (out: Vec<Game>)
        requires
            self.wf(),
            self.has(g),
        ensures
            game_places(out@) =~= self@[g.id as int].right,
            self.has_all(out@),
            out@.len() == self.right_lists()[g.id as int].len(),
            forall|k: int| 0 <= k < out@.len() ==> (#[trigger] out@[k]).id == self.right_lists()[g.id as int][k],
            forall|i: int, j: int| 0 <= i < j < out@.len() ==> out@[i].id < out@[j].id,
    {
        let out = Self::as_games(&self.right[g.id]);
        proof {
            assert(strictly_increasing(self.right@[g.id as int]@));
            assert forall|k: int| 0 <= k < out@.len() implies self.has(#[trigger] out@[k]) by {
                assert(self@[g.id as int].right.contains(out@[k].id as int));
            }
        }
        out
    }

    fn as_games(ids: &Vec<usize>) -> (out: Vec<Game>)
        ensures
            game_places(out@) =~= places(ids@),
            out@.len() == ids@.len(),
            forall|k: int| 0 <= k < out@.len() ==> #[trigger] out@[k].id == ids@[k],
    {
        let mut out: Vec<Game> = Vec::new();
        let mut k: usize = 0;
        while k < ids.len()
            invariant
                k <= ids@.len(),
                out@.len() == k,
                forall|j: int| 0 <= j < k ==> #[trigger] out@[j].id == ids@[j],
            decreases ids@.len() - k,
        {
            out.push(Game { id: ids[k] });
            k += 1;
        }
        proof {
            assert forall|x: int| game_places(out@).contains(x) == places(ids@).contains(x) by {
                if game_places(out@).contains(x) {
                    let i = choose|i: int| 0 <= i < out@.len() && out@[i].id == x;
                    assert(ids@[i] == x);
                }
                if places(ids@).contains(x) {
                    let i = choose|i: int| 0 <= i < ids@.len() && ids@[i] == x;
                    assert(out@[i].id == x);
                }
            }
        }
        out
    }

    /// The negatives of the left options of `a` (`from_left`), or of its
    /// right options, sorted and each once.
    fn negate_options(&mut self, a: usize, from_left: bool) -> (out: Vec<usize>)
        requires
            old(self).wf(),
            a < old(self)@.len(),
        ensures
            final(self).wf(),
            final(self).grows_from(old(self)),
            final(self).sums() == old(self).sums(),
            strictly_increasing(out@),
            all_below(out@, final(self)@.len() as int),
            forall|x: int|
                #[trigger] side(old(self)@[a as int], from_left).contains(x) ==> final(self).negations().contains_key(x) && places(out@).contains(final(self).negations()[x]),
            forall|y: int|
                #[trigger] places(out@).contains(y) ==> final(self).negations().contains_key(y)
                    && side(old(self)@[a as int], from_left).contains(final(self).negations()[y]),
        decreases a, 0int,
    {
        let ghost start = *self;
        let ghost src = side(self@[a as int], from_left);
        let xs = if from_left {
            copy_of(&self.left[a])
        } else {
            copy_of(&self.right[a])
        };
        proof {
            assert(places(xs@) =~= src);
            start.lemma_grows_reflexive(&start);
            assert forall|j: int| 0 <= j < xs@.len() implies #[trigger] xs@[j] < a by {
                assert(places(xs@).contains(xs@[j] as int));
            }
        }
        let mut out: Vec<usize> = Vec::new();
        let mut k: usize = 0;
        while k < xs.len()
            invariant
                self.wf(),
                self.grows_from(&start),
                self.sums() == start.sums(),
                start.wf(),
                a < start@.len(),
                places(xs@) =~= src,
                forall|j: int| 0 <= j < xs@.len() ==> #[trigger] xs@[j] < a,
                k <= xs@.len(),
                strictly_increasing(out@),
                all_below(out@, self@.len() as int),
                forall|j: int|
                    0 <= j < k ==> self.negations().contains_key(#[trigger] xs@[j] as int)
                        && places(out@).contains(self.negations()[xs@[j] as int]),
                forall|y: int|
                    #[trigger] places(out@).contains(y) ==> self.negations().contains_key(y)
                        && src.contains(self.negations()[y]),
            decreases xs@.len() - k,
        {
            let x = xs[k];
            let ghost middle = *self;
            let ghost before = out@;
            let nx = self.negate(Game { id: x });
            proof {
                self.lemma_grows_transitive(&middle, &start);
                self.lemma_wf();
                assert(self.negations()[nx.id as int] == x);
                assert(src.contains(x as int));
            }
            sorted_insert(&mut out, nx.id);
            proof {
                assert forall|j: int| 0 <= j < k + 1 implies self.negations().contains_key(
                    #[trigger] xs@[j] as int,
                ) && places(out@).contains(self.negations()[xs@[j] as int]) by {
                    if j < k {
                        assert(middle.negations().contains_key(xs@[j] as int));
                        assert(places(before).contains(middle.negations()[xs@[j] as int]));
                    }
                }
                assert forall|y: int| #[trigger] places(out@).contains(y) implies self.negations().contains_key(
                    y,
                ) && src.contains(self.negations()[y]) by {
                    if y != nx.id {
                        assert(places(before).contains(y));
                        assert(middle.negations().contains_key(y));
                    }
                }
            }
            k += 1;
        }
        proof {
            assert forall|x: int| #[trigger] src.contains(x) implies self.negations().contains_key(x)
                && places(out@).contains(self.negations()[x]) by {
                let j = choose|j: int| 0 <= j < xs@.len() && xs@[j] == x;
                assert(self.negations().contains_key(xs@[j] as int));
            }
        }
        out
    }

    /// Takes into the map of negatives that `a` and `id` are each other's
    /// negative.
    fn remember_negation(&mut self, a: usize, id: usize)
        requires
            old(self).wf(),
            a < old(self)@.len(),
            id < old(self)@.len(),
            !old(self).negations().contains_key(a as int),
            !old(self).negations().contains_key(id as int),
            negation_map(
                old(self)@,
                old(self).negations().insert(a as int, id as int).insert(id as int, a as int),
            ),
        ensures
            final(self).wf(),
            final(self)@ == old(self)@,
            final(self).grows_from(old(self)),
            final(self).sums() == old(self).sums(),
            final(self).negations() == old(self).negations().insert(a as int, id as int).insert(
                id as int,
                a as int,
            ),
    {
        let ghost before = *self;
        let ghost m = self.negations();
        self.negation.set(a, Some(id));
        self.negation.set(id, Some(a));
        proof {
            assert(self@ == before@);
            assert(self.sums() == before.sums());
            assert(self.negations() =~= m.insert(a as int, id as int).insert(id as int, a as int));
            assert forall|a2: int, b2: int|
                0 <= a2 <= usize::MAX && 0 <= b2 <= usize::MAX && self.leq_memo@.contains_key(
                    #[trigger] pair_key(a2, b2) as u128,
                ) implies a2 < self@.len() && b2 < self@.len() && self.leq_memo@[pair_key(a2, b2) as u128]
                == leq(self@, a2, b2) by {
                assert(before.leq_memo@.contains_key(pair_key(a2, b2) as u128));
            }
            assert(self.index_sound()) by {
                assert(before.index_sound());
            }
            assert(self.tags_sound()) by {
                assert(before.tags_sound());
            }
        }
    }

    /// The negative of `a`: the game whose left options are the negatives of
    /// the right options of `a`, and whose right options are the negatives of
    /// its left options. The table remembers it, and that `a` is its negative.
    pub fn negate(&mut self, a: Game) -> (g: Game)
        requires
            old(self).wf(),
            old(self).has(a),
        ensures
            final(self).wf(),
            final(self).grows_from(old(self)),
            final(self).has(g),
            final(self).negations().contains_key(a.id as int),
            final(self).negations()[a.id as int] == g.id,
            final(self).sums() == old(self).sums(),
        decreases a.id, 1int,
    {
        let ghost start = *self;
        proof {
            start.lemma_grows_reflexive(&start);
        }
        match self.negation[a.id] {
            Some(b) => {
                assert(self.negations().contains_key(a.id as int));
                return Game { id: b };
            },
            None => {},
        }
        let new_left = self.negate_options(a.id, false);
        let ghost middle = *self;
        let new_right = self.negate_options(a.id, true);
        proof {
            self.lemma_grows_transitive(&middle, &start);
            self.lemma_wf();
            middle.lemma_wf();
        }
        match self.negation[a.id] {
            Some(b) => {
                assert(self.negations().contains_key(a.id as int));
                return Game { id: b };
            },
            None => {},
        }
        let ghost u = self@;
        let ghost m = self.negations();
        let ghost g = form(new_left@, new_right@);
        proof {
            assert(same_options(start@[a.id as int], u[a.id as int]));
            assert(same_options(middle@[a.id as int], u[a.id as int]));
            assert(all_below(new_left@, u.len() as int));
            lemma_form_below(new_left@, new_right@, u.len() as int);
            assert(negated_options(u, m, a.id as int, g)) by {
                assert forall|x: int| #[trigger] u[a.id as int].right.contains(x) implies m.contains_key(
                    x,
                ) && g.left.contains(m[x]) by {
                    assert(side(start@[a.id as int], false).contains(x));
                    assert(middle.negations().contains_key(x));
                }
                assert forall|y: int| #[trigger] g.left.contains(y) implies m.contains_key(y)
                    && u[a.id as int].right.contains(m[y]) by {
                    assert(places(new_left@).contains(y));
                    assert(middle.negations().contains_key(y));
                    assert(side(start@[a.id as int], false).contains(middle.negations()[y]));
                }
                assert forall|x: int| #[trigger] u[a.id as int].left.contains(x) implies m.contains_key(
                    x,
                ) && g.right.contains(m[x]) by {
                    assert(side(middle@[a.id as int], true).contains(x));
                }
                assert forall|y: int| #[trigger] g.right.contains(y) implies m.contains_key(y)
                    && u[a.id as int].left.contains(m[y]) by {
                    assert(places(new_right@).contains(y));
                    assert(side(middle@[a.id as int], true).contains(m[y]));
                }
            }
            assert(!m.contains_key(a.id as int));
            lemma_negated_form(u, m, a.id as int, g);
        }
        let ghost last = *self;
        let id = self.intern(new_left, new_right);
        proof {
            self.lemma_grows_transitive(&last, &start);
            if self@ == u {
                lemma_negated_entry(u, m, a.id as int, g, id as int);
                lemma_negated_entry_fresh(u, m, a.id as int, g, id as int);
            } else {
                assert(!m.contains_key(id as int));
            }
        }
        let ghost interned = *self;
        self.remember_negation(a.id, id);
        proof {
            self.lemma_grows_transitive(&interned, &start);
        }
        Game { id }
    }

    /// Adds `other` to each game of `xs` and puts the sums, in that order, at
    /// the end of `acc`.
    fn sum_each(
        &mut self,
        xs: &Vec<usize>,
        other: usize,
        acc: &mut Vec<Game>,
        Ghost(bound): Ghost<int>,
    )
        requires
            old(self).wf(),
            other < old(self)@.len(),
            all_below(xs@, old(self)@.len() as int),
            old(self).has_all(old(acc)@),
            forall|k: int| 0 <= k < xs@.len() ==> #[trigger] xs@[k] + other < bound,
        ensures
            final(self).wf(),
            final(self).grows_from(old(self)),
            final(self).negations() == old(self).negations(),
            final(self).has_all(final(acc)@),
            final(acc)@.len() == old(acc)@.len() + xs@.len(),
            forall|i: int| 0 <= i < old(acc)@.len() ==> final(acc)@[i] == old(acc)@[i],
            forall|k: int|
                0 <= k < xs@.len() ==> is_sum_at(
                    final(self).sums(),
                    #[trigger] xs@[k] as int,
                    other as int,
                    final(acc)@[old(acc)@.len() + k].id as int,
                ),
        decreases bound, 0int, 0int,
    {
        let ghost start = *self;
        let ghost acc0 = acc@;
        proof {
            start.lemma_grows_reflexive(&start);
        }
        let mut k: usize = 0;
        while k < xs.len()
            invariant
                self.wf(),
                self.grows_from(&start),
                self.negations() == start.negations(),
                other < start@.len(),
                all_below(xs@, start@.len() as int),
                forall|j: int| 0 <= j < xs@.len() ==> #[trigger] xs@[j] + other < bound,
                self.has_all(acc@),
                k <= xs@.len(),
                acc@.len() == acc0.len() + k,
                forall|i: int| 0 <= i < acc0.len() ==> acc@[i] == acc0[i],
                forall|j: int|
                    0 <= j < k ==> is_sum_at(
                        self.sums(),
                        #[trigger] xs@[j] as int,
                        other as int,
                        acc@[acc0.len() + j].id as int,
                    ),
            decreases xs@.len() - k,
        {
            let x = xs[k];
            let ghost middle = *self;
            let ghost before = acc@;
            let g = self.construct_sum(Game { id: x }, Game { id: other });
            acc.push(g);
            proof {
                self.lemma_grows_transitive(&middle, &start);
                assert forall|i: int| 0 <= i < acc@.len() implies self.has(#[trigger] acc@[i]) by {
                    if i < before.len() {
                        assert(middle.has(before[i]));
                    }
                }
                assert forall|j: int| 0 <= j < k + 1 implies is_sum_at(
                    self.sums(),
                    #[trigger] xs@[j] as int,
                    other as int,
                    acc@[acc0.len() + j].id as int,
                ) by {
                    if j < k {
                        assert(is_sum_at(
                            middle.sums(),
                            xs@[j] as int,
                            other as int,
                            before[acc0.len() + j].id as int,
                        ));
                    }
                }
            }
            k += 1;
        }
    }

    /// Takes into the map of sums that `c` is the sum of `lo` and `hi`.
    fn remember_sum(&mut self, lo: usize, hi: usize, c: usize)
        requires
            old(self).wf(),
            lo <= hi,
            !old(self).sums().contains_key((lo as int, hi as int)),
            sum_map(old(self)@, old(self).sums().insert((lo as int, hi as int), c as int)),
        ensures
            final(self).wf(),
            final(self)@ == old(self)@,
            final(self).grows_from(old(self)),
            final(self).negations() == old(self).negations(),
            final(self).sums() == old(self).sums().insert((lo as int, hi as int), c as int),
            is_sum_at(final(self).sums(), lo as int, hi as int, c as int),
            is_sum_at(final(self).sums(), hi as int, lo as int, c as int),
    {
        broadcast use vstd::std_specs::hash::group_hash_axioms;

        let ghost before = *self;
        let key = make_key(lo, hi);
        self.sum_memo.insert(key, c);
        proof {
            assert(self@ == before@);
            assert(self.negations() == before.negations());
            assert forall|k: (int, int)|
                0 <= k.0 <= k.1 <= usize::MAX implies (pair_key(k.0, k.1) as u128 == key) == (k == (
                lo as int,
                hi as int,
            )) by {
                assert(0 <= pair_key(k.0, k.1) <= u128::MAX) by (nonlinear_arith)
                    requires
                        0 <= k.0 <= 0xffff_ffff_ffff_ffff,
                        0 <= k.1 <= 0xffff_ffff_ffff_ffff,
                        pair_key(k.0, k.1) == k.0 * 0x1_0000_0000_0000_0000 + k.1,
                ;
                if pair_key(k.0, k.1) as u128 == key {
                    lemma_pair_key_injective(k.0, k.1, lo as int, hi as int);
                }
            }
            assert(self.sums() =~= before.sums().insert((lo as int, hi as int), c as int));
            assert forall|a2: int, b2: int|
                0 <= a2 <= usize::MAX && 0 <= b2 <= usize::MAX && self.leq_memo@.contains_key(
                    #[trigger] pair_key(a2, b2) as u128,
                ) implies a2 < self@.len() && b2 < self@.len() && self.leq_memo@[pair_key(a2, b2) as u128]
                == leq(self@, a2, b2) by {
                assert(before.leq_memo@.contains_key(pair_key(a2, b2) as u128));
            }
            assert(self.index_sound()) by {
                assert(before.index_sound());
            }
            assert(self.tags_sound()) by {
                assert(before.tags_sound());
            }
        }
    }

    /// The sum that the table remembers for `lo` and `hi`, if it does.
    fn known_sum(&self, lo: usize, hi: usize) -> (r: Option<usize>)
        requires
            self.wf(),
            lo <= hi,
        ensures
            match r {
                Some(c) => is_sum_at(self.sums(), lo as int, hi as int, c as int) && is_sum_at(
                    self.sums(),
                    hi as int,
                    lo as int,
                    c as int,
                ) && c < self@.len(),
                None => !self.sums().contains_key((lo as int, hi as int)),
            },
    {
        broadcast use vstd::std_specs::hash::group_hash_axioms;

        let key = make_key(lo, hi);
        match self.sum_memo.get(&key) {
            Some(c) => {
                assert(self.sums().contains_key((lo as int, hi as int)));
                Some(*c)
            },
            None => None,
        }
    }

    /// The sum of `a` and `b`: the game of the table with the value of the
    /// game whose left options are the sums of a left option of one with the
    /// other, and whose right options are those of the right options. The
    /// table remembers it under the two games in rising order.
    pub fn construct_sum(&mut self, a: Game, b: Game) -> (g: Game)
        requires
            old(self).wf(),
            old(self).has(a),
            old(self).has(b),
        ensures
            final(self).wf(),
            final(self).grows_from(old(self)),
            final(self).has(g),
            final(self).negations() == old(self).negations(),
            is_sum_at(final(self).sums(), a.id as int, b.id as int, g.id as int),
        decreases a.id + b.id, 1int, 0int,
    {
        let ghost start = *self;
        proof {
            start.lemma_grows_reflexive(&start);
        }
        let (lo, hi) = if a.id <= b.id {
            (a.id, b.id)
        } else {
            (b.id, a.id)
        };
        if let Some(c) = self.known_sum(lo, hi) {
            return Game { id: c };
        }
        let ghost u0 = self@;
        let ghost bound = (lo + hi) as int;
        let left = self.gather_sums(lo, hi, true, Ghost(bound));
        let ghost s2 = *self;
        let ghost t2 = self.sums();
        let right = self.gather_sums(lo, hi, false, Ghost(bound));
        let ghost s4 = *self;
        proof {
            s4.lemma_grows_transitive(&s2, &start);
        }
        if let Some(c) = self.known_sum(lo, hi) {
            return Game { id: c };
        }
        let ghost t = self.sums();
        let ghost u = self@;
        let moves = Moves { left, right };
        proof {
            lemma_node_of_sums(
                u0,
                s2@,
                u,
                t2,
                t,
                lo as int,
                hi as int,
                moves.left@,
                moves.right@,
            );
        }
        let g = self.construct_from_moves(moves);
        let ghost s5 = *self;
        proof {
            s5.lemma_grows_transitive(&s4, &start);
            s4.lemma_wf();
            lemma_sum_map_prefix(u, s5@, t);
            lemma_sum_node_stable(u, s5@, t, t, lo as int, hi as int);
            lemma_sum_map_insert(s5@, t, lo as int, hi as int, g.id as int);
        }
        self.remember_sum(lo, hi, g.id);
        proof {
            self.lemma_grows_transitive(&s5, &start);
        }
        g
    }

    /// The sums of the left options (`left`), or of the right options, of
    /// `lo` with `hi` and then of those of `hi` with `lo`.
    #[verifier::rlimit(60)]
    fn gather_sums(&mut self, lo: usize, hi: usize, left: bool, Ghost(bound): Ghost<int>) -> (out:
        Vec<Game>)
        requires
            old(self).wf(),
            lo < old(self)@.len(),
            hi < old(self)@.len(),
            bound == lo + hi,
        ensures
            final(self).wf(),
            final(self).grows_from(old(self)),
            final(self).negations() == old(self).negations(),
            final(self).has_all(out@),
            gathered(old(self)@, final(self).sums(), lo as int, hi as int, left, out@),
        decreases bound, 0int, 1int,
    {
        let ghost start = *self;
        let xs = self.options_copy(lo, left);
        let ys = self.options_copy(hi, left);
        let mut out: Vec<Game> = Vec::new();
        self.sum_each(&xs, hi, &mut out, Ghost(bound));
        let ghost s1 = *self;
        let ghost out1 = out@;
        self.sum_each(&ys, lo, &mut out, Ghost(bound));
        proof {
            self.lemma_grows_transitive(&s1, &start);
            let l = ids_of(out@);
            let t = self.sums();
            assert forall|k: int| 0 <= k < xs@.len() implies is_sum_at(
                t,
                #[trigger] xs@[k] as int,
                hi as int,
                l[k],
            ) by {
                assert(is_sum_at(s1.sums(), xs@[k] as int, hi as int, out1[0 + k].id as int));
            }
            assert forall|k: int| 0 <= k < ys@.len() implies is_sum_at(
                t,
                #[trigger] ys@[k] as int,
                lo as int,
                l[xs@.len() + k],
            ) by {
                assert(is_sum_at(t, ys@[k] as int, lo as int, out@[out1.len() + k].id as int));
            }
            assert(lists_sums(t, lo as int, hi as int, xs@, ys@, l));
        }
        out
    }

    /// A copy of the list of left options (`left`), or of right options, of
    /// the game at `a`.
    fn options_copy(&self, a: usize, left: bool) -> (out: Vec<usize>)
        requires
            self.wf(),
            a < self@.len(),
        ensures
            places(out@) =~= side(self@[a as int], left),
            all_below(out@, a as int),
    {
        let out = if left {
            copy_of(&self.left[a])
        } else {
            copy_of(&self.right[a])
        };
        proof {
            assert forall|k: int| 0 <= k < out@.len() implies #[trigger] out@[k] < a by {
                assert(places(out@).contains(out@[k] as int));
                if left {
                    assert(self@[a as int].left.contains(out@[k] as int));
                } else {
                    assert(self@[a as int].right.contains(out@[k] as int));
                }
            }
        }
        out
    }

    /// Appends the text of the game `g` to `out`.
    pub fn render_game(&self, g: Game, out: &mut Vec<char>)
        requires
            self.wf(),
            self.has(g),
        ensures
            final(out)@ == old(out)@ + self.display_text(g),
    {
        proof {
            assert(self.left_lists() == lists_of(self.left@));
            assert(self.right_lists() == lists_of(self.right@));
            assert forall|i: int, k: int|
                0 <= i < self.left@.len() && 0 <= k < self.left@[i]@.len() implies (#[trigger] self.left@[i]@[k])
                < i by {
                assert(self@[i].left.contains(self.left@[i]@[k] as int));
            }
            assert forall|i: int, k: int|
                0 <= i < self.right@.len() && 0 <= k < self.right@[i]@.len() implies (#[trigger] self.right@[i]@[k])
                < i by {
                assert(self@[i].right.contains(self.right@[i]@[k] as int));
            }
        }
        render_entry(&self.tags, &self.left, &self.right, g.id, out);
    }

    /// The text of the game `g`: an integer as a decimal numeral, a number
    /// as a fraction, a nimber as `*` and its size, and any other game as its
    /// options between braces.
    pub fn print_game_to_str(&self, g: &Game) -> (out: String)
        requires
            self.wf(),
            self.has(*g),
        ensures
            out@ == self.display_text(*g),
    {
        let mut chars: Vec<char> = Vec::new();
        self.render_game(*g, &mut chars);
        assert(chars@ =~= self.display_text(*g));
        string_of(&chars)
    }
}

} // verus!
