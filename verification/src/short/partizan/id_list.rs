//! Lists of places in a table of games, kept sorted and free of repetition.

use vstd::prelude::*;

verus! {

/// The places that a list of places names.
pub open spec fn places(s: Seq<usize>) -> Set<int> {
    Set::new(|x: int| exists|k: int| 0 <= k < s.len() && s[k] == x)
}

/// The list goes up strictly: it is sorted and holds nothing twice.
pub open spec fn strictly_increasing(s: Seq<usize>) -> bool {
    forall|i: int, j: int| 0 <= i < j < s.len() ==> s[i] < s[j]
}

/// Every place of the list is below `n`.
pub open spec fn all_below(s: Seq<usize>, n: int) -> bool {
    forall|k: int| 0 <= k < s.len() ==> #[trigger] s[k] < n
}

/// Putting `y` into a list adds `y` to its places.
pub proof fn lemma_places_insert(s: Seq<usize>, p: int, y: usize)
    requires
        0 <= p <= s.len(),
    ensures
        places(s.insert(p, y)) =~= places(s).insert(y as int),
{
    let t = s.insert(p, y);
    assert forall|x: int| places(t).contains(x) == places(s).insert(y as int).contains(x) by {
        if places(t).contains(x) {
            let k = choose|k: int| 0 <= k < t.len() && t[k] == x;
            if k < p {
                assert(s[k] == x);
            } else if k > p {
                assert(s[k - 1] == x);
            }
        }
        if places(s).contains(x) {
            let k = choose|k: int| 0 <= k < s.len() && s[k] == x;
            if k < p {
                assert(t[k] == x);
            } else {
                assert(t[k + 1] == x);
            }
        }
        if x == y {
            assert(t[p] == x);
        }
    }
}

/// Taking an element out of a strictly increasing list takes its place out.
pub proof fn lemma_places_remove(s: Seq<usize>, i: int)
    requires
        0 <= i < s.len(),
        strictly_increasing(s),
    ensures
        places(s.remove(i)) =~= places(s).remove(s[i] as int),
        strictly_increasing(s.remove(i)),
{
    let t = s.remove(i);
    assert forall|x: int| places(t).contains(x) == places(s).remove(s[i] as int).contains(x) by {
        if places(t).contains(x) {
            let k = choose|k: int| 0 <= k < t.len() && t[k] == x;
            if k < i {
                assert(s[k] == x);
            } else {
                assert(s[k + 1] == x);
            }
        }
        if places(s).contains(x) && x != s[i] {
            let k = choose|k: int| 0 <= k < s.len() && s[k] == x;
            if k < i {
                assert(t[k] == x);
            } else {
                assert(t[k - 1] == x);
            }
        }
    }
}

/// A strictly increasing list is determined by its places.
pub proof fn lemma_sorted_unique(s: Seq<usize>, t: Seq<usize>)
    requires
        strictly_increasing(s),
        strictly_increasing(t),
        places(s) =~= places(t),
    ensures
        s =~= t,
    decreases s.len(),
{
    if s.len() == 0 {
        if t.len() > 0 {
            assert(places(t).contains(t[0] as int));
        }
    } else {
        let m = s.len() - 1;
        assert(places(s).contains(s[m] as int));
        let k = choose|k: int| 0 <= k < t.len() && t[k] == s[m];
        let q = t.len() - 1;
        assert(places(t).contains(t[q] as int));
        let j = choose|j: int| 0 <= j < s.len() && s[j] == t[q];
        assert(k == q);
        lemma_places_remove(s, m);
        lemma_places_remove(t, q);
        lemma_sorted_unique(s.remove(m), t.remove(q));
        assert(s.remove(m) =~= s.subrange(0, m));
        assert(t.remove(q) =~= t.subrange(0, q));
        assert forall|i: int| 0 <= i < s.len() implies s[i] == t[i] by {
            if i < m {
                assert(s.subrange(0, m)[i] == t.subrange(0, q)[i]);
            }
        }
    }
}

/// Whether two lists are the same list.
pub fn same_list(a: &Vec<usize>, b: &Vec<usize>) -> (r: bool)
    ensures
        r == (a@ == b@),
{
    if a.len() != b.len() {
        return false;
    }
    let mut i: usize = 0;
    while i < a.len()
        invariant
            a@.len() == b@.len(),
            i <= a@.len(),
            forall|k: int| 0 <= k < i ==> a@[k] == b@[k],
        decreases a@.len() - i,
    {
        if a[i] != b[i] {
            return false;
        }
        i += 1;
    }
    assert(a@ =~= b@);
    true
}

/// Puts `y` into a strictly increasing list, at its place, unless it is
/// there already.
pub fn sorted_insert(v: &mut Vec<usize>, y: usize)
    requires
        strictly_increasing(old(v)@),
    ensures
        strictly_increasing(final(v)@),
        places(final(v)@) =~= places(old(v)@).insert(y as int),
        forall|n: int| all_below(old(v)@, n) && y < n ==> all_below(final(v)@, n),
{
    let mut p: usize = 0;
    while p < v.len() && v[p] < y
        invariant
            p <= v@.len(),
            forall|k: int| 0 <= k < p ==> v@[k] < y,
        decreases v@.len() - p,
    {
        p += 1;
    }
    if p < v.len() && v[p] == y {
        assert(places(v@).contains(y as int));
        return ;
    }
    let ghost before = v@;
    v.insert(p, y);
    proof {
        lemma_places_insert(before, p as int, y);
        assert forall|i: int, j: int| 0 <= i < j < v@.len() implies v@[i] < v@[j] by {
            if j < p {
                assert(v@[i] == before[i] && v@[j] == before[j]);
            } else if j == p {
                assert(v@[i] == before[i]);
            } else if i < p {
                assert(v@[i] == before[i] && v@[j] == before[j - 1]);
            } else if i == p {
                assert(v@[j] == before[j - 1]);
                assert(before[p as int] <= before[j - 1]);
            } else {
                assert(v@[i] == before[i - 1] && v@[j] == before[j - 1]);
            }
        }
        assert forall|n: int| all_below(before, n) && y < n implies all_below(v@, n) by {
            assert forall|k: int| 0 <= k < v@.len() implies #[trigger] v@[k] < n by {
                if k < p {
                    assert(v@[k] == before[k]);
                } else if k > p {
                    assert(v@[k] == before[k - 1]);
                }
            }
        }
    }
}

/// A copy of the list.
pub fn copy_of(v: &Vec<usize>) -> (out: Vec<usize>)
    ensures
        out@ == v@,
{
    let mut out: Vec<usize> = Vec::new();
    let mut i: usize = 0;
    while i < v.len()
        invariant
            i <= v@.len(),
            out@ == v@.subrange(0, i as int),
        decreases v@.len() - i,
    {
        out.push(v[i]);
        i += 1;
        assert(out@ =~= v@.subrange(0, i as int));
    }
    assert(v@.subrange(0, v@.len() as int) =~= v@);
    out
}

} // verus!
