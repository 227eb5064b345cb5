//! Games that are a number plus a multiple of up plus a nimber, and how such
//! games are told from their options.

use crate::dyadic_rational_number::DyadicRationalNumber;
use crate::text::{decimal, push_decimal};
use vstd::prelude::*;

verus! {

/// The game `number + up_multiple * up + *nimber`.
#[derive(Debug, Clone, Copy, PartialEq, Eq, Hash, Structural)]
pub struct Nus {
    pub number: DyadicRationalNumber,
    pub up_multiple: i32,
    pub nimber: u32,
}

/// The sign for up.
pub open spec fn up_sign() -> char {
    '\u{2191}'
}

/// The sign for down.
pub open spec fn down_sign() -> char {
    '\u{2193}'
}

impl Nus {
    /// The number part is a dyadic rational number in lowest terms.
    pub open spec fn wf(&self) -> bool {
        self.number.wf()
    }

    /// The game is a number.
    pub open spec fn is_number(&self) -> bool {
        self.up_multiple == 0 && self.nimber == 0
    }

    /// The integer `n`.
    pub fn integer(n: i32) -> (r: Self)
        ensures
            r.wf(),
            r.is_number(),
            r.number == DyadicRationalNumber::spec_integer(n),
            r.up_multiple == 0,
            r.nimber == 0,
    {
        Nus { number: DyadicRationalNumber::from_integer(n), up_multiple: 0, nimber: 0 }
    }

    /// The text of the multiple of up.
    pub open spec fn up_text(&self) -> Seq<char> {
        if self.up_multiple == 0 {
            Seq::<char>::empty()
        } else if self.up_multiple == 1 {
            seq![up_sign()]
        } else if self.up_multiple == -1 {
            seq![down_sign()]
        } else if self.up_multiple > 0 {
            seq![up_sign()] + decimal(self.up_multiple as nat)
        } else {
            seq![down_sign()] + decimal((-self.up_multiple) as nat)
        }
    }

    /// The text of the nimber.
    pub open spec fn star_text(&self) -> Seq<char> {
        if self.nimber == 0 {
            Seq::<char>::empty()
        } else if self.nimber == 1 {
            seq!['*']
        } else {
            seq!['*'] + decimal(self.nimber as nat)
        }
    }

    /// The text of the game: the number unless it is zero, the multiple of
    /// up, the nimber; `0` for zero.
    pub open spec fn text(&self) -> Seq<char> {
        if self.number.numerator() == 0 && self.up_multiple == 0 && self.nimber == 0 {
            seq!['0']
        } else if self.number.numerator() == 0 {
            self.up_text() + self.star_text()
        } else {
            self.number.text() + self.up_text() + self.star_text()
        }
    }

    /// Appends the text of the multiple of up to `out`.
    fn render_up(&self, out: &mut Vec<char>)
        ensures
            final(out)@ == old(out)@ + self.up_text(),
    {
        if self.up_multiple == 1 {
            out.push('\u{2191}');
        } else if self.up_multiple == -1 {
            out.push('\u{2193}');
        } else if self.up_multiple > 0 {
            out.push('\u{2191}');
            push_decimal(out, self.up_multiple as u64);
        } else if self.up_multiple < 0 {
            out.push('\u{2193}');
            let m: u64 = if self.up_multiple == i32::MIN {
                0x8000_0000u64
            } else {
                (-self.up_multiple) as u64
            };
            push_decimal(out, m);
        }
        assert(out@ =~= old(out)@ + self.up_text());
    }

    /// Appends the text of the nimber to `out`.
    fn render_star(&self, out: &mut Vec<char>)
        ensures
            final(out)@ == old(out)@ + self.star_text(),
    {
        if self.nimber == 1 {
            out.push('*');
        } else if self.nimber > 1 {
            out.push('*');
            push_decimal(out, self.nimber as u64);
        }
        assert(out@ =~= old(out)@ + self.star_text());
    }

    /// Appends the text of the game to `out`.
    pub fn render(&self, out: &mut Vec<char>)
        requires
            self.wf(),
        ensures
            final(out)@ == old(out)@ + self.text(),
    {
        if self.number.numerator() == 0 && self.up_multiple == 0 && self.nimber == 0 {
            out.push('0');
            assert(out@ =~= old(out)@ + self.text());
            return ;
        }
        if self.number.numerator() != 0 {
            self.number.render(out);
        }
        let ghost after_number = out@;
        self.render_up(out);
        let ghost after_up = out@;
        self.render_star(out);
        proof {
            if self.number.numerator() == 0 {
                assert(after_number == old(out)@);
                assert(out@ =~= old(out)@ + (self.up_text() + self.star_text()));
            } else {
                assert(out@ =~= old(out)@ + (self.number.text() + self.up_text() + self.star_text()));
            }
        }
    }
}

/// The tag of the game at `id`, if the list of tags has one for it.
pub open spec fn tag_at(tags: Seq<Option<Nus>>, id: int) -> Option<Nus> {
    if 0 <= id < tags.len() {
        tags[id]
    } else {
        None
    }
}

/// Every game of the list is the number `n` plus a nimber below the length
/// of the list, and no two are the same nimber: the list holds `n`, `n*`, and
/// so on, in some order.
pub open spec fn is_nimber_run(tags: Seq<Option<Nus>>, s: Seq<usize>, n: DyadicRationalNumber) -> bool {
    &&& forall|j: int|
        0 <= j < s.len() ==> (#[trigger] tag_at(tags, s[j] as int) matches Some(t) && t.number == n
            && t.up_multiple == 0 && t.nimber < s.len())
    &&& forall|i: int, j: int|
        0 <= i < j < s.len() ==> (#[trigger] tag_at(tags, s[i] as int))->0.nimber != (
        #[trigger] tag_at(tags, s[j] as int))->0.nimber
}

/// What the game with the option lists `left` and `right` is told to be from
/// its options, whose own tags are in `tags`: an integer, a number, a number
/// plus a nimber, or a number plus a multiple of up and maybe star; or
/// nothing, where it is none of these or is beyond the limits.
pub open spec fn tag_of(tags: Seq<Option<Nus>>, left: Seq<usize>, right: Seq<usize>) -> Option<Nus> {
    if left.len() == 0 && right.len() == 0 {
        Some(Nus { number: DyadicRationalNumber::spec_integer(0), up_multiple: 0, nimber: 0 })
    } else if left.len() == 0 {
        // An integer below zero: one less than its right option.
        if right.len() == 1 && (tag_at(tags, right[0] as int) matches Some(t) && t.is_number()
            && t.number.spec_exponent() == 0 && i32::MIN < t.number.numerator() <= 0) {
            Some(
                Nus {
                    number: DyadicRationalNumber::spec_integer(
                        (tag_at(tags, right[0] as int)->0.number.numerator() - 1) as i32,
                    ),
                    up_multiple: 0,
                    nimber: 0,
                },
            )
        } else {
            None
        }
    } else if right.len() == 0 {
        // An integer above zero: one more than its left option.
        if left.len() == 1 && (tag_at(tags, left[0] as int) matches Some(t) && t.is_number()
            && t.number.spec_exponent() == 0 && 0 <= t.number.numerator() < i32::MAX) {
            Some(
                Nus {
                    number: DyadicRationalNumber::spec_integer(
                        (tag_at(tags, left[0] as int)->0.number.numerator() + 1) as i32,
                    ),
                    up_multiple: 0,
                    nimber: 0,
                },
            )
        } else {
            None
        }
    } else if left == right {
        // A number plus a nimber: the same options for both, the number plus
        // every smaller nimber.
        if tag_at(tags, left[0] as int) is Some && is_nimber_run(
            tags,
            left,
            tag_at(tags, left[0] as int)->0.number,
        ) && left.len() <= u32::MAX {
            Some(
                Nus {
                    number: tag_at(tags, left[0] as int)->0.number,
                    up_multiple: 0,
                    nimber: left.len() as u32,
                },
            )
        } else {
            None
        }
    } else if left.len() == 1 && right.len() == 1 {
        tag_of_pair(tag_at(tags, left[0] as int), tag_at(tags, right[0] as int))
    } else if left.len() == 2 && right.len() == 1 {
        // A number plus up plus star: the number and the number plus star
        // against the number.
        let other = if left[0] == right[0] {
            left[1]
        } else {
            left[0]
        };
        if (left[0] == right[0] || left[1] == right[0]) && (tag_at(
            tags,
            right[0] as int,
        ) matches Some(r) && r.is_number() && (tag_at(tags, other as int) matches Some(o) && o.number
            == r.number && o.up_multiple == 0 && o.nimber == 1)) {
            Some(Nus { number: tag_at(tags, right[0] as int)->0.number, up_multiple: 1, nimber: 1 })
        } else {
            None
        }
    } else if left.len() == 1 && right.len() == 2 {
        let other = if right[0] == left[0] {
            right[1]
        } else {
            right[0]
        };
        if (right[0] == left[0] || right[1] == left[0]) && (tag_at(
            tags,
            left[0] as int,
        ) matches Some(l) && l.is_number() && (tag_at(tags, other as int) matches Some(o) && o.number
            == l.number && o.up_multiple == 0 && o.nimber == 1)) {
            Some(
                Nus { number: tag_at(tags, left[0] as int)->0.number, up_multiple: -1i32, nimber: 1 },
            )
        } else {
            None
        }
    } else {
        None
    }
}

/// What a game with one left option and one right option is told to be from
/// the tags of the two.
pub open spec fn tag_of_pair(l: Option<Nus>, r: Option<Nus>) -> Option<Nus> {
    if l is Some && r is Some && l->0.wf() && r->0.wf() {
        let l = l->0;
        let r = r->0;
        if l.is_number() && r.is_number() {
            // The simplest number between two numbers.
            if exists|d: DyadicRationalNumber|
                d.wf() && #[trigger] DyadicRationalNumber::is_simplest_between(l.number, r.number, d) {
                Some(
                    Nus {
                        number: choose|d: DyadicRationalNumber|
                            d.wf() && #[trigger] DyadicRationalNumber::is_simplest_between(
                                l.number,
                                r.number,
                                d,
                            ),
                        up_multiple: 0,
                        nimber: 0,
                    },
                )
            } else {
                None
            }
        } else if l.is_number() && r.number == l.number && 0 <= r.up_multiple < i32::MAX
            && r.nimber <= 1 {
            // One more up than the right option, with star turned round.
            Some(
                Nus {
                    number: l.number,
                    up_multiple: (r.up_multiple + 1) as i32,
                    nimber: (1 - r.nimber) as u32,
                },
            )
        } else if r.is_number() && l.number == r.number && i32::MIN < l.up_multiple <= 0
            && l.nimber <= 1 {
            Some(
                Nus {
                    number: r.number,
                    up_multiple: (l.up_multiple - 1) as i32,
                    nimber: (1 - l.nimber) as u32,
                },
            )
        } else {
            None
        }
    } else {
        None
    }
}

/// The tag of the game at `id`.
fn tag_read(tags: &Vec<Option<Nus>>, id: usize) -> (t: Option<Nus>)
    ensures
        t == tag_at(tags@, id as int),
{
    if id < tags.len() {
        tags[id]
    } else {
        None
    }
}

/// Whether the list is a run of the number `n` plus the nimbers below its
/// length.
fn check_nimber_run(tags: &Vec<Option<Nus>>, s: &Vec<usize>, n: DyadicRationalNumber) -> (r: bool)
    ensures
        r == is_nimber_run(tags@, s@, n),
{
    let mut j: usize = 0;
    while j < s.len()
        invariant
            j <= s@.len(),
            forall|k: int|
                0 <= k < j ==> (#[trigger] tag_at(tags@, s@[k] as int) matches Some(t) && t.number
                    == n && t.up_multiple == 0 && t.nimber < s@.len()),
            forall|i: int, k: int|
                0 <= i < k < j ==> (#[trigger] tag_at(tags@, s@[i] as int))->0.nimber != (
                #[trigger] tag_at(tags@, s@[k] as int))->0.nimber,
        decreases s@.len() - j,
    {
        match tag_read(tags, s[j]) {
            Some(t) => {
                if !(t.number == n && t.up_multiple == 0 && (t.nimber as usize) < s.len()) {
                    assert(!is_nimber_run(tags@, s@, n)) by {
                        let w = tag_at(tags@, s@[j as int] as int);
                    }
                    return false;
                }
                let mut i: usize = 0;
                while i < j
                    invariant
                        i <= j < s@.len(),
                        tag_at(tags@, s@[j as int] as int) == Some(t),
                        forall|k: int|
                            0 <= k < j ==> (#[trigger] tag_at(tags@, s@[k] as int) matches Some(t)
                                && t.number == n && t.up_multiple == 0 && t.nimber < s@.len()),
                        forall|k: int|
                            0 <= k < i ==> (#[trigger] tag_at(tags@, s@[k] as int))->0.nimber
                                != t.nimber,
                    decreases j - i,
                {
                    match tag_read(tags, s[i]) {
                        Some(o) => {
                            if o.nimber == t.nimber {
                                assert(!is_nimber_run(tags@, s@, n)) by {
                                    let w1 = tag_at(tags@, s@[i as int] as int);
                                    let w2 = tag_at(tags@, s@[j as int] as int);
                                }
                                return false;
                            }
                        },
                        None => {
                            assert(false);
                        },
                    }
                    i += 1;
                }
            },
            None => {
                assert(!is_nimber_run(tags@, s@, n)) by {
                    let w = tag_at(tags@, s@[j as int] as int);
                }
                return false;
            },
        }
        j += 1;
    }
    true
}

/// Tells what a game with one left and one right option is from the tags of
/// the two.
fn detect_pair(l: Option<Nus>, r: Option<Nus>) -> (t: Option<Nus>)
    requires
        l matches Some(x) ==> x.wf(),
        r matches Some(x) ==> x.wf(),
    ensures
        t == tag_of_pair(l, r),
        t matches Some(x) ==> x.wf(),
{
    match (l, r) {
        (Some(l), Some(r)) => {
            if l.up_multiple == 0 && l.nimber == 0 && r.up_multiple == 0 && r.nimber == 0 {
                match DyadicRationalNumber::simplest_between(&l.number, &r.number) {
                    Some(d) => {
                        proof {
                            let c = choose|d: DyadicRationalNumber|
                                d.wf() && #[trigger] DyadicRationalNumber::is_simplest_between(
                                    l.number,
                                    r.number,
                                    d,
                                );
                            DyadicRationalNumber::lemma_simplest_unique(l.number, r.number, d, c);
                        }
                        Some(Nus { number: d, up_multiple: 0, nimber: 0 })
                    },
                    None => {
                        proof {
                            if exists|d: DyadicRationalNumber|
                                d.wf() && #[trigger] DyadicRationalNumber::is_simplest_between(
                                    l.number,
                                    r.number,
                                    d,
                                ) {
                                let c = choose|d: DyadicRationalNumber|
                                    d.wf() && #[trigger] DyadicRationalNumber::is_simplest_between(
                                        l.number,
                                        r.number,
                                        d,
                                    );
                                assert(l.number.scaled() < c.scaled() < r.number.scaled());
                            }
                        }
                        None
                    },
                }
            } else if l.up_multiple == 0 && l.nimber == 0 && r.number == l.number && 0
                <= r.up_multiple && r.up_multiple < i32::MAX && r.nimber <= 1 {
                Some(Nus { number: l.number, up_multiple: r.up_multiple + 1, nimber: 1 - r.nimber })
            } else if r.up_multiple == 0 && r.nimber == 0 && l.number == r.number && i32::MIN
                < l.up_multiple && l.up_multiple <= 0 && l.nimber <= 1 {
                Some(Nus { number: r.number, up_multiple: l.up_multiple - 1, nimber: 1 - l.nimber })
            } else {
                None
            }
        },
        _ => None,
    }
}

/// Every tag of the list is that of a well-formed game.
pub open spec fn tags_wf(tags: Seq<Option<Nus>>) -> bool {
    forall|i: int| 0 <= i < tags.len() ==> (#[trigger] tags[i] matches Some(t) ==> t.wf())
}

/// Tells what the game with the option lists `left` and `right` is from its
/// options.
pub fn detect(tags: &Vec<Option<Nus>>, left: &Vec<usize>, right: &Vec<usize>) -> (t: Option<Nus>)
    requires
        tags_wf(tags@),
    ensures
        t == tag_of(tags@, left@, right@),
        t matches Some(x) ==> x.wf(),
{
    if left.len() == 0 && right.len() == 0 {
        return Some(Nus::integer(0));
    }
    if left.len() == 0 {
        if right.len() == 1 {
            if let Some(t) = tag_read(tags, right[0]) {
                if t.up_multiple == 0 && t.nimber == 0 && t.number.is_integer()
                    && t.number.numerator() <= 0 && t.number.numerator() > i32::MIN {
                    return Some(Nus::integer(t.number.numerator() - 1));
                }
            }
        }
        return None;
    }
    if right.len() == 0 {
        if left.len() == 1 {
            if let Some(t) = tag_read(tags, left[0]) {
                if t.up_multiple == 0 && t.nimber == 0 && t.number.is_integer()
                    && t.number.numerator() >= 0 && t.number.numerator() < i32::MAX {
                    return Some(Nus::integer(t.number.numerator() + 1));
                }
            }
        }
        return None;
    }
    if crate::short::partizan::id_list::same_list(left, right) {
        if let Some(first) = tag_read(tags, left[0]) {
            if left.len() <= 0xffff_ffff && check_nimber_run(tags, left, first.number) {
                return Some(Nus { number: first.number, up_multiple: 0, nimber: left.len() as u32 });
            }
        }
        return None;
    }
    if left.len() == 1 && right.len() == 1 {
        return detect_pair(tag_read(tags, left[0]), tag_read(tags, right[0]));
    }
    if left.len() == 2 && right.len() == 1 {
        let other = if left[0] == right[0] {
            left[1]
        } else {
            left[0]
        };
        if left[0] == right[0] || left[1] == right[0] {
            if let Some(r) = tag_read(tags, right[0]) {
                if r.up_multiple == 0 && r.nimber == 0 {
                    if let Some(o) = tag_read(tags, other) {
                        if o.number == r.number && o.up_multiple == 0 && o.nimber == 1 {
                            return Some(Nus { number: r.number, up_multiple: 1, nimber: 1 });
                        }
                    }
                }
            }
        }
        return None;
    }
    if left.len() == 1 && right.len() == 2 {
        let other = if right[0] == left[0] {
            right[1]
        } else {
            right[0]
        };
        if right[0] == left[0] || right[1] == left[0] {
            if let Some(l) = tag_read(tags, left[0]) {
                if l.up_multiple == 0 && l.nimber == 0 {
                    if let Some(o) = tag_read(tags, other) {
                        if o.number == l.number && o.up_multiple == 0 && o.nimber == 1 {
                            return Some(Nus { number: l.number, up_multiple: -1, nimber: 1 });
                        }
                    }
                }
            }
        }
        return None;
    }
    None
}

/// What a game is told to be depends only on the tags of its options.
pub proof fn lemma_tag_stable(
    tags: Seq<Option<Nus>>,
    more: Seq<Option<Nus>>,
    left: Seq<usize>,
    right: Seq<usize>,
)
    requires
        tags.len() <= more.len(),
        forall|i: int| 0 <= i < tags.len() ==> tags[i] == more[i],
        forall|k: int| 0 <= k < left.len() ==> #[trigger] left[k] < tags.len(),
        forall|k: int| 0 <= k < right.len() ==> #[trigger] right[k] < tags.len(),
    ensures
        tag_of(more, left, right) == tag_of(tags, left, right),
{
    assert forall|k: int| 0 <= k < left.len() implies tag_at(more, #[trigger] left[k] as int)
        == tag_at(tags, left[k] as int) by {}
    assert forall|k: int| 0 <= k < right.len() implies tag_at(more, #[trigger] right[k] as int)
        == tag_at(tags, right[k] as int) by {}
    if left.len() > 0 && left == right {
        let n = tag_at(tags, left[0] as int)->0.number;
        if is_nimber_run(tags, left, n) {
            assert(is_nimber_run(more, left, n));
        }
        if is_nimber_run(more, left, n) {
            assert(is_nimber_run(tags, left, n));
        }
    }
}

} // verus!
