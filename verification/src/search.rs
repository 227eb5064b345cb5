//! Survey of the Domineering positions of one grid size: which numbers name
//! positions, which positions are worth a record, and what the record says.

use crate::domineering::Position;
use crate::numeric::rational::Rational;
use crate::short::partizan::game_storage::Game;
use crate::short::partizan::thermograph::{
    fixed_temperature, has_thermograph, Thermographs, UNIT,
};
use crate::short::partizan::transposition_table::TranspositionTable;
use crate::text::{decimal, push_all, push_decimal_wide, push_str, string_of};
use vstd::arithmetic::power2::{lemma2_to64, lemma2_to64_rest, lemma_pow2_unfold, pow2};
use vstd::prelude::*;

verus! {

/// Why a survey cannot be run as asked.
#[derive(Debug, Clone, Copy, PartialEq, Eq, Structural)]
pub enum SearchError {
    /// The grid has more than 64 tiles.
    GridTooLarge,
    /// The survey is to end after the last position of the grid, which has
    /// the number `last`.
    LastIdTooLarge { last: u64 },
}

/// The number of positions of a grid: two to the number of its tiles.
pub open spec fn position_count(width: int, height: int) -> nat {
    pow2((width * height) as nat)
}

/// Two to the power `k`.
fn two_to(k: u32) -> (p: u128)
    requires
        k <= 64,
    ensures
        p == pow2(k as nat),
        1 <= p <= 0x1_0000_0000_0000_0000,
{
    let mut p: u128 = 1;
    let mut i: u32 = 0;
    proof {
        lemma2_to64();
        lemma2_to64_rest();
    }
    while i < k
        invariant
            i <= k <= 64,
            p == pow2(i as nat),
            1 <= p,
            p <= pow2(64),
            pow2(64) == 0x1_0000_0000_0000_0000,
        decreases k - i,
    {
        proof {
            lemma_pow2_unfold((i + 1) as nat);
            if i + 1 < 64 {
                vstd::arithmetic::power2::lemma_pow2_strictly_increases((i + 1) as nat, 64);
            }
        }
        p = p * 2;
        i += 1;
    }
    p
}

/// The number at which a survey of the grid ends: `last_id`, or the number
/// of positions of the grid where none is given.
///
/// A grid of more than 64 tiles cannot be surveyed, and no survey ends
/// after the number of positions.
pub fn end_of_search(width: u8, height: u8, last_id: Option<u64>) -> (r: Result<u128, SearchError>)
    ensures
        width * height > 64 <==> r == Err::<u128, SearchError>(SearchError::GridTooLarge),
        r matches Ok(end) ==> end <= position_count(width as int, height as int) && (match last_id {
            Some(id) => end == id,
            None => end == position_count(width as int, height as int),
        }),
        r matches Err(SearchError::LastIdTooLarge { last }) ==> last_id matches Some(id) && id
            > position_count(width as int, height as int) && last + 1 == position_count(
            width as int,
            height as int,
        ),
        r is Ok <==> width * height <= 64 && (last_id matches Some(id) ==> id <= position_count(
            width as int,
            height as int,
        )),
{
    assert(width * height <= 255 * 255) by (nonlinear_arith)
        requires
            0 <= width <= 255,
            0 <= height <= 255,
    ;
    let tiles: u32 = (width as u32) * (height as u32);
    if tiles > 64 {
        return Err(SearchError::GridTooLarge);
    }
    let count = two_to(tiles);
    match last_id {
        None => Ok(count),
        Some(id) => {
            if (id as u128) > count {
                Err(SearchError::LastIdTooLarge { last: (count - 1) as u64 })
            } else {
                Ok(id as u128)
            }
        },
    }
}

/// The number of the position that is looked at in step `step` of a survey
/// that ends at `end`: the survey goes down from the last number.
pub fn id_at_step(end: u128, step: u64) -> (id: u64)
    requires
        step < end <= 0x1_0000_0000_0000_0000,
    ensures
        id == end - 1 - step,
{
    (end - 1 - (step as u128)) as u64
}

/// What is recorded of a position.
#[derive(Debug, Clone, PartialEq, Eq)]
pub struct SearchRecord {
    /// The position as text.
    pub grid: String,
    /// The temperature of the position as text.
    pub temperature: String,
    /// The canonical form of the position as text.
    pub canonical_form: String,
}

/// What a survey makes of one position.
#[derive(Debug, Clone, PartialEq, Eq)]
pub enum Outcome {
    /// The position falls into two parts or more, and such positions are
    /// left out.
    Parts,
    /// The game of the position has no thermograph within the limits.
    NoTemperature,
    /// The temperature is not above the threshold.
    Cold,
    /// The position is recorded: its record and its temperature.
    Found(SearchRecord, Rational),
}

/// The position `position` in the shape under which the table keeps it.
pub open spec fn kept_as(position: Position) -> Position {
    Position::of(position.grid().top_left())
}

/// The position falls into two parts or more.
pub open spec fn in_parts(position: Position) -> bool {
    kept_as(position).components().len() >= 2
}

/// The temperature `tau`, in fixed point with 30 binary places, is above
/// the number `limit`.
pub open spec fn above(limit: Rational, tau: int) -> bool {
    match limit {
        Rational::NegativeInfinity => true,
        Rational::PositiveInfinity => false,
        Rational::Value(n, d) => n * UNIT < tau * d,
    }
}

/// A number is above the limit exactly when its value in fixed point is.
pub proof fn lemma_above(limit: Rational, t: Rational, tau: int)
    requires
        limit.wf(),
        t.wf(),
        t.is_fraction(tau, UNIT as int),
    ensures
        limit.spec_lt(&t) == above(limit, tau),
{
    let p = t->Value_0 as int;
    let q = t->Value_1 as int;
    match limit {
        Rational::Value(n, d) => {
            let n = n as int;
            let d = d as int;
            let unit = UNIT as int;
            assert(p * unit == tau * q);
            assert((n * q < p * d) == (n * unit < tau * d)) by (nonlinear_arith)
                requires
                    p * unit == tau * q,
                    q > 0,
                    d > 0,
                    unit > 0,
            {
                assert((n * q) * unit == (n * unit) * q);
                assert((p * d) * unit == (tau * d) * q);
                if n * q < p * d {
                    assert((n * q) * unit < (p * d) * unit);
                    assert((n * unit) * q < (tau * d) * q);
                }
                if n * unit < tau * d {
                    assert((n * unit) * q < (tau * d) * q);
                    assert((n * q) * unit < (p * d) * unit);
                }
            }
        },
        _ => {},
    }
}

/// Looks at one position: works out its canonical form and its
/// temperature, and makes its record if the temperature is above the
/// threshold.
///
/// A position that falls into two parts or more is left out unless
/// `include_decompositions` is set, and nothing is worked out for it. Of any
/// other position there is a record exactly where its game has a thermograph
/// within the limits and its temperature is above the threshold, if there is
/// one.
pub fn examine(
    cache: &mut TranspositionTable<Position>,
    thermographs: &mut Thermographs,
    position: &Position,
    include_decompositions: bool,
    threshold: &Option<Rational>,
) -> (r: Outcome)
    requires
        old(cache).wf(),
        old(thermographs).wf(&old(cache).games()),
        position.wf(),
        threshold matches Some(limit) ==> limit.wf(),
    ensures
        final(cache).wf(),
        final(cache).grows_from(old(cache)),
        final(thermographs).wf(&final(cache).games()),
        r is Parts <==> !include_decompositions && in_parts(*position),
        !(r is Parts) ==> final(cache).grids().contains_key(kept_as(*position)),
        !(r is Parts) ==> ({
            let g = final(cache).grids()[kept_as(*position)];
            let games = final(cache).games();
            let known = has_thermograph(
                games.tag_list(),
                games.left_lists(),
                games.right_lists(),
                g,
            );
            let tau = fixed_temperature(
                games.tag_list(),
                games.left_lists(),
                games.right_lists(),
                g,
            );
            &&& r is NoTemperature <==> !known
            &&& r is Cold <==> known && threshold is Some && !above(threshold->0, tau)
            &&& r is Found <==> known && (threshold is Some ==> above(threshold->0, tau))
            &&& r matches Outcome::Found(record, t) ==> {
                &&& record.grid@ == kept_as(*position).grid().text()
                &&& record.temperature@ == t.text()
                &&& 0 <= g <= usize::MAX
                &&& record.canonical_form@ == games.display_text(Game { id: g as usize })
                &&& t.wf()
                &&& t.is_fraction(tau, UNIT as int)
            }
        }),
{
    let grid = position.move_top_left();
    proof {
        grid.grid().lemma_top_left();
        position.grid().lemma_move_top_left_idempotent(grid.grid(), grid.grid().top_left());
        Position::lemma_of(grid.grid());
        Position::lemma_same_grid(grid, kept_as(*position));
    }
    let decompositions = grid.decompositions();
    if decompositions.len() >= 2 && !include_decompositions {
        proof {
            cache.games().lemma_grows_reflexive(&cache.games());
        }
        return Outcome::Parts;
    }
    let ghost first = cache.games();
    let game = grid.canonical_form(cache);
    proof {
        cache.lemma_wf();
        thermographs.lemma_grows(&first, &cache.games());
    }
    let temp = match thermographs.temperature(cache.game_backend(), &game) {
        Some(t) => t,
        None => {
            return Outcome::NoTemperature;
        },
    };
    if let Some(limit) = threshold {
        proof {
            lemma_above(
                *limit,
                temp,
                fixed_temperature(
                    cache.games().tag_list(),
                    cache.games().left_lists(),
                    cache.games().right_lists(),
                    game.id as int,
                ),
            );
        }
        if temp.le(limit) {
            return Outcome::Cold;
        }
    }
    let record = SearchRecord {
        grid: grid.to_string(),
        temperature: temp.to_string(),
        canonical_form: cache.game_backend().print_game_to_str(&game),
    };
    Outcome::Found(record, temp)
}

/// The higher of the two temperatures; the first where they are equal.
pub fn higher_of(highest: Rational, temperature: Rational) -> (r: Rational)
    requires
        highest.wf(),
        temperature.wf(),
    ensures
        r == (if highest.spec_lt(&temperature) {
            temperature
        } else {
            highest
        }),
{
    if highest.lt(&temperature) {
        temperature
    } else {
        highest
    }
}

/// What a report says of the highest temperature: the highest that was
/// recorded; or, as long as nothing was recorded, that none is above the
/// threshold, which is minus one where none was set.
pub open spec fn highest_text(saved: u64, threshold: Option<Rational>, highest: Rational) -> Seq<char> {
    if saved == 0 {
        "<= "@ + (match threshold {
            Some(limit) => limit.text(),
            None => Rational::Value(-1i64, 1i64).text(),
        })
    } else {
        highest.text()
    }
}

/// What a report says of the highest temperature.
pub fn highest_temperature(saved: u64, threshold: &Option<Rational>, highest: &Rational) -> (out:
    String)
    ensures
        out@ == highest_text(saved, *threshold, *highest),
{
    if saved == 0 {
        let limit = match threshold {
            Some(limit) => *limit,
            None => Rational::from_integer(-1),
        };
        let mut chars: Vec<char> = Vec::new();
        push_str(&mut chars, "<= ");
        let text = limit.to_string();
        push_str(&mut chars, text.as_str());
        string_of(&chars)
    } else {
        highest.to_string()
    }
}

/// `n` zeros.
pub open spec fn zeros(n: nat) -> Seq<char> {
    Seq::new(n, |i: int| '0')
}

/// The number of decimal digits of `n`.
pub fn digits(n: u128) -> (k: usize)
    ensures
        k == decimal(n as nat).len(),
{
    let mut chars: Vec<char> = Vec::new();
    push_decimal_wide(&mut chars, n);
    chars.len()
}

/// Zero pad `to_pad` to the length of `max_size`.
pub fn zero_padded(to_pad: u128, max_size: u128) -> (out: String)
    requires
        decimal(to_pad as nat).len() <= decimal(max_size as nat).len(),
    ensures
        out@ == zeros((decimal(max_size as nat).len() - decimal(to_pad as nat).len()) as nat)
            + decimal(to_pad as nat),
        out@.len() == decimal(max_size as nat).len(),
{
    let total = digits(max_size);
    let mut numeral: Vec<char> = Vec::new();
    push_decimal_wide(&mut numeral, to_pad);
    let mut chars: Vec<char> = Vec::new();
    let pad = total - numeral.len();
    let mut i: usize = 0;
    while i < pad
        invariant
            i <= pad,
            chars@ == zeros(i as nat),
        decreases pad - i,
    {
        chars.push('0');
        assert(chars@ =~= zeros((i + 1) as nat));
        i += 1;
    }
    push_all(&mut chars, &numeral);
    string_of(&chars)
}

} // verus!
