use vstd::prelude::*;
use vstd::arithmetic::div_mod::{lemma_div_is_ordered, lemma_fundamental_div_mod, lemma_fundamental_div_mod_converse};
use crate::types::Position;

verus! {

// A track is a sequence of (timestamp, position) samples. Sampling it at a time
// finds the first sample strictly later than that time and interpolates
// linearly between it and the sample before; times outside the track take the
// nearest end sample.

/// The index of the first sample at or after `i` whose timestamp is later
/// than `t`, or the track's length if there is none.
pub open spec fn first_after_from(track: Seq<(u64, Position)>, t: int, i: int) -> int
    decreases track.len() - i,
{
    if i < 0 || i >= track.len() {
        track.len() as int
    } else if track[i].0 > t {
        i
    } else {
        first_after_from(track, t, i + 1)
    }
}

/// The index of the first sample whose timestamp is later than `t`, or the
/// track's length if there is none.
pub open spec fn first_after(track: Seq<(u64, Position)>, t: int) -> int {
    first_after_from(track, t, 0)
}

/// Linear interpolation from `a` towards `b` by the fraction `num / den`,
/// rounded down.
pub open spec fn lerp_coord(a: i32, b: i32, num: int, den: int) -> int {
    a + (b - a) * num / den
}

/// Linear interpolation between two positions by the fraction `num / den`.
pub open spec fn lerp_position(p: Position, q: Position, num: int, den: int) -> Position {
    Position { x: lerp_coord(p.x, q.x, num, den) as i32, y: lerp_coord(p.y, q.y, num, den) as i32 }
}

/// The position of a non-empty track at time `t`.
pub open spec fn sample_track(track: Seq<(u64, Position)>, t: int) -> Position
    recommends
        track.len() > 0,
{
    let j = first_after(track, t);
    if j == 0 {
        track[0].1
    } else if j >= track.len() {
        track[track.len() - 1].1
    } else {
        lerp_position(track[j - 1].1, track[j].1, t - track[j - 1].0, track[j].0 - track[j - 1].0)
    }
}

/// Whether the timestamps of a track strictly increase.
pub open spec fn strictly_increasing(track: Seq<(u64, Position)>) -> bool {
    forall|i: int, k: int| 0 <= i < k < track.len() ==> track[i].0 < track[k].0
}

/// Whether the timestamps of a track never decrease.
pub open spec fn non_decreasing(track: Seq<(u64, Position)>) -> bool {
    forall|i: int, k: int| 0 <= i < k < track.len() ==> track[i].0 <= track[k].0
}

/// The first index after `i` is where the scan from `i` stops: every sample in
/// between is not later than `t`.
pub proof fn lemma_first_after_from(track: Seq<(u64, Position)>, t: int, i: int)
    requires
        0 <= i <= track.len(),
    ensures
        i <= first_after_from(track, t, i) <= track.len(),
        forall|k: int| i <= k < first_after_from(track, t, i) ==> track[k].0 <= t,
        first_after_from(track, t, i) < track.len() ==> track[first_after_from(track, t, i)].0 > t,
    decreases track.len() - i,
{
    if i < track.len() && track[i].0 <= t {
        lemma_first_after_from(track, t, i + 1);
    }
}

/// The first index after `t` is bounded by the track, every earlier sample is
/// not later than `t`, and the sample at it is later than `t`.
pub proof fn lemma_first_after(track: Seq<(u64, Position)>, t: int)
    ensures
        0 <= first_after(track, t) <= track.len(),
        forall|k: int| 0 <= k < first_after(track, t) ==> track[k].0 <= t,
        first_after(track, t) < track.len() ==> track[first_after(track, t)].0 > t,
{
    lemma_first_after_from(track, t, 0);
}

/// On a track whose timestamps strictly increase, sampling at a sample's own
/// timestamp gives that sample's position.
pub proof fn lemma_sample_at_own_timestamp(track: Seq<(u64, Position)>, i: int)
    requires
        strictly_increasing(track),
        0 <= i < track.len(),
    ensures
        sample_track(track, track[i].0 as int) == track[i].1,
{
    let t = track[i].0 as int;
    lemma_first_after(track, t);
    let j = first_after(track, t);
    if j <= i {
        assert(track[j].0 > t);
        if j < i {
            assert(track[j].0 < track[i].0);
        }
        assert(false);
    }
    if j < track.len() {
        assert(j == i + 1) by {
            if j > i + 1 {
                assert(track[i + 1].0 <= t);
                assert(track[i].0 < track[i + 1].0);
            }
        }
        let p = track[i].1;
        let q = track[j].1;
        let den = track[j].0 - track[i].0;
        assert((q.x - p.x) * 0 == 0);
        assert((q.y - p.y) * 0 == 0);
        assert(0int / den == 0);
    } else {
        assert(i == track.len() - 1) by {
            if i < track.len() - 1 {
                assert(track[i + 1].0 <= t);
                assert(track[i].0 < track[i + 1].0);
            }
        }
    }
}

/// Sampling before every timestamp of a track gives its first position, and
/// sampling at or after every timestamp gives its last.
pub proof fn lemma_sample_outside_track(track: Seq<(u64, Position)>, t: int)
    requires
        track.len() > 0,
    ensures
        (forall|k: int| 0 <= k < track.len() ==> t < track[k].0) ==> sample_track(track, t) == track[0].1,
        (forall|k: int| 0 <= k < track.len() ==> track[k].0 <= t) ==> sample_track(track, t) == track[track.len() - 1].1,
{
    lemma_first_after(track, t);
    let j = first_after(track, t);
    if forall|k: int| 0 <= k < track.len() ==> t < track[k].0 {
        if j > 0 {
            assert(track[0].0 <= t);
        }
    }
    if forall|k: int| 0 <= k < track.len() ==> track[k].0 <= t {
        if j < track.len() {
            assert(track[j].0 <= t);
        }
    }
}

/// Rounding down a negated quotient is the negation of rounding up.
proof fn lemma_neg_div_ceil(m: int, den: int)
    requires
        m >= 0,
        den > 0,
    ensures
        (-m) / den == -((m + den - 1) / den),
{
    let q = (m + den - 1) / den;
    let r = (m + den - 1) % den;
    lemma_fundamental_div_mod(m + den - 1, den);
    assert(m + den - 1 == den * q + r);
    assert(-m == (-q) * den + (den - 1 - r)) by (nonlinear_arith)
        requires
            m + den - 1 == den * q + r,
    ;
    lemma_fundamental_div_mod_converse(-m, den, -q, den - 1 - r);
}

/// A fraction below one of a non-negative amount, rounded down or up, stays
/// within that amount.
proof fn lemma_fraction_bounds(d: int, num: int, den: int)
    requires
        d >= 0,
        0 <= num < den,
    ensures
        0 <= (d * num) / den <= d,
        0 <= (d * num + den - 1) / den <= d,
{
    assert(d * num <= d * (den - 1)) by (nonlinear_arith)
        requires
            num <= den - 1,
            d >= 0,
    ;
    assert(0 <= d * num) by (nonlinear_arith)
        requires
            num >= 0,
            d >= 0,
    ;
    assert(d * (den - 1) <= d * den) by (nonlinear_arith)
        requires
            d >= 0,
    ;
    lemma_div_is_ordered(0, d * num, den);
    lemma_div_is_ordered(d * num, d * num + den - 1, den);
    lemma_div_is_ordered(d * num + den - 1, d * den + den - 1, den);
    lemma_fundamental_div_mod_converse(d * den + den - 1, den, d, den - 1);
    assert(0int / den == 0);
}

/// Interpolates one coordinate from `a` towards `b` by `num / den`, rounding
/// down.
pub fn lerp_coord_exec(a: i32, b: i32, num: u64, den: u64) -> (r: i32)
    requires
        num < den,
    ensures
        r == lerp_coord(a, b, num as int, den as int),
{
    if b >= a {
        let d: u128 = (b as i64 - a as i64) as u128;
        proof {
            lemma_fraction_bounds(d as int, num as int, den as int);
            assert(d * num <= 0xFFFF_FFFFu128 * 0xFFFF_FFFF_FFFF_FFFFu128) by (nonlinear_arith)
                requires
                    d <= 0xFFFF_FFFFu128,
                    num <= 0xFFFF_FFFF_FFFF_FFFFu64,
            ;
        }
        let q: u128 = d * (num as u128) / (den as u128);
        (a as i64 + q as i64) as i32
    } else {
        let d: u128 = (a as i64 - b as i64) as u128;
        proof {
            lemma_fraction_bounds(d as int, num as int, den as int);
            assert(d * num <= 0xFFFF_FFFFu128 * 0xFFFF_FFFF_FFFF_FFFFu128) by (nonlinear_arith)
                requires
                    d <= 0xFFFF_FFFFu128,
                    num <= 0xFFFF_FFFF_FFFF_FFFFu64,
            ;
            lemma_neg_div_ceil(d * num, den as int);
            assert((b - a) * num == -(d * num)) by (nonlinear_arith)
                requires
                    d == a - b,
            ;
        }
        let q: u128 = (d * (num as u128) + (den as u128 - 1)) / (den as u128);
        (a as i64 - q as i64) as i32
    }
}

/// Interpolates between two positions by `num / den`.
pub fn lerp_position_exec(p: Position, q: Position, num: u64, den: u64) -> (r: Position)
    requires
        num < den,
    ensures
        r == lerp_position(p, q, num as int, den as int),
{
    Position { x: lerp_coord_exec(p.x, q.x, num, den), y: lerp_coord_exec(p.y, q.y, num, den) }
}

} // verus!
