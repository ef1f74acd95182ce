//! Fixed-point arithmetic on opacity values.
//!
//! An opacity is held as a signed 64-bit integer counted in units of
//! `1 / UNIT`: `UNIT` stands for fully opaque, `0` for fully transparent.
//! Time is counted in ticks, whose length the host chooses; a speed is a
//! number of units per tick.

use vstd::arithmetic::div_mod::lemma_fundamental_div_mod;
use vstd::arithmetic::div_mod::lemma_div_pos_is_pos;
use vstd::prelude::*;

verus! {

/// The value of a fully opaque node.
pub const UNIT: i64 = 4294967296;

/// `x` brought into the range of `i64`.
pub open spec fn saturate(x: int) -> int {
    if x > i64::MAX {
        i64::MAX as int
    } else if x < i64::MIN {
        i64::MIN as int
    } else {
        x
    }
}

/// The product of two opacities: `a * b / UNIT`, rounded down and saturated.
pub open spec fn product(a: int, b: int) -> int {
    saturate((a * b) / (UNIT as int))
}

/// The least number of whole steps of length `duration` that cover `distance`.
pub open spec fn steps_to_cover(distance: int, duration: int) -> int {
    (distance + duration - 1) / duration
}

/// The speed that covers `distance` in `duration` ticks: the quotient
/// rounded away from zero, so that the movement never takes longer than
/// asked and never stalls short of its target, and saturated.
pub open spec fn rate(distance: int, duration: int) -> int {
    if distance >= 0 {
        saturate(steps_to_cover(distance, duration))
    } else {
        saturate(-steps_to_cover(-distance, duration))
    }
}

/// Brings a wide value into the range of `i64`.
pub fn saturate_wide(x: i128) -> (r: i64)
    ensures
        r == saturate(x as int),
{
    if x > i64::MAX as i128 {
        i64::MAX
    } else if x < i64::MIN as i128 {
        i64::MIN
    } else {
        x as i64
    }
}

/// Multiplies two opacities.
pub fn multiply(a: i64, b: i64) -> (r: i64)
    ensures
        r == product(a as int, b as int),
{
    assert(-0x4000_0000_0000_0000_0000_0000_0000_0000 <= a * b
        <= 0x4000_0000_0000_0000_0000_0000_0000_0000) by (nonlinear_arith)
        requires
            -0x8000_0000_0000_0000 <= a <= 0x7fff_ffff_ffff_ffff,
            -0x8000_0000_0000_0000 <= b <= 0x7fff_ffff_ffff_ffff,
    ;
    let wide: i128 = (a as i128) * (b as i128);
    let unit: i128 = UNIT as i128;
    let quotient: i128 = if wide >= 0 {
        wide / unit
    } else {
        -((-wide + (unit - 1)) / unit)
    };
    saturate_wide(quotient)
}

/// The speed that brings a value from `from` to `to` in `duration` ticks.
pub fn speed_between(from: i64, to: i64, duration: u64) -> (r: i64)
    requires
        duration > 0,
    ensures
        r == rate(to - from, duration as int),
{
    let distance: i128 = (to as i128) - (from as i128);
    let span: i128 = duration as i128;
    let quotient: i128 = if distance >= 0 {
        (distance + (span - 1)) / span
    } else {
        let covered: i128 = (-distance + (span - 1)) / span;
        proof {
            lemma_div_pos_is_pos(-distance + (span - 1), span as int);
        }
        -covered
    };
    saturate_wide(quotient)
}

/// Multiplying by `UNIT` leaves an opacity as it is.
pub proof fn lemma_product_by_unit(opacity: i64)
    ensures
        product(opacity as int, UNIT as int) == opacity,
        product(UNIT as int, opacity as int) == opacity,
{
    assert(opacity * UNIT == UNIT * opacity) by (nonlinear_arith);
    assert((UNIT * opacity) / (UNIT as int) == opacity) by (nonlinear_arith);
}

/// A speed points the way of the distance that it is to cover, and is zero
/// only where there is no distance.
pub proof fn lemma_rate_points_the_way(distance: int, duration: int)
    requires
        duration > 0,
    ensures
        distance > 0 <==> rate(distance, duration) > 0,
        distance < 0 <==> rate(distance, duration) < 0,
{
    let size = if distance >= 0 {
        distance
    } else {
        -distance
    };
    let whole = size + duration - 1;
    lemma_fundamental_div_mod(whole, duration);
    assert(size > 0 ==> steps_to_cover(size, duration) > 0) by (nonlinear_arith)
        requires
            whole == duration * (whole / duration) + whole % duration,
            0 <= whole % duration < duration,
            whole == size + duration - 1,
            steps_to_cover(size, duration) == whole / duration,
            duration > 0,
    ;
    assert(size == 0 ==> steps_to_cover(size, duration) == 0) by (nonlinear_arith)
        requires
            whole == duration * (whole / duration) + whole % duration,
            0 <= whole % duration < duration,
            whole == size + duration - 1,
            steps_to_cover(size, duration) == whole / duration,
            duration > 0,
    ;
}

/// With the speed `rate(distance, duration)` the whole distance is covered
/// after `duration` ticks, and the speed points the way of the distance.
pub proof fn lemma_rate_covers(distance: int, duration: int)
    requires
        duration > 0,
        i64::MIN <= distance <= i64::MAX,
    ensures
        distance > 0 ==> rate(distance, duration) > 0 && rate(distance, duration) * duration
            >= distance,
        distance < 0 ==> rate(distance, duration) < 0 && rate(distance, duration) * duration
            <= distance,
        distance == 0 ==> rate(distance, duration) == 0,
{
    let size = if distance >= 0 {
        distance
    } else {
        -distance
    };
    let whole = size + duration - 1;
    let steps = steps_to_cover(size, duration);
    lemma_fundamental_div_mod(whole, duration);
    assert(steps * duration == duration * steps) by (nonlinear_arith);
    assert(size > 0 ==> steps > 0) by (nonlinear_arith)
        requires
            steps * duration >= size,
            duration > 0,
    ;
    assert(steps <= size) by (nonlinear_arith)
        requires
            whole == duration * steps + whole % duration,
            0 <= whole % duration,
            whole == size + duration - 1,
            duration >= 1,
            size >= 0,
    ;
    assert((-steps) * duration == -(steps * duration)) by (nonlinear_arith);
}

} // verus!
