//! Colony health indicator: a pure map from the population and the previous
//! population to an HSV color for a single status LED.
//!
//! The hue walks a piecewise-linear schedule around a "thriving" midpoint
//! `m`: red when nearly dead, climbing to green at the midpoint, green while
//! thriving, then climbing toward cyan when overcrowded. The brightness
//! pulses with the rate of change of the population.

use vstd::prelude::*;
use vstd::arithmetic::div_mod::lemma_div_is_ordered;
use vstd::arithmetic::div_mod::lemma_div_pos_is_pos;
use vstd::arithmetic::div_mod::lemma_multiply_divide_lt;

verus! {

/// Hue for population `pop` around the thriving midpoint `m`: 0 (red) below
/// a sixth of the midpoint, rising linearly to 80 (green) at the midpoint,
/// 80 while thriving, rising linearly from 80 to 140 (cyan) between 2.67 and
/// 5 times the midpoint, and 140 beyond.
pub open spec fn hue_spec(pop: int, m: int) -> int {
    let lo = m / 6;
    let mid_hi = 267 * m / 100;
    let hi = 5 * m;
    if pop < lo {
        0
    } else if pop < m {
        (pop - lo) * 80 / (m - lo)
    } else if pop < mid_hi {
        80
    } else if pop < hi {
        80 + (pop - mid_hi) * 60 / (hi - mid_hi)
    } else {
        140
    }
}

/// Brightness for the change from `prev` to `pop`: 8 when calm, 20 for a
/// moderate change (over a tenth of the midpoint), 40 for a large change
/// (over a third of the midpoint).
pub open spec fn val_spec(pop: int, prev: int, m: int) -> int {
    let delta = if pop >= prev {
        pop - prev
    } else {
        prev - pop
    };
    if delta > m / 3 {
        40
    } else if delta > m / 10 {
        20
    } else {
        8
    }
}

/// An HSV color for the status LED.
#[derive(Clone, Copy, Debug, PartialEq, Eq, Structural)]
pub struct HealthColor {
    pub hue: u8,
    pub sat: u8,
    pub val: u8,
}

/// The boundaries of the hue schedule are ordered, and each piece stays
/// within its band: below 80 before the midpoint, at least 80 from it on,
/// and 140 exactly from five midpoints up.
pub proof fn lemma_hue_bounds(p: int, m: int)
    requires
        6 <= m,
        0 <= p,
    ensures
        0 <= hue_spec(p, m) <= 140,
        p < m ==> hue_spec(p, m) < 80,
        p >= m ==> 80 <= hue_spec(p, m),
        p >= 5 * m ==> hue_spec(p, m) == 140,
        p < 5 * m ==> hue_spec(p, m) < 140,
{
    let lo = m / 6;
    let mid_hi = 267 * m / 100;
    let hi = 5 * m;
    lemma_div_pos_is_pos(m, 6);
    lemma_multiply_divide_lt(m, 6, m);
    assert(lo < m);
    lemma_div_pos_is_pos(267 * m, 100);
    assert(100 * m <= 267 * m);
    lemma_div_is_ordered(100 * m, 267 * m, 100);
    assert(100 * m / 100 == m) by (nonlinear_arith);
    assert(m <= mid_hi);
    assert(267 * m < 100 * (5 * m)) by (nonlinear_arith)
        requires
            m >= 1,
    ;
    lemma_multiply_divide_lt(267 * m, 100, 5 * m);
    assert(mid_hi < hi);
    if lo <= p < m {
        assert(0 <= (p - lo) * 80 && (p - lo) * 80 < (m - lo) * 80) by (nonlinear_arith)
            requires
                0 <= p - lo < m - lo,
        ;
        lemma_div_pos_is_pos((p - lo) * 80, m - lo);
        lemma_multiply_divide_lt((p - lo) * 80, m - lo, 80);
        assert(hue_spec(p, m) < 80);
    }
    if mid_hi <= p < hi {
        assert(0 <= (p - mid_hi) * 60 && (p - mid_hi) * 60 < (hi - mid_hi) * 60)
            by (nonlinear_arith)
            requires
                0 <= p - mid_hi < hi - mid_hi,
        ;
        lemma_div_pos_is_pos((p - mid_hi) * 60, hi - mid_hi);
        lemma_multiply_divide_lt((p - mid_hi) * 60, hi - mid_hi, 60);
        assert(hue_spec(p, m) < 140);
    }
}

/// The hue is non-decreasing in the population: for a fixed midpoint, a
/// larger colony never maps to a smaller hue, within each piece and across
/// the boundaries of the schedule.
pub proof fn lemma_hue_monotone(p1: int, p2: int, m: int)
    requires
        6 <= m,
        0 <= p1 <= p2,
    ensures
        hue_spec(p1, m) <= hue_spec(p2, m),
{
    let lo = m / 6;
    let mid_hi = 267 * m / 100;
    let hi = 5 * m;
    lemma_hue_bounds(p1, m);
    lemma_hue_bounds(p2, m);
    if lo <= p1 < m && lo <= p2 < m {
        assert((p1 - lo) * 80 <= (p2 - lo) * 80) by (nonlinear_arith)
            requires
                p1 <= p2,
        ;
        lemma_div_is_ordered((p1 - lo) * 80, (p2 - lo) * 80, m - lo);
    }
    if mid_hi <= p1 < hi && mid_hi <= p2 < hi {
        assert((p1 - mid_hi) * 60 <= (p2 - mid_hi) * 60) by (nonlinear_arith)
            requires
                p1 <= p2,
        ;
        lemma_div_is_ordered((p1 - mid_hi) * 60, (p2 - mid_hi) * 60, hi - mid_hi);
    }
}

/// Map a population and the previous population to the LED color, around the
/// thriving midpoint `m`.
pub fn health_color_with(pop: u32, prev_pop: u32, m: u32) -> (r: HealthColor)
    requires
        6 <= m <= 1_000_000,
    ensures
        r.hue == hue_spec(pop as int, m as int),
        r.sat == 255,
        r.val == val_spec(pop as int, prev_pop as int, m as int),
{
    let m64 = m as u64;
    let pop64 = pop as u64;
    let prev64 = prev_pop as u64;
    proof {
        lemma_hue_bounds(pop as int, m as int);
    }
    let lo = m64 / 6;
    let mid_hi = 267 * m64 / 100;
    let hi = 5 * m64;
    let hue64: u64 = if pop64 < lo {
        0
    } else if pop64 < m64 {
        (pop64 - lo) * 80 / (m64 - lo)
    } else if pop64 < mid_hi {
        80
    } else if pop64 < hi {
        80 + (pop64 - mid_hi) * 60 / (hi - mid_hi)
    } else {
        140
    };
    proof {
        assert(hue64 == hue_spec(pop as int, m as int));
    }
    let delta = if pop64 >= prev64 {
        pop64 - prev64
    } else {
        prev64 - pop64
    };
    let val64: u64 = if delta > m64 / 3 {
        40
    } else if delta > m64 / 10 {
        20
    } else {
        8
    };
    HealthColor { hue: hue64 as u8, sat: 255, val: val64 as u8 }
}

/// The thriving midpoint calibrated for the 512 by 256 world.
pub const THRIVING_MIDPOINT: u32 = 5000;

/// Map a population and the previous population to the LED color, with the
/// large-world calibration.
pub fn health_color(pop: u32, prev_pop: u32) -> (r: HealthColor)
    ensures
        r.hue == hue_spec(pop as int, THRIVING_MIDPOINT as int),
        r.sat == 255,
        r.val == val_spec(pop as int, prev_pop as int, THRIVING_MIDPOINT as int),
{
    health_color_with(pop, prev_pop, THRIVING_MIDPOINT)
}

/// The RGB triple that standard HSV-to-RGB conversion assigns to the HSV
/// triple `(hue, sat, val)`: a fixed function of the three components.
pub uninterp spec fn rgb_of_hsv(hue: u8, sat: u8, val: u8) -> (u8, u8, u8);

/// Relies on smart_leds::hsv::hsv2rgb: the conversion is a pure function of
/// the three components; each output channel is a fraction of `val`, so none
/// exceeds it; and with saturation zero the color is grey, every channel
/// exactly `val`.
#[verifier::external_body]
fn hsv_to_rgb(hue: u8, sat: u8, val: u8) -> (r: (u8, u8, u8))
    ensures
        r == rgb_of_hsv(hue, sat, val),
        r.0 <= val && r.1 <= val && r.2 <= val,
        sat == 0 ==> r.0 == val && r.1 == val && r.2 == val,
{
    let c = smart_leds::hsv::hsv2rgb(smart_leds::hsv::Hsv { hue, sat, val });
    (c.r, c.g, c.b)
}

/// The color to drive the status LED with, as an RGB triple, around the
/// thriving midpoint `m`.
pub fn health_rgb_with(pop: u32, prev_pop: u32, m: u32) -> (r: (u8, u8, u8))
    requires
        6 <= m <= 1_000_000,
    ensures
        ({
            let hue = hue_spec(pop as int, m as int) as u8;
            let val = val_spec(pop as int, prev_pop as int, m as int) as u8;
            r == rgb_of_hsv(hue, 255, val) && r.0 <= val && r.1 <= val && r.2 <= val
        }),
{
    let c = health_color_with(pop, prev_pop, m);
    hsv_to_rgb(c.hue, c.sat, c.val)
}

/// The color to drive the status LED with, with the large-world calibration.
pub fn health_rgb(pop: u32, prev_pop: u32) -> (r: (u8, u8, u8))
    ensures
        ({
            let hue = hue_spec(pop as int, THRIVING_MIDPOINT as int) as u8;
            let val = val_spec(pop as int, prev_pop as int, THRIVING_MIDPOINT as int) as u8;
            r == rgb_of_hsv(hue, 255, val) && r.0 <= val && r.1 <= val && r.2 <= val
        }),
{
    health_rgb_with(pop, prev_pop, THRIVING_MIDPOINT)
}

} // verus!
