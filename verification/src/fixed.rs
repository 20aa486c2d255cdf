//! Exact arithmetic for the real-valued parts of the graph.
//!
//! Activations are integers counting micro-units: the real number `x` is held
//! as `x * MICRO`. Chain edge weights are exact rationals `num / den` with
//! `0 <= num <= den`, so scaling an activation by a weight never grows it.

use vstd::arithmetic::div_mod::{lemma_fundamental_div_mod, lemma_fundamental_div_mod_converse};
use vstd::prelude::*;

verus! {

/// Number of micro-units in one unit of activation.
pub const MICRO: i64 = 1_000_000;

/// The least propagating activation that still reaches the next neighbour
/// during fuzzy activation: 0.8, expressed in micro-units.
pub const INTERELEMENT_ACTIVATION_THRESHOLD: i64 = 800_000;

/// An exact rational weight of a chain edge, `num / den` with `den >= 1`.
#[derive(Clone, Copy, PartialEq, Eq, Structural, Debug)]
pub struct Weight {
    pub num: u64,
    pub den: u64,
}

/// Distance of two keys: the absolute difference.
pub open spec fn dist_spec(a: int, b: int) -> int {
    if a >= b {
        a - b
    } else {
        b - a
    }
}

/// The weight of the chain edge joining keys `a` and `b` under the given
/// range: `1 - dist(a, b) / range`, floored at zero.
pub open spec fn weight_spec(a: int, b: int, range: int) -> Weight {
    Weight {
        num: (if dist_spec(a, b) <= range {
            range - dist_spec(a, b)
        } else {
            0
        }) as u64,
        den: range as u64,
    }
}

/// Saturating sum of two activations.
pub open spec fn sat_add_spec(a: int, b: int) -> int {
    if a + b > i64::MAX as int {
        i64::MAX as int
    } else if a + b < i64::MIN as int {
        i64::MIN as int
    } else {
        a + b
    }
}

/// An activation scaled by a rational weight, rounded towards minus infinity:
/// `floor(a * num / den)`.
pub open spec fn scale_spec(a: int, num: int, den: int) -> int
    recommends
        den >= 1,
{
    (a * num) / den
}

pub fn distance(a: i32, b: i32) -> (r: u64)
    ensures
        r as int == dist_spec(a as int, b as int),
{
    let wa: i64 = a as i64;
    let wb: i64 = b as i64;
    if wa >= wb {
        (wa - wb) as u64
    } else {
        (wb - wa) as u64
    }
}

pub fn weight_of(a: i32, b: i32, range: u64) -> (w: Weight)
    requires
        range >= 1,
    ensures
        w == weight_spec(a as int, b as int, range as int),
        w.num <= w.den,
        w.den == range,
{
    let d = distance(a, b);
    let num: u64 = if d <= range {
        range - d
    } else {
        0
    };
    Weight { num, den: range }
}

pub fn sat_add(a: i64, b: i64) -> (r: i64)
    ensures
        r as int == sat_add_spec(a as int, b as int),
{
    let s: i128 = a as i128 + b as i128;
    if s > i64::MAX as i128 {
        i64::MAX
    } else if s < i64::MIN as i128 {
        i64::MIN
    } else {
        s as i64
    }
}

/// Scaling never grows the magnitude of the activation when `num <= den`.
pub proof fn lemma_scale_bounds(a: int, num: int, den: int)
    requires
        den >= 1,
        0 <= num <= den,
    ensures
        a >= 0 ==> 0 <= scale_spec(a, num, den) <= a,
        a < 0 ==> a <= scale_spec(a, num, den) <= 0,
{
    lemma_fundamental_div_mod(a * num, den);
    if a >= 0 {
        assert(a * num <= a * den) by (nonlinear_arith)
            requires 0 <= num <= den, a >= 0;
        assert(a * num >= 0) by (nonlinear_arith)
            requires a >= 0, num >= 0;
        assert((a * num) / den <= (a * den) / den) by {
            vstd::arithmetic::div_mod::lemma_div_is_ordered(a * num, a * den, den);
        }
        assert((a * den) / den == a) by {
            vstd::arithmetic::div_mod::lemma_div_by_multiple(a, den);
        }
        assert((a * num) / den >= 0) by {
            vstd::arithmetic::div_mod::lemma_div_pos_is_pos(a * num, den);
        }
    } else {
        assert(a * den <= a * num) by (nonlinear_arith)
            requires 0 <= num <= den, a < 0;
        assert(a * num <= 0) by (nonlinear_arith)
            requires a < 0, num >= 0;
        assert((a * den) / den <= (a * num) / den) by {
            vstd::arithmetic::div_mod::lemma_div_is_ordered(a * den, a * num, den);
        }
        assert((a * den) / den == a) by {
            vstd::arithmetic::div_mod::lemma_div_multiples_vanish(a, den);
            assert(a * den == den * a) by (nonlinear_arith);
        }
        assert((a * num) / den <= 0) by {
            lemma_fundamental_div_mod(a * num, den);
            if (a * num) / den > 0 {
                assert(a * num == den * ((a * num) / den) + (a * num) % den);
                assert(den * ((a * num) / den) >= den) by (nonlinear_arith)
                    requires den >= 1, (a * num) / den > 0;
            }
        }
    }
}

pub fn scale_by_weight(a: i64, w: Weight) -> (r: i64)
    requires
        w.den >= 1,
        w.num <= w.den,
    ensures
        r as int == scale_spec(a as int, w.num as int, w.den as int),
{
    proof {
        lemma_scale_bounds(a as int, w.num as int, w.den as int);
    }
    if a >= 0 {
        proof {
            assert((a as u128) as int * (w.num as u128) as int <= u128::MAX as int)
                by (nonlinear_arith)
                requires
                    0 <= (a as u128) as int <= i64::MAX as int,
                    (w.num as u128) as int <= u64::MAX as int;
        }
        let p: u128 = (a as u128) * (w.num as u128);
        let q: u128 = p / (w.den as u128);
        proof {
            assert(p as int == (a as int) * (w.num as int));
            assert(q as int == scale_spec(a as int, w.num as int, w.den as int));
        }
        q as i64
    } else {
        // floor(a*num/den) == -ceil(|a|*num/den)
        let b: u128 = (-(a as i128)) as u128;
        proof {
            assert((b as int) * ((w.num as u128) as int) <= u128::MAX as int)
                by (nonlinear_arith)
                requires
                    0 <= b as int <= 0x8000000000000000,
                    (w.num as u128) as int <= u64::MAX as int;
        }
        let p: u128 = b * (w.num as u128);
        let q: u128 = if p == 0 {
            0
        } else {
            (p - 1) / (w.den as u128) + 1
        };
        proof {
            let ai = a as int;
            let n = w.num as int;
            let d = w.den as int;
            assert(b as int == -ai);
            assert(p as int == (-ai) * n) by (nonlinear_arith)
                requires p as int == b as int * n, b as int == -ai;
            if p == 0 {
                assert(ai * n == 0) by (nonlinear_arith)
                    requires (-ai) * n == 0;
                assert(scale_spec(ai, n, d) == 0) by {
                    vstd::arithmetic::div_mod::lemma_div_of0(d);
                }
            } else {
                let pp = p as int;
                let qq = pp / d;
                let rr = pp % d;
                lemma_fundamental_div_mod(pp, d);
                // (p - 1) / d + 1 equals ceil(p / d)
                if rr == 0 {
                    assert((qq - 1) * d == qq * d - d) by (nonlinear_arith);
                    assert((-qq) * d == -(qq * d)) by (nonlinear_arith);
                    lemma_fundamental_div_mod_converse(pp - 1, d, qq - 1, d - 1);
                    assert((pp - 1) / d + 1 == qq);
                    lemma_fundamental_div_mod_converse(-pp, d, -qq, 0);
                    assert(ai * n == -pp) by (nonlinear_arith)
                        requires pp == (-ai) * n;
                    assert((ai * n) / d == -qq);
                } else {
                    assert((-(qq + 1)) * d == -(qq * d) - d) by (nonlinear_arith);
                    lemma_fundamental_div_mod_converse(pp - 1, d, qq, rr - 1);
                    assert((pp - 1) / d + 1 == qq + 1);
                    lemma_fundamental_div_mod_converse(-pp, d, -(qq + 1), d - rr);
                    assert(ai * n == -pp) by (nonlinear_arith)
                        requires pp == (-ai) * n;
                    assert((ai * n) / d == -(qq + 1));
                }
            }
        }
        (-(q as i128)) as i64
    }
}

} // verus!
