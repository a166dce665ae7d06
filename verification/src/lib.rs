//! Statistical analytics and interactive-rendering pipeline for a columnar
//! plotting tool.
//!
//! Numeric data flows through the crate as fixed-point values: an `i64` that
//! holds a measurement multiplied by [`SCALE`]. All statistics, downsampling
//! and filtering are specified and verified exactly over that representation.

pub mod app_state;
pub mod cache;
pub mod charts;
pub mod constants;
pub mod filters;
pub mod lod;
pub mod parse;
pub mod perf;
pub mod spc;
pub mod stats;
pub mod table;
pub mod uistate;
pub mod view;
pub mod downsample;
pub mod error;

use vstd::prelude::*;

verus! {

/// Fixed-point scale: every numeric cell value is a multiple of 1/SCALE.
pub const SCALE: i64 = 1048576;

/// Floor division for signed fixed-point values (divisor must be positive).
///
/// Matches the mathematical quotient `a / b` rounded toward negative
/// infinity, which is what the spec-level `/` denotes for a positive divisor.
pub fn div_floor(a: i64, b: i64) -> (r: i64)
    requires
        b > 0,
        a > i64::MIN,
    ensures
        r == a as int / b as int,
{
    if a >= 0 {
        a / b
    } else {
        let q = (-a) / b;
        let m = (-a) % b;
        proof {
            vstd::arithmetic::div_mod::lemma_fundamental_div_mod((-a) as int, b as int);
            if m == 0 {
                assert(a as int == -(q as int) * (b as int) + 0) by (nonlinear_arith)
                    requires -(a as int) == (b as int) * (q as int) + m as int, m == 0;
                vstd::arithmetic::div_mod::lemma_fundamental_div_mod_converse(
                    a as int, b as int, -(q as int), 0);
            } else {
                assert(a as int == (-(q as int) - 1) * (b as int) + (b - m)) by (nonlinear_arith)
                    requires -(a as int) == (b as int) * (q as int) + m as int;
                vstd::arithmetic::div_mod::lemma_fundamental_div_mod_converse(
                    a as int, b as int, -(q as int) - 1, b - m);
            }
        }
        if m == 0 {
            -q
        } else {
            -q - 1
        }
    }
}

/// Floor division for wide intermediates (divisor must be positive).
pub fn div_floor_i128(a: i128, b: i128) -> (r: i128)
    requires
        b > 0,
        a > i128::MIN,
    ensures
        r == a as int / b as int,
{
    if a >= 0 {
        a / b
    } else {
        let q = (-a) / b;
        let m = (-a) % b;
        proof {
            vstd::arithmetic::div_mod::lemma_fundamental_div_mod((-a) as int, b as int);
            if m == 0 {
                assert(a as int == -(q as int) * (b as int) + 0) by (nonlinear_arith)
                    requires -(a as int) == (b as int) * (q as int) + m as int, m == 0;
                vstd::arithmetic::div_mod::lemma_fundamental_div_mod_converse(
                    a as int, b as int, -(q as int), 0);
            } else {
                assert(a as int == (-(q as int) - 1) * (b as int) + (b - m)) by (nonlinear_arith)
                    requires -(a as int) == (b as int) * (q as int) + m as int;
                vstd::arithmetic::div_mod::lemma_fundamental_div_mod_converse(
                    a as int, b as int, -(q as int) - 1, b - m);
            }
        }
        if m == 0 {
            -q
        } else {
            -q - 1
        }
    }
}

} // verus!
