//! Coordinate arithmetic: mapping a global world coordinate to a chunk
//! coordinate and an in-chunk offset by floor division and floor modulo,
//! which round toward negative infinity so that negative coordinates map
//! correctly.

use vstd::prelude::*;

verus! {

/// Floor division for a positive divisor: rounds toward negative infinity.
/// On `int`, `/` is Euclidean division, which coincides with floor division
/// whenever the divisor is positive.
pub open spec fn floor_div(a: int, b: int) -> int {
    a / b
}

/// Floor modulo for a positive divisor: the representative of `a` modulo `b`
/// that lies in `[0, b)`.
pub open spec fn floor_mod(a: int, b: int) -> int {
    a % b
}

/// For every integer, the chunk coordinate and the in-chunk offset recombine
/// to the original coordinate, and the offset lies in `[0, b)`.
pub proof fn lemma_floor_div_mod(a: int, b: int)
    requires
        0 < b,
    ensures
        floor_div(a, b) * b + floor_mod(a, b) == a,
        0 <= floor_mod(a, b) < b,
{
    vstd::arithmetic::div_mod::lemma_fundamental_div_mod(a, b);
    vstd::arithmetic::mul::lemma_mul_is_commutative(a / b, b);
}

/// Floor division of a signed coordinate by a positive divisor.
pub fn negative_int_div(l: i32, r: i32) -> (q: i32)
    requires
        0 < r,
    ensures
        q as int == floor_div(l as int, r as int),
{
    if l >= 0 {
        ((l as u32) / (r as u32)) as i32
    } else {
        let m: u32 = (-(l + 1)) as u32;
        let d: u32 = m / (r as u32);
        proof {
            lemma_neg_floor_div(l as int, r as int, m as int, d as int);
        }
        -(d as i32) - 1
    }
}

/// Floor modulo of a signed coordinate by a positive divisor.
pub fn negative_mod(l: i32, r: i32) -> (m: i32)
    requires
        0 < r,
    ensures
        m as int == floor_mod(l as int, r as int),
{
    if l >= 0 {
        ((l as u32) % (r as u32)) as i32
    } else {
        let mm: u32 = (-(l + 1)) as u32;
        let s: u32 = mm % (r as u32);
        proof {
            lemma_neg_floor_div(l as int, r as int, mm as int, (mm as int) / (r as int));
        }
        (r - 1) - (s as i32)
    }
}

/// For `l < 0` with `m == -l - 1` and `d == m / r`, the floor quotient of `l`
/// is `-d - 1` and the floor remainder is `r - 1 - m % r`.
proof fn lemma_neg_floor_div(l: int, r: int, m: int, d: int)
    requires
        0 < r,
        l < 0,
        m == -l - 1,
        d == m / r,
    ensures
        l / r == -d - 1,
        l % r == r - 1 - (m % r),
{
    let s = m % r;
    vstd::arithmetic::div_mod::lemma_fundamental_div_mod(m, r);
    assert(l == (-d - 1) * r + (r - 1 - s)) by (nonlinear_arith)
        requires
            m == r * d + s,
            l == -m - 1,
    {
    }
    vstd::arithmetic::div_mod::lemma_fundamental_div_mod_converse(l, r, -d - 1, r - 1 - s);
}

} // verus!
