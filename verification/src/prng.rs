//! The deterministic generator behind layouts and tie-breaks.

use crate::binary64::{self, Binary64};
use crate::order;
use crate::rounding::{self, Exact};
use vstd::arithmetic::mul::*;
use vstd::arithmetic::power2::*;
use vstd::prelude::*;

verus! {

/// mulberry32: a small 32-bit generator whose draws are fractions of 2^32.
#[derive(Debug, Clone)]
pub struct Mulberry32 {
    state: u32,
}

/// The state after one draw.
pub open spec fn advance(s: u32) -> u32 {
    s.wrapping_add(0x6d2b_79f5)
}

/// The 32 bits that are drawn when the generator arrives at state `s`.
pub open spec fn scramble(s: u32) -> u32 {
    let t = (s ^ (s >> 15)).wrapping_mul(1 | s);
    let u = t.wrapping_add((t ^ (t >> 7)).wrapping_mul(61 | t)) ^ t;
    u ^ (u >> 14)
}

/// The number drawn when the generator arrives at state `s`, in `[0, 1)`.
pub open spec fn drawn(s: u32) -> Binary64 {
    Binary64::fraction(scramble(s) as int, 0x1_0000_0000)
}

impl View for Mulberry32 {
    type V = u32;

    closed spec fn view(&self) -> u32 {
        self.state
    }
}

impl Mulberry32 {
    /// Seeds the stream.
    pub fn new(seed: u32) -> (r: Mulberry32)
        ensures
            r@ == seed,
    {
        Mulberry32 { state: seed }
    }

    /// Next number in `[0, 1)`.
    pub fn next(&mut self) -> (r: Binary64)
        ensures
            final(self)@ == advance(old(self)@),
            r == drawn(final(self)@),
    {
        self.state = self.state.wrapping_add(0x6d2b_79f5);
        let s: u32 = self.state;
        let t: u32 = (s ^ (s >> 15)).wrapping_mul(1 | s);
        let u: u32 = t.wrapping_add((t ^ (t >> 7)).wrapping_mul(61 | t)) ^ t;
        Binary64::ratio((u ^ (u >> 14)) as u64, 0x1_0000_0000)
    }
}

/// Every draw is a multiple of 2^-32 in `[0, 1)`.
pub proof fn lemma_drawn_in_unit(s: u32)
    ensures
        drawn(s).finite(),
        drawn(s).value() == scramble(s) * pow2(1042),
        0 <= drawn(s).value() < Binary64::one().value(),
{
    reveal(Binary64::fraction);
    let t = scramble(s) as int;
    let u = binary64::one_unit();
    let v = pow2(1042) as int;
    order::lemma_constants();
    lemma2_to64();
    lemma_pow2_adds(32, 1042);
    lemma_pow2_pos(1042);
    let p = rounding::lemma_representable(t, 1042);
    let x = Exact::Ratio { n: t * u, d: 0x1_0000_0000 };
    assert(t * u == (t * v) * 0x1_0000_0000) by (nonlinear_arith)
        requires
            u == 0x1_0000_0000 * v,
    ;
    lemma_mul_nonnegative(t, u);
    rounding::lemma_nearest_exact(x, p);
    lemma_mul_strict_inequality(t, 0x1_0000_0000, v);
    lemma_mul_nonnegative(t, v);
}

/// The binary logarithm, rounded down.
proof fn lemma_log(n: int) -> (j: nat)
    requires
        0 < n < 0x1_0000_0000,
    ensures
        pow2(j) <= n < 2 * pow2(j),
        j < 32,
    decreases n,
{
    lemma2_to64();
    if n == 1 {
        0
    } else {
        let i = lemma_log(n / 2);
        lemma_pow2_unfold(i + 1);
        if i + 1 >= 32 {
            if i + 1 > 32 {
                lemma_pow2_strictly_increases(32, i + 1);
            }
        }
        i + 1
    }
}

/// A draw times a list's length, rounded down, is a position in the list.
pub proof fn lemma_drawn_position(s: u32, len: int)
    requires
        0 < len < 0x1_0000_0000,
    ensures
        0 <= drawn(s).times(Binary64::fraction(len, 1)).floor() < len,
{
    let t = scramble(s) as int;
    let u = binary64::one_unit();
    let v = pow2(1042) as int;
    let d = drawn(s);
    let l = Binary64::fraction(len, 1);
    order::lemma_constants();
    lemma_drawn_in_unit(s);
    order::lemma_whole_number(len);
    lemma_pow2_pos(1042);
    lemma_mul_nonnegative(len, u);
    order::lemma_times(d, l);
    let r = d.times(l);
    // The largest representable number below len that the product cannot pass.
    let j = lemma_log(len);
    lemma2_to64();
    lemma_pow2_adds(32, 1042);
    lemma_pow2_adds(j, (32 - j) as nat);
    lemma_pow2_adds(j, 1042);
    let w = pow2((32 - j) as nat) as int;
    let h = pow2(j) as int;
    lemma_pow2_pos((32 - j) as nat);
    lemma_pow2_pos(j);
    let c = len * w - 1;
    assert(0 <= c < 0x20_0000_0000_0000) by (nonlinear_arith)
        requires
            c == len * w - 1,
            0 < len < 2 * h,
            h * w == 0x1_0000_0000,
            w > 0,
            h > 0,
    ;
    let p = rounding::lemma_representable(c, 1042 + j as int);
    let y = Binary64 { bits: p as u64 };
    let hv = pow2((1042 + j) as nat) as int;
    assert(y.value() == c * hv);
    assert(hv == h * v);
    let prod = d.value() * l.value();
    assert(prod == ((t * v) * len) * u) by (nonlinear_arith)
        requires
            prod == (t * v) * (len * u),
    ;
    assert((t * v) * len <= c * (h * v)) by (nonlinear_arith)
        requires
            0 <= t <= 0x1_0000_0000 - 1,
            c == len * w - 1,
            h * w == 0x1_0000_0000,
            0 < h <= len,
            v > 0,
    ;
    assert(c * (h * v) < len * u) by (nonlinear_arith)
        requires
            c == len * w - 1,
            h * w == 0x1_0000_0000,
            u == 0x1_0000_0000 * v,
            h > 0,
            v > 0,
    ;
    let q = (t * v) * len;
    assert((q * u) * 1 <= (c * hv) * u) by (nonlinear_arith)
        requires
            q <= c * hv,
            u > 0,
    ;
    order::lemma_rounded_grows(prod, u, y.value(), 1);
    order::lemma_rounded_exact(y, 1);
    assert(0 <= r.value() < len * u);
    vstd::arithmetic::div_mod::lemma_fundamental_div_mod(r.value(), u);
    vstd::arithmetic::div_mod::lemma_div_pos_is_pos(r.value(), u);
    let f = r.value() / u;
    assert(f < len) by (nonlinear_arith)
        requires
            u * f <= r.value(),
            r.value() < len * u,
            u > 0,
    ;
}

} // verus!
