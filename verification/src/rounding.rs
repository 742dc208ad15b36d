//! Rounding to double precision.
//!
//! The low 63 bits of a double (its *payload*) order the magnitudes: payload `p` stands for
//! [`magnitude`]`(p)` units of 2^-1074. An exact result rounds to the payload whose magnitude is
//! nearest, ties to even.

use vstd::arithmetic::mul::*;
use vstd::arithmetic::power2::*;
use vstd::prelude::*;

verus! {

/// The sign bit.
pub const SIGN: u64 = 0x8000_0000_0000_0000;

/// The payload of the infinities; larger payloads are NaNs.
pub const INFINITE: u64 = 0x7ff0_0000_0000_0000;

/// The payload of the NaN that the operations return.
pub const QUIET: u64 = 0x7ff8_0000_0000_0000;

/// 2^52: the implicit leading bit of a normal significand.
pub const HIDDEN: u64 = 0x0010_0000_0000_0000;

/// 2^53: one more than the largest significand.
pub const TOP: u64 = 0x0020_0000_0000_0000;

/// The bias by which [`round`] keeps its binary exponent non-negative.
pub const BIAS: u32 = 2048;

/// The magnitude, in units of 2^-1074, that payload `p` stands for. At [`INFINITE`] it is the
/// power of two that would follow the largest finite magnitude.
pub open spec fn magnitude(p: int) -> int {
    let e = p / (HIDDEN as int);
    let m = p % (HIDDEN as int);
    if e <= 0 {
        m
    } else {
        (HIDDEN + m) * pow2((e - 1) as nat)
    }
}

/// A non-negative real number that an operation has to round, in units of 2^-1074.
pub enum Exact {
    /// `n / d`.
    Ratio { n: int, d: int },
    /// The square root of `n`.
    Root { n: int },
}

impl Exact {
    pub open spec fn wf(self) -> bool {
        match self {
            Exact::Ratio { n, d } => n >= 0 && d > 0,
            Exact::Root { n } => n >= 0,
        }
    }

    /// Has the sign of the difference between the number and `a / 2^s`, for `a >= 0`.
    pub open spec fn excess(self, a: int, s: nat) -> int {
        match self {
            Exact::Ratio { n, d } => n * pow2(s) - a * d,
            Exact::Root { n } => n * (pow2(s) * pow2(s)) - a * a,
        }
    }

    /// Payload `p` is the nearest to the number; of two equally near, the even one.
    pub open spec fn rounds_to(self, p: int) -> bool {
        &&& 0 <= p <= INFINITE
        &&& p > 0 ==> {
            let c = self.excess(magnitude(p - 1) + magnitude(p), 1);
            c > 0 || (c == 0 && p % 2 == 0)
        }
        &&& p < INFINITE ==> {
            let c = self.excess(magnitude(p) + magnitude(p + 1), 1);
            c < 0 || (c == 0 && p % 2 == 0)
        }
    }

    /// The payload that the number rounds to.
    pub open spec fn nearest(self) -> int {
        choose|p: int| #[trigger] self.rounds_to(p)
    }
}

/// A payload splits as `e * 2^52 + sig`, and its magnitude is then `sig * 2^e`.
pub open spec fn splits(e: int, sig: int) -> bool {
    e >= 0 && ((e == 0 && 0 <= sig <= TOP) || HIDDEN <= sig <= TOP)
}

pub proof fn lemma_split_magnitude(e: int, sig: int)
    requires
        splits(e, sig),
    ensures
        magnitude(e * HIDDEN + sig) == sig * pow2(e as nat),
{
    let h = HIDDEN as int;
    let p = e * h + sig;
    lemma_pow2_pos(e as nat);
    if sig < h {
        lemma_pow2(0);
        assert(pow2(0) == 1) by {
            lemma2_to64();
        }
        assert(p / h == 0);
        assert(p % h == sig);
    } else if sig < TOP {
        assert(p == (e + 1) * h + (sig - h)) by (nonlinear_arith)
            requires
                p == e * h + sig,
        ;
        vstd::arithmetic::div_mod::lemma_fundamental_div_mod_converse(p, h, e + 1, sig - h);
    } else {
        assert(p == (e + 2) * h + 0) by (nonlinear_arith)
            requires
                p == e * h + sig,
                sig == 2 * h,
        ;
        vstd::arithmetic::div_mod::lemma_fundamental_div_mod_converse(p, h, e + 2, 0);
        lemma_pow2_unfold((e + 1) as nat);
        assert(h * (2 * pow2(e as nat)) == sig * pow2(e as nat)) by (nonlinear_arith)
            requires
                sig == 2 * h,
        ;
    }
}

/// The exponent part of a payload's split.
pub open spec fn split_e(p: int) -> int {
    if p / (HIDDEN as int) <= 1 {
        0
    } else {
        p / (HIDDEN as int) - 1
    }
}

pub open spec fn split_sig(p: int) -> int {
    p - split_e(p) * HIDDEN
}

/// Neighbouring payloads differ in magnitude by `2^e`.
pub proof fn lemma_split(p: int)
    requires
        p >= 0,
    ensures
        splits(split_e(p), split_sig(p)),
        split_sig(p) < TOP,
        magnitude(p) == split_sig(p) * pow2(split_e(p) as nat),
        magnitude(p + 1) == (split_sig(p) + 1) * pow2(split_e(p) as nat),
        magnitude(p) >= 0,
        magnitude(p + 1) == magnitude(p) + pow2(split_e(p) as nat),
        magnitude(p) < magnitude(p + 1),
{
    let e = split_e(p);
    let sig = split_sig(p);
    lemma_split_magnitude(e, sig);
    lemma_split_magnitude(e, sig + 1);
    lemma_pow2_pos(e as nat);
    lemma_mul_is_distributive_add_other_way(pow2(e as nat) as int, sig, 1);
    lemma_mul_nonnegative(sig, pow2(e as nat) as int);
}

pub proof fn lemma_magnitude_grows(p: int, q: int)
    requires
        0 <= p < q,
    ensures
        0 <= magnitude(p) < magnitude(q),
    decreases q - p,
{
    lemma_split(p);
    if p + 1 < q {
        lemma_magnitude_grows(p + 1, q);
    }
}

impl Exact {
    pub proof fn lemma_excess_falls(self, a: int, b: int, s: nat)
        requires
            self.wf(),
            0 <= a < b,
        ensures
            self.excess(a, s) > self.excess(b, s),
    {
        match self {
            Exact::Ratio { n, d } => {
                lemma_mul_strict_inequality(a, b, d);
            },
            Exact::Root { n } => {
                assert(a * a < b * b) by (nonlinear_arith)
                    requires
                        0 <= a < b,
                ;
            },
        }
    }

    /// Scaling both sides by a power of two keeps the sign.
    pub proof fn lemma_excess_scales(self, a: int, s: nat, t: nat)
        requires
            self.wf(),
        ensures
            (self.excess(a * pow2(t), s + t) > 0) == (self.excess(a, s) > 0),
            (self.excess(a * pow2(t), s + t) == 0) == (self.excess(a, s) == 0),
    {
        lemma_pow2_adds(s, t);
        lemma_pow2_pos(t);
        let w = pow2(t) as int;
        let v = pow2(s) as int;
        match self {
            Exact::Ratio { n, d } => {
                assert(n * (v * w) - (a * w) * d == w * (n * v - a * d)) by (nonlinear_arith);
                let c = n * v - a * d;
                assert((w * c > 0) == (c > 0) && (w * c == 0) == (c == 0)) by (nonlinear_arith)
                    requires
                        w > 0,
                ;
            },
            Exact::Root { n } => {
                assert(n * ((v * w) * (v * w)) - (a * w) * (a * w) == (w * w) * (n * (v * v) - a * a))
                    by (nonlinear_arith);
                let c = n * (v * v) - a * a;
                assert(w * w > 0) by (nonlinear_arith)
                    requires
                        w > 0,
                ;
                let ww = w * w;
                assert((ww * c > 0) == (c > 0) && (ww * c == 0) == (c == 0)) by (nonlinear_arith)
                    requires
                        ww > 0,
                ;
            },
        }
    }

    pub proof fn lemma_nearest_unique(self, p: int, q: int)
        requires
            self.wf(),
            self.rounds_to(p),
            self.rounds_to(q),
        ensures
            p == q,
    {
        self.lemma_nearest_ordered(p, q);
        self.lemma_nearest_ordered(q, p);
    }

    proof fn lemma_nearest_ordered(self, p: int, q: int)
        requires
            self.wf(),
            self.rounds_to(p),
            self.rounds_to(q),
        ensures
            p >= q,
    {
        if p < q {
            let a = magnitude(p) + magnitude(p + 1);
            let b = magnitude(q - 1) + magnitude(q);
            lemma_magnitude_grows(p, p + 1);
            if p + 1 < q {
                lemma_magnitude_grows(p, q - 1);
                lemma_magnitude_grows(p + 1, q);
                self.lemma_excess_falls(a, b, 1);
            }
        }
    }

    pub proof fn lemma_nearest(self, p: int)
        requires
            self.wf(),
            self.rounds_to(p),
        ensures
            self.nearest() == p,
    {
        self.lemma_nearest_unique(p, self.nearest());
    }
}

/// `2q + half` half-units of weight `2^k / 2^BIAS` have been taken off the number, and less than
/// one half-unit, which is zero exactly where `low` is off, is left.
spec fn taken(x: Exact, q: int, k: nat, half: int, low: bool) -> bool {
    &&& x.excess((2 * q + half) * pow2(k), (BIAS + 1) as nat) >= 0
    &&& (x.excess((2 * q + half) * pow2(k), (BIAS + 1) as nat) == 0) == !low
    &&& x.excess((2 * q + half + 1) * pow2(k), (BIAS + 1) as nat) < 0
}

/// `m` units of weight `2^k / 2^BIAS` are the most that fit in the number; `sticky` tells whether
/// something is left over.
pub open spec fn fits(x: Exact, m: int, k: nat, sticky: bool) -> bool {
    &&& x.excess(m * pow2(k), BIAS as nat) >= 0
    &&& (x.excess(m * pow2(k), BIAS as nat) == 0) == !sticky
    &&& x.excess((m + 1) * pow2(k), BIAS as nat) < 0
}

proof fn lemma_taken_halves(x: Exact, q: int, k: nat, half: int, low: bool)
    requires
        x.wf(),
        q >= 0,
        half == 0 || half == 1,
        taken(x, q, k, half, low),
    ensures
        taken(x, q / 2, k + 1, q % 2, low || half == 1),
{
    let w = pow2(k) as int;
    lemma_pow2_pos(k);
    lemma_pow2_unfold(k + 1);
    let q2 = q / 2;
    assert(2 * q2 + q % 2 == q);
    assert(q * (2 * w) == (2 * q) * w) by (nonlinear_arith);
    assert((q + 1) * (2 * w) == (2 * q + 2) * w) by (nonlinear_arith);
    lemma_mul_nonnegative(2 * q, w);
    if half == 1 {
        lemma_mul_strict_inequality(2 * q, 2 * q + 1, w);
        x.lemma_excess_falls((2 * q) * w, (2 * q + 1) * w, (BIAS + 1) as nat);
    } else {
        lemma_mul_strict_inequality(2 * q + 1, 2 * q + 2, w);
        lemma_mul_nonnegative(2 * q + 1, w);
        x.lemma_excess_falls((2 * q + 1) * w, (2 * q + 2) * w, (BIAS + 1) as nat);
    }
}

proof fn lemma_fits_halves(x: Exact, m: int, k: nat, sticky: bool)
    requires
        x.wf(),
        m >= 0,
        fits(x, m, k, sticky),
    ensures
        taken(x, m / 2, k + 1, m % 2, sticky),
{
    lemma_pow2_unfold(k + 1);
    lemma2_to64();
    let w = pow2(k) as int;
    assert(2 * (m / 2) + m % 2 == m);
    assert(m * (2 * w) == (m * w) * 2) by (nonlinear_arith);
    assert((m + 1) * (2 * w) == ((m + 1) * w) * 2) by (nonlinear_arith);
    x.lemma_excess_scales(m * w, BIAS as nat, 1);
    x.lemma_excess_scales((m + 1) * w, BIAS as nat, 1);
}

proof fn lemma_fits_exactly(x: Exact, m: int, k: nat)
    requires
        x.wf(),
        m >= 0,
        fits(x, m, k, false),
    ensures
        taken(x, m, k, 0, false),
{
    lemma2_to64();
    let w = pow2(k) as int;
    lemma_pow2_pos(k);
    assert((2 * m) * w == (m * w) * 2) by (nonlinear_arith);
    x.lemma_excess_scales(m * w, BIAS as nat, 1);
    lemma_mul_nonnegative(2 * m, w);
    lemma_mul_strict_inequality(2 * m, 2 * m + 1, w);
    x.lemma_excess_falls((2 * m) * w, (2 * m + 1) * w, (BIAS + 1) as nat);
}

proof fn lemma_fits_doubles(x: Exact, m: int, k: nat)
    requires
        x.wf(),
        m >= 0,
        k > 0,
        fits(x, m, k, false),
    ensures
        fits(x, 2 * m, (k - 1) as nat, false),
{
    lemma_pow2_unfold(k);
    let w = pow2((k - 1) as nat) as int;
    lemma_pow2_pos((k - 1) as nat);
    assert(m * (2 * w) == (2 * m) * w) by (nonlinear_arith);
    lemma_mul_nonnegative(2 * m, w);
    lemma_mul_strict_inequality(2 * m, 2 * m + 1, w);
    x.lemma_excess_falls((2 * m) * w, (2 * m + 1) * w, BIAS as nat);
}

/// A comparison at weight `2^(e + BIAS)` is one at weight `2^e` after taking the bias off.
proof fn lemma_unbiased(x: Exact, c: int, e: nat)
    requires
        x.wf(),
    ensures
        (x.excess(c * pow2(e), 1) > 0) == (x.excess(c * pow2(e + BIAS as nat), (BIAS + 1) as nat) > 0),
        (x.excess(c * pow2(e), 1) == 0) == (x.excess(c * pow2(e + BIAS as nat), (BIAS + 1) as nat) == 0),
{
    let b = BIAS as nat;
    lemma_pow2_adds(e, b);
    lemma_mul_is_associative(c, pow2(e) as int, pow2(b) as int);
    x.lemma_excess_scales(c * pow2(e), 1, b);
}

/// The number lies between two neighbouring payloads; its place relative to their midpoint
/// decides.
proof fn lemma_round_between(x: Exact, e: int, q: int, half: int, low: bool)
    requires
        x.wf(),
        splits(e, q),
        q < TOP,
        e < 2046,
        half == 0 || half == 1,
        taken(x, q, (e + BIAS) as nat, half, low),
    ensures
        half == 1 && (low || q % 2 == 1) ==> x.rounds_to(e * HIDDEN + q + 1),
        !(half == 1 && (low || q % 2 == 1)) ==> x.rounds_to(e * HIDDEN + q),
{
    let p = e * HIDDEN + q;
    let w = pow2(e as nat) as int;
    lemma_pow2_pos(e as nat);
    lemma_split_magnitude(e, q);
    lemma_split_magnitude(e, q + 1);
    lemma_unbiased(x, 2 * q + half, e as nat);
    lemma_unbiased(x, 2 * q + half + 1, e as nat);
    assert(p % 2 == q % 2) by {
        assert(p == 2 * (e * 0x8_0000_0000_0000) + q);
    }
    lemma_round_near(x, p, q, w, half, low);
}

proof fn lemma_round_near(x: Exact, p: int, q: int, w: int, half: int, low: bool)
    requires
        x.wf(),
        0 <= p < INFINITE,
        q >= 0,
        w > 0,
        magnitude(p) == q * w,
        magnitude(p + 1) == (q + 1) * w,
        p % 2 == q % 2,
        half == 0 || half == 1,
        x.excess((2 * q + half) * w, 1) >= 0,
        (x.excess((2 * q + half) * w, 1) == 0) == !low,
        x.excess((2 * q + half + 1) * w, 1) < 0,
    ensures
        half == 1 && (low || q % 2 == 1) ==> x.rounds_to(p + 1),
        !(half == 1 && (low || q % 2 == 1)) ==> x.rounds_to(p),
{
    assert((2 * q + 1) * w == q * w + (q + 1) * w && (2 * q) * w == q * w + q * w && (2 * q + 2) * w == (q
        + 1) * w + (q + 1) * w && (2 * q) * w < (2 * q + 1) * w && q * w >= 0) by (nonlinear_arith)
        requires
            w > 0,
            q >= 0,
    ;
    if p > 0 {
        lemma_split(p - 1);
        let below = magnitude(p - 1) + magnitude(p);
        if half == 1 {
            x.lemma_excess_falls(below, (2 * q + 1) * w, 1);
        } else {
            x.lemma_excess_falls(below, (2 * q) * w, 1);
        }
    }
    if half == 1 && p + 1 < INFINITE {
        lemma_split(p + 1);
        let above = magnitude(p + 1) + magnitude(p + 2);
        x.lemma_excess_falls((2 * q + 2) * w, above, 1);
    }
}

/// Past the largest finite magnitude by a whole step, the number rounds to infinity.
proof fn lemma_round_overflows(x: Exact, e: int, q: int, half: int, low: bool)
    requires
        x.wf(),
        q >= HIDDEN,
        e >= 2046,
        half == 0 || half == 1,
        taken(x, q, (e + BIAS) as nat, half, low),
    ensures
        x.rounds_to(INFINITE as int),
{
    let b = BIAS as nat;
    let k = (e + BIAS) as nat;
    lemma_pow2_pos(k);
    lemma_split_magnitude(2046, HIDDEN as int);
    assert(2046 * HIDDEN + HIDDEN == INFINITE);
    let top = magnitude(INFINITE as int);
    lemma_split(INFINITE - 1);
    lemma_pow2_adds(2046, b);
    lemma_pow2_pos(2046);
    let step = pow2(2046 + b) as int;
    if 2046 + b < k {
        lemma_pow2_strictly_increases(2046 + b, k);
    }
    assert(HIDDEN * (pow2(2046) * pow2(b)) == (HIDDEN * pow2(2046)) * pow2(b)) by {
        lemma_mul_is_associative(HIDDEN as int, pow2(2046) as int, pow2(b) as int);
    }
    assert(top * pow2(b) == HIDDEN * step);
    // x >= top, in half-units
    x.lemma_excess_scales(2 * top, 1, b);
    assert((2 * top) * pow2(b) == (2 * HIDDEN) * step) by (nonlinear_arith)
        requires
            top * pow2(b) == HIDDEN * step,
    ;
    let w = pow2(k) as int;
    lemma_pow2_pos(2046 + b);
    assert((2 * HIDDEN) * step <= (2 * q + half) * w) by (nonlinear_arith)
        requires
            0 < step <= w,
            HIDDEN <= q,
            half >= 0,
    ;
    lemma_mul_nonnegative(2 * HIDDEN as int, step);
    if (2 * HIDDEN) * step < (2 * q + half) * w {
        x.lemma_excess_falls((2 * HIDDEN) * step, (2 * q + half) * w, (BIAS + 1) as nat);
    }
    assert(x.excess(2 * top, 1) >= 0);
    let below = magnitude(INFINITE - 1) + top;
    x.lemma_excess_falls(below, 2 * top, 1);
}

proof fn lemma_round_zero(x: Exact, k: nat)
    requires
        x.wf(),
        fits(x, 0, k, false),
    ensures
        x.rounds_to(0),
{
    lemma_pow2_pos(k);
    lemma_pow2_pos(BIAS as nat);
    lemma2_to64();
    let v = pow2(BIAS as nat) as int;
    let n = match x {
        Exact::Ratio { n, d } => n,
        Exact::Root { n } => n,
    };
    assert(0 * pow2(k) == 0);
    assert(v * v > 0) by (nonlinear_arith)
        requires
            v > 0,
    ;
    assert(n == 0) by (nonlinear_arith)
        requires
            n >= 0,
            n * v == 0 || n * (v * v) == 0,
            v > 0,
            v * v > 0,
    ;
    lemma_split(0);
    x.lemma_excess_falls(0, magnitude(0) + magnitude(1), 1);
}

/// Rounds the number of which `m` units of weight `2^k / 2^BIAS` are taken off, with something
/// left over exactly where `sticky` is set.
pub(crate) fn round(m: u128, k: u32, sticky: bool, x: Ghost<Exact>) -> (p: u64)
    requires
        x@.wf(),
        k <= 8000,
        fits(x@, m as int, k as nat, sticky),
        sticky ==> m >= TOP,
    ensures
        p == x@.nearest(),
        p <= INFINITE,
{
    if m == 0 {
        proof {
            lemma_round_zero(x@, k as nat);
            x@.lemma_nearest(0);
        }
        return 0;
    }
    let mut q: u128 = m;
    let mut k: u32 = k;
    while q < HIDDEN as u128 && k > BIAS
        invariant
            x@.wf(),
            k <= 8000,
            fits(x@, q as int, k as nat, sticky),
            sticky ==> q >= TOP,
        decreases k,
    {
        proof {
            lemma_fits_doubles(x@, q as int, k as nat);
        }
        q = q * 2;
        k = k - 1;
    }
    let mut half: bool = false;
    let mut low: bool = false;
    if q >= TOP as u128 || k < BIAS {
        proof {
            lemma_fits_halves(x@, q as int, k as nat, sticky);
        }
        half = q % 2 == 1;
        low = sticky;
        q = q / 2;
        k = k + 1;
    } else {
        proof {
            lemma_fits_exactly(x@, q as int, k as nat);
        }
    }
    let ghost mut room: int = 128;
    proof {
        lemma2_to64();
        lemma_pow2_adds(64, 64);
        assert(pow2(64) * pow2(64) == 0x1_0000_0000_0000_0000 * 0x1_0000_0000_0000_0000);
    }
    while q >= TOP as u128 || k < BIAS
        invariant
            x@.wf(),
            k <= 8129,
            k + room <= 8129,
            room >= 0 ==> q < pow2(room as nat),
            room < 0 ==> q == 0,
            q >= HIDDEN || k <= BIAS,
            taken(x@, q as int, k as nat, if half { 1 } else { 0 }, low),
        decreases q, BIAS - k,
    {
        proof {
            lemma_taken_halves(x@, q as int, k as nat, if half { 1 } else { 0 }, low);
            lemma2_to64();
            if room > 0 {
                lemma_pow2_unfold(room as nat);
            }
            room = room - 1;
        }
        low = low || half;
        half = q % 2 == 1;
        q = q / 2;
        k = k + 1;
    }
    let e: u32 = k - BIAS;
    if e >= 2046 {
        proof {
            lemma_round_overflows(x@, e as int, q as int, if half { 1 } else { 0 }, low);
            x@.lemma_nearest(INFINITE as int);
        }
        return INFINITE;
    }
    let up: bool = half && (low || q % 2 == 1);
    proof {
        lemma_round_between(x@, e as int, q as int, if half { 1 } else { 0 }, low);
        x@.lemma_nearest(e * HIDDEN + q + if up { 1int } else { 0int });
    }
    let p: u64 = e as u64 * HIDDEN + q as u64;
    if up {
        p + 1
    } else {
        p
    }
}

/// A number between two neighbouring payloads rounds to one of them.
proof fn lemma_round_somewhere(x: Exact, p: int)
    requires
        x.wf(),
        0 <= p < INFINITE,
        x.excess(magnitude(p), 0) >= 0,
        x.excess(magnitude(p + 1), 0) < 0,
    ensures
        x.rounds_to(p) || x.rounds_to(p + 1),
{
    let e = split_e(p);
    let q = split_sig(p);
    let w = pow2(e as nat) as int;
    lemma_split(p);
    lemma_pow2_pos(e as nat);
    lemma2_to64();
    assert((2 * q) * w == (q * w) * 2 && (2 * q + 2) * w == ((q + 1) * w) * 2) by (nonlinear_arith);
    x.lemma_excess_scales(q * w, 0, 1);
    x.lemma_excess_scales((q + 1) * w, 0, 1);
    assert(p % 2 == q % 2) by {
        assert(p == 2 * (e * 0x8_0000_0000_0000) + q);
    }
    let half: int = if x.excess((2 * q + 1) * w, 1) >= 0 { 1 } else { 0 };
    let low = x.excess((2 * q + half) * w, 1) != 0;
    lemma_round_near(x, p, q, w, half, low);
}

proof fn lemma_round_from(x: Exact, p: int)
    requires
        x.wf(),
        0 <= p <= INFINITE,
        x.excess(magnitude(p), 0) >= 0,
    ensures
        exists|q: int| #[trigger] x.rounds_to(q),
    decreases INFINITE - p,
{
    if p == INFINITE {
        lemma_split(p - 1);
        lemma2_to64();
        x.lemma_excess_scales(magnitude(p), 0, 1);
        x.lemma_excess_falls(magnitude(p - 1) + magnitude(p), magnitude(p) * 2, 1);
        assert(x.rounds_to(p));
    } else if x.excess(magnitude(p + 1), 0) < 0 {
        lemma_round_somewhere(x, p);
    } else {
        lemma_round_from(x, p + 1);
    }
}

/// Every number rounds to some payload.
pub proof fn lemma_nearest_is(x: Exact)
    requires
        x.wf(),
    ensures
        x.rounds_to(x.nearest()),
        0 <= x.nearest() <= INFINITE,
{
    lemma_split(0);
    lemma2_to64();
    lemma_round_from(x, 0);
}

/// A representable number rounds to itself.
pub proof fn lemma_nearest_exact(x: Exact, p: int)
    requires
        x.wf(),
        0 <= p <= INFINITE,
        x.excess(magnitude(p), 0) == 0,
    ensures
        x.nearest() == p,
{
    lemma2_to64();
    x.lemma_excess_scales(magnitude(p), 0, 1);
    lemma_split(p);
    if p > 0 {
        lemma_split(p - 1);
        x.lemma_excess_falls(magnitude(p - 1) + magnitude(p), magnitude(p) * 2, 1);
    }
    x.lemma_excess_falls(magnitude(p) * 2, magnitude(p) + magnitude(p + 1), 1);
    x.lemma_nearest(p);
}

/// Rounding keeps the order of quotients.
pub proof fn lemma_nearest_grows(n: int, d: int, m: int, c: int)
    requires
        n >= 0,
        d > 0,
        m >= 0,
        c > 0,
        n * c <= m * d,
    ensures
        (Exact::Ratio { n, d }).nearest() <= (Exact::Ratio { n: m, d: c }).nearest(),
{
    let x = Exact::Ratio { n, d };
    let y = Exact::Ratio { n: m, d: c };
    let p = x.nearest();
    let q = y.nearest();
    lemma_nearest_is(x);
    lemma_nearest_is(y);
    lemma2_to64();
    if p > q {
        let a = magnitude(p - 1) + magnitude(p);
        let b = magnitude(q) + magnitude(q + 1);
        lemma_split(p - 1);
        lemma_split(q);
        if q < p - 1 {
            lemma_magnitude_grows(q, p - 1);
            if q + 1 < p {
                lemma_magnitude_grows(q + 1, p);
            }
            y.lemma_excess_falls(b, a, 1);
        }
        // 2n >= a d, so 2m >= a c
        assert(m * 2 - a * c >= 0 && (n * 2 - a * d > 0 ==> m * 2 - a * c > 0)) by (nonlinear_arith)
            requires
                n * 2 - a * d >= 0,
                n * c <= m * d,
                d > 0,
                c > 0,
        ;
    }
}

/// A significand below 2^53 at any exponent in range is representable.
pub proof fn lemma_representable(c: int, e: int) -> (p: int)
    requires
        0 <= c < TOP,
        0 <= e <= 2045,
    ensures
        0 <= p < INFINITE,
        magnitude(p) == c * pow2(e as nat),
    decreases e,
{
    if e == 0 || c >= HIDDEN {
        lemma_split_magnitude(e, c);
        e * HIDDEN + c
    } else {
        lemma_pow2_unfold(e as nat);
        let w = pow2((e - 1) as nat) as int;
        assert(c * (2 * w) == (2 * c) * w) by (nonlinear_arith);
        lemma_representable(2 * c, e - 1)
    }
}

/// How far a quotient and what it rounds to are apart: half a unit at most, or one part in 2^53.
pub proof fn lemma_error(n: int, d: int)
    requires
        n >= 0,
        d > 0,
        (Exact::Ratio { n, d }).nearest() < INFINITE,
    ensures
        ({
            let m = magnitude((Exact::Ratio { n, d }).nearest());
            ||| -d <= 2 * (n - m * d) <= d
            ||| -(m * d) <= (n - m * d) * TOP <= m * d
        }),
{
    let x = Exact::Ratio { n, d };
    let p = x.nearest();
    lemma_nearest_is(x);
    lemma2_to64();
    lemma_split(p);
    let m = magnitude(p);
    let g = pow2(split_e(p) as nat) as int;
    lemma_pow2_pos(split_e(p) as nat);
    assert(g == 1 || g * HIDDEN <= m) by {
        if split_e(p) > 0 {
            assert(g * HIDDEN <= split_sig(p) * g) by (nonlinear_arith)
                requires
                    split_sig(p) >= HIDDEN,
                    g > 0,
            ;
        }
    }
    assert(2 * (n - m * d) <= g * d) by (nonlinear_arith)
        requires
            n * 2 - (m + (m + g)) * d <= 0,
    ;
    let h = if p > 0 { m - magnitude(p - 1) } else { 1 };
    assert((h == 1 || h * HIDDEN <= m) && -(h * d) <= 2 * (n - m * d)) by {
        if p > 0 {
            lemma_split(p - 1);
            let q = magnitude(p - 1);
            lemma_pow2_pos(split_e(p - 1) as nat);
            if split_e(p - 1) > 0 {
                assert(h * HIDDEN <= split_sig(p - 1) * h) by (nonlinear_arith)
                    requires
                        split_sig(p - 1) >= HIDDEN,
                        h > 0,
                ;
            }
            assert(-(h * d) <= 2 * (n - m * d)) by (nonlinear_arith)
                requires
                    n * 2 - (q + m) * d >= 0,
                    h == m - q,
            ;
        } else {
            assert(m * d == 0) by (nonlinear_arith)
                requires
                    m == 0,
            ;
        }
    }
    let e = n - m * d;
    if e >= 0 {
        lemma_error_side(e, g, m, d);
    } else {
        lemma_error_side(-e, h, m, d);
    }
}

proof fn lemma_error_side(e: int, g: int, m: int, d: int)
    requires
        e >= 0,
        d > 0,
        2 * e <= g * d,
        g == 1 || g * HIDDEN <= m,
    ensures
        2 * e <= d || e * TOP <= m * d,
{
    if g != 1 {
        assert((2 * e) * HIDDEN <= m * d) by (nonlinear_arith)
            requires
                2 * e <= g * d,
                g * HIDDEN <= m,
                d > 0,
        ;
    }
}

} // verus!
