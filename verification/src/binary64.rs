//! IEEE-754 double-precision arithmetic on bit patterns.
//!
//! A [`Binary64`] holds the 64 bits of a double. Every arithmetic operation is stated as the exact
//! result, rounded to the nearest representable value, ties to even.

use crate::rounding::{self, Exact, HIDDEN, INFINITE, QUIET, SIGN, TOP, BIAS};
use vstd::arithmetic::mul::*;
use vstd::arithmetic::power2::*;
use vstd::prelude::*;
use vstd::std_specs::cmp::PartialEqSpecImpl;

verus! {

/// A double, by its bits.
#[derive(Clone, Copy, Debug, Default)]
pub struct Binary64 {
    pub bits: u64,
}

/// The number of units of 2^-1074 in one.
pub open spec fn one_unit() -> int {
    pow2(1074) as int
}

impl Binary64 {
    pub open spec fn payload(self) -> int {
        self.bits as int % SIGN as int
    }

    pub open spec fn negative(self) -> bool {
        self.bits >= SIGN
    }

    pub open spec fn nan(self) -> bool {
        self.payload() > INFINITE
    }

    pub open spec fn infinite(self) -> bool {
        self.payload() == INFINITE
    }

    pub open spec fn finite(self) -> bool {
        self.payload() < INFINITE
    }

    /// The value in units of 2^-1074. Infinities take the place of the power of two that would
    /// follow the largest finite magnitude, so that comparing values compares the numbers.
    pub open spec fn value(self) -> int {
        if self.negative() {
            -rounding::magnitude(self.payload())
        } else {
            rounding::magnitude(self.payload())
        }
    }

    /// The double with the given sign and payload.
    pub open spec fn of(negative: bool, p: int) -> Binary64 {
        Binary64 { bits: (if negative { SIGN + p } else { p }) as u64 }
    }

    /// The NaN that the operations return.
    pub open spec fn not_a_number() -> Binary64 {
        Binary64 { bits: QUIET }
    }

    /// `self < other`.
    pub open spec fn less(self, other: Binary64) -> bool {
        !self.nan() && !other.nan() && self.value() < other.value()
    }

    /// `self <= other`.
    pub open spec fn at_most(self, other: Binary64) -> bool {
        !self.nan() && !other.nan() && self.value() <= other.value()
    }

    /// `self == other`: zeros of either sign are equal, and a NaN equals nothing.
    pub open spec fn equal(self, other: Binary64) -> bool {
        !self.nan() && !other.nan() && self.value() == other.value()
    }

    pub open spec fn negated(self) -> Binary64 {
        Self::of(!self.negative(), self.payload())
    }

    #[verifier::opaque]
    pub open spec fn plus(self, other: Binary64) -> Binary64 {
        if self.nan() || other.nan() {
            Self::not_a_number()
        } else if self.infinite() {
            if other.infinite() && self.negative() != other.negative() {
                Self::not_a_number()
            } else {
                self
            }
        } else if other.infinite() {
            other
        } else {
            let s = self.value() + other.value();
            if s == 0 {
                Self::of(self.negative() && other.negative(), 0)
            } else if s < 0 {
                Self::of(true, (Exact::Ratio { n: -s, d: 1 }).nearest())
            } else {
                Self::of(false, (Exact::Ratio { n: s, d: 1 }).nearest())
            }
        }
    }

    pub open spec fn minus(self, other: Binary64) -> Binary64 {
        self.plus(other.negated())
    }

    #[verifier::opaque]
    pub open spec fn times(self, other: Binary64) -> Binary64 {
        let negative = self.negative() != other.negative();
        if self.nan() || other.nan() {
            Self::not_a_number()
        } else if self.infinite() || other.infinite() {
            if self.payload() == 0 || other.payload() == 0 {
                Self::not_a_number()
            } else {
                Self::of(negative, INFINITE as int)
            }
        } else {
            let n = rounding::magnitude(self.payload()) * rounding::magnitude(other.payload());
            Self::of(negative, (Exact::Ratio { n, d: one_unit() }).nearest())
        }
    }

    #[verifier::opaque]
    pub open spec fn over(self, other: Binary64) -> Binary64 {
        let negative = self.negative() != other.negative();
        if self.nan() || other.nan() {
            Self::not_a_number()
        } else if self.infinite() {
            if other.infinite() {
                Self::not_a_number()
            } else {
                Self::of(negative, INFINITE as int)
            }
        } else if other.infinite() {
            Self::of(negative, 0)
        } else if other.payload() == 0 {
            if self.payload() == 0 {
                Self::not_a_number()
            } else {
                Self::of(negative, INFINITE as int)
            }
        } else {
            let n = rounding::magnitude(self.payload()) * one_unit();
            let d = rounding::magnitude(other.payload());
            Self::of(negative, (Exact::Ratio { n, d }).nearest())
        }
    }

    #[verifier::opaque]
    pub open spec fn root(self) -> Binary64 {
        if self.nan() || (self.negative() && self.payload() != 0) {
            Self::not_a_number()
        } else if self.payload() == 0 || self.infinite() {
            self
        } else {
            let n = rounding::magnitude(self.payload()) * one_unit();
            Self::of(false, (Exact::Root { n }).nearest())
        }
    }

    /// The double nearest to `n / d`.
    #[verifier::opaque]
    pub open spec fn fraction(n: int, d: int) -> Binary64 {
        Self::of(false, (Exact::Ratio { n: n * one_unit(), d }).nearest())
    }

    pub fn from_bits(bits: u64) -> (r: Binary64)
        ensures
            r.bits == bits,
    {
        Binary64 { bits }
    }

    pub fn to_bits(self) -> (r: u64)
        ensures
            r == self.bits,
    {
        self.bits
    }

    fn get_payload(self) -> (r: u64)
        ensures
            r == self.payload(),
            r < SIGN,
    {
        self.bits % SIGN
    }

    fn pack(negative: bool, p: u64) -> (r: Binary64)
        requires
            p < SIGN,
        ensures
            r == Self::of(negative, p as int),
            r.payload() == p,
            r.negative() == negative,
    {
        if negative {
            Binary64 { bits: SIGN + p }
        } else {
            Binary64 { bits: p }
        }
    }

    pub fn is_nan(self) -> (r: bool)
        ensures
            r == self.nan(),
    {
        self.get_payload() > INFINITE
    }

    pub fn is_infinite(self) -> (r: bool)
        ensures
            r == self.infinite(),
    {
        self.get_payload() == INFINITE
    }

    pub fn is_finite(self) -> (r: bool)
        ensures
            r == self.finite(),
    {
        self.get_payload() < INFINITE
    }

    /// A finite magnitude as `sig * 2^e`.
    fn parts(self) -> (r: (u64, u32))
        requires
            self.finite(),
        ensures
            rounding::splits(r.1 as int, r.0 as int),
            r.0 < TOP,
            r.1 <= 2045,
            rounding::magnitude(self.payload()) == r.0 * pow2(r.1 as nat),
            (r.0 == 0) == (self.payload() == 0),
    {
        let p: u64 = self.get_payload();
        let e: u64 = p / HIDDEN;
        proof {
            rounding::lemma_split(p as int);
        }
        if e <= 1 {
            (p, 0)
        } else {
            (p - (e - 1) * HIDDEN, (e - 1) as u32)
        }
    }

    pub fn neg(self) -> (r: Binary64)
        ensures
            r == self.negated(),
    {
        Self::pack(self.bits < SIGN, self.get_payload())
    }
}

impl Binary64 {
    pub open spec fn zero() -> Binary64 {
        Binary64 { bits: 0 }
    }

    pub open spec fn one() -> Binary64 {
        Binary64 { bits: 0x3ff0_0000_0000_0000 }
    }

    pub open spec fn infinity() -> Binary64 {
        Binary64 { bits: 0x7ff0_0000_0000_0000 }
    }

    pub open spec fn negative_infinity() -> Binary64 {
        Binary64 { bits: 0xfff0_0000_0000_0000 }
    }

    /// Clamped to `[0, 1]`; zero for a NaN.
    pub open spec fn clamped(self) -> Binary64 {
        if self.nan() || self.less(Self::zero()) {
            Self::zero()
        } else if Self::one().less(self) {
            Self::one()
        } else {
            self
        }
    }

    /// Finite and not below zero.
    pub open spec fn usable(self) -> bool {
        self.finite() && Self::zero().at_most(self)
    }

    /// Finite and above zero.
    pub open spec fn positive(self) -> bool {
        self.finite() && Self::zero().less(self)
    }
}

/// `m * 2^d`.
fn scale(m: u128, d: u32) -> (r: u128)
    requires
        m * pow2(d as nat) <= u128::MAX,
    ensures
        r == m * pow2(d as nat),
{
    let mut r: u128 = m;
    let mut i: u32 = 0;
    proof {
        lemma2_to64();
        lemma_mul_basics(m as int);
    }
    while i < d
        invariant
            i <= d,
            r == m * pow2(i as nat),
            m * pow2(d as nat) <= u128::MAX,
        decreases d - i,
    {
        proof {
            lemma_pow2_unfold((i + 1) as nat);
            if i + 1 < d {
                lemma_pow2_strictly_increases((i + 1) as nat, d as nat);
            }
            lemma_mul_inequality(pow2((i + 1) as nat) as int, pow2(d as nat) as int, m as int);
            lemma_mul_is_commutative(pow2((i + 1) as nat) as int, m as int);
            lemma_mul_is_commutative(pow2(d as nat) as int, m as int);
            assert(m * (2 * pow2(i as nat)) == 2 * (m * pow2(i as nat))) by (nonlinear_arith);
        }
        r = r * 2;
        i = i + 1;
    }
    r
}

/// A whole number of units is taken off exactly.
proof fn lemma_whole(n: int, m: int, e: nat)
    requires
        n == m * pow2(e),
        m >= 0,
    ensures
        (Exact::Ratio { n, d: 1 }).wf(),
        rounding::fits(Exact::Ratio { n, d: 1 }, m, e + BIAS as nat, false),
{
    let x = Exact::Ratio { n, d: 1 };
    let b = BIAS as nat;
    lemma_pow2_adds(e, b);
    lemma_pow2_pos(e);
    lemma_pow2_pos(b);
    lemma_pow2_pos(e + b);
    lemma_mul_nonnegative(m, pow2(e) as int);
    lemma_mul_is_associative(m, pow2(e) as int, pow2(b) as int);
    assert(x.excess(m * pow2(e + b), b) == 0);
    lemma_mul_nonnegative(m, pow2(e + b) as int);
    lemma_mul_strict_inequality(m, m + 1, pow2(e + b) as int);
    x.lemma_excess_falls(m * pow2(e + b), (m + 1) * pow2(e + b), b);
}

/// `n == m * 2^e + t` with `t` less than one unit.
proof fn lemma_whole_and_rest(n: int, m: int, e: nat, t: int)
    requires
        n == m * pow2(e) + t,
        0 < t < pow2(e),
        m >= 0,
    ensures
        (Exact::Ratio { n, d: 1 }).wf(),
        rounding::fits(Exact::Ratio { n, d: 1 }, m, e + BIAS as nat, true),
{
    let b = BIAS as nat;
    lemma_pow2_adds(e, b);
    lemma_pow2_pos(b);
    let w = pow2(e) as int;
    let v = pow2(b) as int;
    lemma_mul_nonnegative(m, w);
    assert(n * v - m * (w * v) * 1 == t * v) by (nonlinear_arith)
        requires
            n == m * w + t,
    ;
    assert(n * v - (m + 1) * (w * v) * 1 == (t - w) * v) by (nonlinear_arith)
        requires
            n == m * w + t,
    ;
    assert(t * v > 0) by (nonlinear_arith)
        requires
            t > 0,
            v > 0,
    ;
    assert((t - w) * v < 0) by (nonlinear_arith)
        requires
            t < w,
            v > 0,
    ;
}

impl Binary64 {
    pub fn add(self, other: Binary64) -> (r: Binary64)
        ensures
            r == self.plus(other),
    {
        proof {
            reveal(Binary64::plus);
        }
        if self.is_nan() || other.is_nan() {
            return Binary64 { bits: QUIET };
        }
        if self.is_infinite() {
            if other.is_infinite() && (self.bits >= SIGN) != (other.bits >= SIGN) {
                return Binary64 { bits: QUIET };
            }
            return self;
        }
        if other.is_infinite() {
            return other;
        }
        let (sa, ea) = self.parts();
        let (sb, eb) = other.parts();
        if ea >= eb {
            Self::add_parts(sa, ea, self.bits >= SIGN, sb, eb, other.bits >= SIGN, Ghost(self), Ghost(other))
        } else {
            Self::add_parts(sb, eb, other.bits >= SIGN, sa, ea, self.bits >= SIGN, Ghost(other), Ghost(self))
        }
    }

    fn add_parts(
        sa: u64,
        ea: u32,
        na: bool,
        sb: u64,
        eb: u32,
        nb: bool,
        a: Ghost<Binary64>,
        b: Ghost<Binary64>,
    ) -> (r: Binary64)
        requires
            eb <= ea <= 2045,
            sa < TOP,
            sb < TOP,
            ea > 0 ==> sa >= HIDDEN,
            a@.finite(),
            b@.finite(),
            a@.negative() == na,
            b@.negative() == nb,
            rounding::magnitude(a@.payload()) == sa * pow2(ea as nat),
            rounding::magnitude(b@.payload()) == sb * pow2(eb as nat),
        ensures
            r == a@.plus(b@),
            r == b@.plus(a@),
    {
        proof {
            reveal(Binary64::plus);
        }
        let ghost wa = pow2(ea as nat) as int;
        let ghost wb = pow2(eb as nat) as int;
        let ghost va = sa * wa;
        let ghost vb = sb * wb;
        proof {
            lemma_pow2_pos(ea as nat);
            lemma_pow2_pos(eb as nat);
            lemma_mul_nonnegative(sa as int, wa);
            lemma_mul_nonnegative(sb as int, wb);
            assert(sb == 0 ==> vb == 0);
            assert(sb != 0 ==> vb > 0) by {
                if sb != 0 {
                    lemma_mul_strictly_positive(sb as int, wb);
                }
            }
        }
        let d: u32 = ea - eb;
        if d <= 70 {
            proof {
                lemma_pow2_adds(d as nat, eb as nat);
                lemma_mul_is_associative(sa as int, pow2(d as nat) as int, wb);
                lemma_shifted(sa as int, d as nat);
            }
            let big: u128 = scale(sa as u128, d);
            let small: u128 = sb as u128;
            proof {
                lemma_mul_is_distributive_add_other_way(wb, big as int, small as int);
                lemma_mul_is_distributive_sub_other_way(wb, big as int, small as int);
                lemma_mul_is_distributive_sub_other_way(wb, small as int, big as int);
                assert(va == big * wb);
                if big != small {
                    if big > small {
                        lemma_mul_strictly_positive(big - small, wb);
                    } else {
                        lemma_mul_strictly_positive(small - big, wb);
                    }
                }
            }
            if na == nb {
                if big + small == 0 {
                    return Self::pack(na, 0);
                }
                proof {
                    lemma_whole(va + vb, big + small, eb as nat);
                    lemma_mul_strictly_positive(big + small, wb);
                }
                return Self::pack(na, rounding::round(big + small, eb + BIAS, false, Ghost(Exact::Ratio { n: va + vb, d: 1 })));
            }
            if big == small {
                Self::pack(false, 0)
            } else if big > small {
                proof {
                    lemma_whole(va - vb, big - small, eb as nat);
                }
                Self::pack(na, rounding::round(big - small, eb + BIAS, false, Ghost(Exact::Ratio { n: va - vb, d: 1 })))
            } else {
                proof {
                    lemma_whole(vb - va, small - big, eb as nat);
                }
                Self::pack(nb, rounding::round(small - big, eb + BIAS, false, Ghost(Exact::Ratio { n: vb - va, d: 1 })))
            }
        } else {
            let m: u128 = sa as u128 * 0x2_0000;
            let e: u32 = ea - 17;
            let ghost w = pow2(e as nat) as int;
            proof {
                lemma_pow2_pos(e as nat);
                lemma_pow2_adds(17, e as nat);
                lemma2_to64();
                lemma_mul_is_associative(sa as int, 0x2_0000, w);
                assert(va == m * w);
                // the smaller operand is less than one unit
                lemma2_to64_rest();
                lemma_pow2_adds(53, eb as nat);
                lemma_pow2_strictly_increases(53 + eb as nat, e as nat);
                lemma_mul_strict_inequality(sb as int, TOP as int, wb);
                assert(vb < w);
                lemma_mul_inequality(1, m as int, w);
            }
            if sb == 0 {
                proof {
                    lemma_whole(va, m as int, e as nat);
                    lemma_mul_strictly_positive(m as int, w);
                }
                return Self::pack(na, rounding::round(m, e + BIAS, false, Ghost(Exact::Ratio { n: va, d: 1 })));
            }
            if na == nb {
                proof {
                    lemma_whole_and_rest(va + vb, m as int, e as nat, vb);
                }
                Self::pack(na, rounding::round(m, e + BIAS, true, Ghost(Exact::Ratio { n: va + vb, d: 1 })))
            } else {
                proof {
                    lemma_mul_is_distributive_sub_other_way(w, m as int, 1);
                    lemma_whole_and_rest(va - vb, m - 1, e as nat, w - vb);
                }
                Self::pack(na, rounding::round(m - 1, e + BIAS, true, Ghost(Exact::Ratio { n: va - vb, d: 1 })))
            }
        }
    }

    pub fn sub(self, other: Binary64) -> (r: Binary64)
        ensures
            r == self.minus(other),
    {
        self.add(other.neg())
    }
}

proof fn lemma_shifted(s: int, d: nat)
    requires
        0 <= s < TOP,
        d <= 70,
    ensures
        0 <= s * pow2(d) < 0x800_0000_0000_0000_0000_0000_0000_0000,
{
    lemma2_to64();
    lemma_pow2_pos(d);
    lemma_pow2_adds(64, 6);
    if d < 70 {
        lemma_pow2_strictly_increases(d, 70);
    }
    assert(pow2(64) * pow2(6) == 0x1_0000_0000_0000_0000 * 64);
    assert(0 <= s * pow2(d) < 0x800_0000_0000_0000_0000_0000_0000_0000) by (nonlinear_arith)
        requires
            0 <= s < 0x20_0000_0000_0000,
            0 < pow2(d) <= 0x40_0000_0000_0000_0000,
    ;
}

/// Moving a power of two between numerator, denominator and weight: with
/// `n * 2^BIAS == num * common` and `d * 2^k == den * common`, taking `q` units off `n / d` leaves
/// what taking `q` times `den` off `num` leaves.
proof fn lemma_quotient(n: int, d: int, k: nat, num: int, den: int, q: int, common: int)
    requires
        n >= 0,
        d > 0,
        den > 0,
        common > 0,
        q >= 0,
        n * pow2(BIAS as nat) == num * common,
        d * pow2(k) == den * common,
        q * den <= num < (q + 1) * den,
    ensures
        (Exact::Ratio { n, d }).wf(),
        rounding::fits(Exact::Ratio { n, d }, q, k, q * den != num),
{
    let x = Exact::Ratio { n, d };
    let b = BIAS as nat;
    let w = pow2(k) as int;
    assert(n * pow2(b) - (q * w) * d == (num - q * den) * common) by (nonlinear_arith)
        requires
            n * pow2(b) == num * common,
            d * w == den * common,
    ;
    assert(n * pow2(b) - ((q + 1) * w) * d == (num - (q + 1) * den) * common) by (nonlinear_arith)
        requires
            n * pow2(b) == num * common,
            d * w == den * common,
    ;
    let r = num - q * den;
    let o = num - (q + 1) * den;
    assert(r * common >= 0 && (r * common == 0) == (r == 0) && o * common < 0) by (nonlinear_arith)
        requires
            r >= 0,
            o < 0,
            common > 0,
    ;
}

impl Binary64 {
    pub fn mul(self, other: Binary64) -> (r: Binary64)
        ensures
            r == self.times(other),
    {
        proof {
            reveal(Binary64::times);
        }
        if self.is_nan() || other.is_nan() {
            return Binary64 { bits: QUIET };
        }
        let negative: bool = (self.bits >= SIGN) != (other.bits >= SIGN);
        if self.is_infinite() || other.is_infinite() {
            if self.get_payload() == 0 || other.get_payload() == 0 {
                return Binary64 { bits: QUIET };
            }
            return Self::pack(negative, INFINITE);
        }
        let (sa, ea) = self.parts();
        let (sb, eb) = other.parts();
        proof {
            lemma_mul_upper_bound(sa as int, TOP as int, sb as int, TOP as int);
        }
        let m: u128 = sa as u128 * sb as u128;
        let k: u32 = ea + eb + (BIAS - 1074);
        let ghost n = rounding::magnitude(self.payload()) * rounding::magnitude(other.payload());
        proof {
            let wa = pow2(ea as nat) as int;
            let wb = pow2(eb as nat) as int;
            let v = pow2(BIAS as nat) as int;
            lemma_pow2_pos(ea as nat);
            lemma_pow2_pos(eb as nat);
            lemma_pow2_pos(1074);
            lemma_pow2_adds(ea as nat, eb as nat);
            lemma_pow2_adds((ea + eb) as nat, BIAS as nat);
            lemma_pow2_adds(1074, k as nat);
            let common = pow2((ea + eb + BIAS) as nat) as int;
            lemma_pow2_pos((ea + eb + BIAS) as nat);
            assert(n * v == m * common && n >= 0) by (nonlinear_arith)
                requires
                    n == (sa * wa) * (sb * wb),
                    m == sa * sb,
                    common == (wa * wb) * v,
                    sa >= 0,
                    sb >= 0,
                    wa > 0,
                    wb > 0,
            ;
            lemma_quotient(n, one_unit(), k as nat, m as int, 1, m as int, common);
        }
        Self::pack(negative, rounding::round(m, k, false, Ghost(Exact::Ratio { n, d: one_unit() })))
    }

    pub fn div(self, other: Binary64) -> (r: Binary64)
        ensures
            r == self.over(other),
    {
        proof {
            reveal(Binary64::over);
        }
        if self.is_nan() || other.is_nan() {
            return Binary64 { bits: QUIET };
        }
        let negative: bool = (self.bits >= SIGN) != (other.bits >= SIGN);
        if self.is_infinite() {
            if other.is_infinite() {
                return Binary64 { bits: QUIET };
            }
            return Self::pack(negative, INFINITE);
        }
        if other.is_infinite() {
            return Self::pack(negative, 0);
        }
        if other.get_payload() == 0 {
            if self.get_payload() == 0 {
                return Binary64 { bits: QUIET };
            }
            return Self::pack(negative, INFINITE);
        }
        let (sa, ea) = self.parts();
        let (sb, eb) = other.parts();
        let ghost n = rounding::magnitude(self.payload()) * one_unit();
        let ghost d = rounding::magnitude(other.payload());
        let (num, w) = Self::widen(sa);
        let q: u128 = num / sb as u128;
        let k: u32 = ea + (1074 + BIAS) - w - eb;
        proof {
            let wa = pow2(ea as nat) as int;
            let wb = pow2(eb as nat) as int;
            let u = one_unit();
            let v = pow2(BIAS as nat) as int;
            lemma_pow2_pos(ea as nat);
            lemma_pow2_pos(eb as nat);
            lemma_pow2_pos(1074);
            lemma_pow2_pos(BIAS as nat);
            lemma_mul_strictly_positive(sb as int, wb);
            lemma_pow2_adds(ea as nat, 1074);
            lemma_pow2_adds((ea + 1074) as nat, BIAS as nat);
            let e2 = (ea + 1074 + BIAS - w) as nat;
            let common = pow2(e2) as int;
            lemma_pow2_pos(e2);
            lemma_pow2_adds(w as nat, e2);
            lemma_pow2_adds(eb as nat, k as nat);
            let ww = pow2(w as nat) as int;
            let wk = pow2(k as nat) as int;
            assert(ww * common == (wa * u) * v);
            assert(wb * wk == common);
            assert(n * v == num * common && n >= 0) by (nonlinear_arith)
                requires
                    n == (sa * wa) * u,
                    num == sa * ww,
                    ww * common == (wa * u) * v,
                    sa >= 0,
                    wa > 0,
                    u > 0,
            ;
            assert(d * wk == sb * common) by (nonlinear_arith)
                requires
                    d == sb * wb,
                    wb * wk == common,
            ;
            vstd::arithmetic::div_mod::lemma_fundamental_div_mod(num as int, sb as int);
            assert(q * sb == sb * q && (q + 1) * sb == q * sb + sb) by (nonlinear_arith);
            lemma_quotient(n, d, k as nat, num as int, sb as int, q as int, common);
            if q < TOP {
                assert((q + 1) * sb <= 0x20_0000_0000_0000 * 0x20_0000_0000_0000) by (nonlinear_arith)
                    requires
                        0 <= q < 0x20_0000_0000_0000,
                        0 <= sb < 0x20_0000_0000_0000,
                ;
            }
        }
        let sticky: bool = q * sb as u128 != num;
        Self::pack(negative, rounding::round(q, k, sticky, Ghost(Exact::Ratio { n, d })))
    }

    /// Shifts a significand up until its bit 126 is set; zero stays zero.
    fn widen(s: u64) -> (r: (u128, u32))
        requires
            s < TOP,
        ensures
            r.0 == s * pow2(r.1 as nat),
            r.1 <= 126,
            s > 0 ==> 0x4000_0000_0000_0000_0000_0000_0000_0000 <= r.0 < 0x8000_0000_0000_0000_0000_0000_0000_0000,
    {
        let mut m: u128 = s as u128;
        let mut w: u32 = 0;
        proof {
            lemma2_to64();
            lemma_mul_basics(s as int);
        }
        if s == 0 {
            return (0, 0);
        }
        while m < 0x4000_0000_0000_0000_0000_0000_0000_0000
            invariant
                m == s * pow2(w as nat),
                0 < m < 0x8000_0000_0000_0000_0000_0000_0000_0000,
                s > 0,
                pow2(w as nat) <= m,
                w <= 126,
            decreases 0x8000_0000_0000_0000_0000_0000_0000_0000 - m,
        {
            proof {
                lemma_pow2_unfold((w + 1) as nat);
                assert(s * (2 * pow2(w as nat)) == 2 * (s * pow2(w as nat))) by (nonlinear_arith);
                if w == 126 {
                    lemma2_to64();
                    lemma2_to64_rest();
                    lemma_pow2_adds(63, 63);
                    assert(pow2(63) * pow2(63) == 0x8000_0000_0000_0000 * 0x8000_0000_0000_0000);
                }
            }
            m = m * 2;
            w = w + 1;
        }
        (m, w)
    }
}

/// The integer square root.
fn integer_root(v: u128) -> (r: u64)
    ensures
        r * r <= v < (r + 1) * (r + 1),
{
    let mut r: u64 = 0;
    let mut bit: u64 = 0x8000_0000_0000_0000;
    let ghost mut i: nat = 63;
    proof {
        lemma2_to64_rest();
        assert(0x1_0000_0000_0000_0000 * 0x1_0000_0000_0000_0000 > u128::MAX);
    }
    while bit > 0
        invariant
            r * r <= v,
            bit > 0 ==> bit == pow2(i),
            bit > 0 ==> v < (r + 2 * bit) * (r + 2 * bit),
            bit > 0 ==> r + 2 * bit <= 0x1_0000_0000_0000_0000,
            bit == 0 ==> v < (r + 1) * (r + 1),
        decreases bit,
    {
        let t: u64 = r + bit;
        proof {
            lemma_mul_upper_bound(t as int, u64::MAX as int, t as int, u64::MAX as int);
            assert(u64::MAX * u64::MAX <= u128::MAX);
            if i > 0 {
                lemma_pow2_unfold(i);
                lemma_pow2_pos((i - 1) as nat);
                assert(bit == 2 * (bit / 2));
                i = (i - 1) as nat;
            } else {
                lemma2_to64();
            }
        }
        if t as u128 * t as u128 <= v {
            r = t;
        }
        bit = bit / 2;
    }
    r
}

impl Binary64 {
    pub fn sqrt(self) -> (r: Binary64)
        ensures
            r == self.root(),
    {
        proof {
            reveal(Binary64::root);
        }
        if self.is_nan() || (self.bits >= SIGN && self.get_payload() != 0) {
            return Binary64 { bits: QUIET };
        }
        if self.get_payload() == 0 || self.is_infinite() {
            return self;
        }
        let (sa, ea) = self.parts();
        let ghost n = rounding::magnitude(self.payload()) * one_unit();
        let (wide, w) = Self::widen(sa);
        let mut num: u128 = wide;
        let mut w: u32 = w;
        proof {
            lemma_widened(sa as int, w as nat, wide as int);
        }
        if (ea + 1074 - w) % 2 == 1 {
            proof {
                lemma_pow2_unfold(w as nat);
                let h = pow2((w - 1) as nat);
                assert(sa * (2 * h) == 2 * (sa * h)) by (nonlinear_arith);
            }
            num = num / 2;
            w = w - 1;
        }
        let j: u32 = (ea + 1074 - w) / 2;
        let k: u32 = j + BIAS;
        let root: u64 = integer_root(num);
        let sticky: bool = root as u128 * root as u128 != num;
        proof {
            let wa = pow2(ea as nat) as int;
            let u = one_unit();
            let v = pow2(BIAS as nat) as int;
            let ww = pow2(w as nat) as int;
            let jj = pow2(j as nat) as int;
            lemma_pow2_pos(ea as nat);
            lemma_pow2_pos(1074);
            lemma_pow2_pos(j as nat);
            lemma_pow2_pos(BIAS as nat);
            lemma_pow2_adds(ea as nat, 1074);
            lemma_pow2_adds(j as nat, j as nat);
            lemma_pow2_adds(w as nat, (j + j) as nat);
            lemma_pow2_adds(j as nat, BIAS as nat);
            let kk = pow2(k as nat) as int;
            assert(ww * (jj * jj) == wa * u);
            assert(n * (v * v) == num * (kk * kk)) by (nonlinear_arith)
                requires
                    n == (sa * wa) * u,
                    num == sa * ww,
                    ww * (jj * jj) == wa * u,
                    kk == jj * v,
            ;
            assert(n >= 0) by (nonlinear_arith)
                requires
                    n == (sa * wa) * u,
                    sa >= 0,
                    wa > 0,
                    u > 0,
            ;
            lemma_mul_strictly_positive(jj, v);
            lemma_square_root(n, k as nat, num as int, root as int);
            if root < TOP {
                assert((root + 1) * (root + 1) <= 0x20_0000_0000_0000 * 0x20_0000_0000_0000) by (nonlinear_arith)
                    requires
                        0 <= root < 0x20_0000_0000_0000,
                ;
            }
        }
        Self::pack(false, rounding::round(root as u128, k, sticky, Ghost(Exact::Root { n })))
    }
}

proof fn lemma_widened(s: int, w: nat, m: int)
    requires
        0 < s < TOP,
        m == s * pow2(w),
        m >= 0x4000_0000_0000_0000_0000_0000_0000_0000,
    ensures
        w > 0,
{
    if w == 0 {
        lemma2_to64();
    }
}

proof fn lemma_square_root(n: int, k: nat, num: int, r: int)
    requires
        n >= 0,
        r >= 0,
        n * (pow2(BIAS as nat) * pow2(BIAS as nat)) == num * (pow2(k) * pow2(k)),
        r * r <= num < (r + 1) * (r + 1),
    ensures
        (Exact::Root { n }).wf(),
        rounding::fits(Exact::Root { n }, r, k, r * r != num),
{
    let v = pow2(BIAS as nat) as int;
    let w = pow2(k) as int;
    lemma_pow2_pos(k);
    assert(n * (v * v) - (r * w) * (r * w) == (num - r * r) * (w * w)) by (nonlinear_arith)
        requires
            n * (v * v) == num * (w * w),
    ;
    assert(n * (v * v) - ((r + 1) * w) * ((r + 1) * w) == (num - (r + 1) * (r + 1)) * (w * w)) by (nonlinear_arith)
        requires
            n * (v * v) == num * (w * w),
    ;
    assert(w * w > 0) by (nonlinear_arith)
        requires
            w > 0,
    ;
    let ww = w * w;
    let a = num - r * r;
    let b = num - (r + 1) * (r + 1);
    assert(a * ww >= 0 && (a * ww == 0) == (a == 0) && b * ww < 0) by (nonlinear_arith)
        requires
            a >= 0,
            b < 0,
            ww > 0,
    ;
}

/// Magnitudes are ordered as their payloads are.
pub proof fn lemma_magnitude_order(p: int, q: int)
    requires
        p >= 0,
        q >= 0,
    ensures
        (p < q) == (rounding::magnitude(p) < rounding::magnitude(q)),
        (p == q) == (rounding::magnitude(p) == rounding::magnitude(q)),
        rounding::magnitude(0) == 0,
        rounding::magnitude(p) >= 0,
{
    if p < q {
        rounding::lemma_magnitude_grows(p, q);
    } else if q < p {
        rounding::lemma_magnitude_grows(q, p);
    } else {
        rounding::lemma_split(p);
    }
    rounding::lemma_split(0);
}

impl Binary64 {
    /// `self < other`.
    pub fn lt(self, other: Binary64) -> (r: bool)
        ensures
            r == self.less(other),
    {
        let a: u64 = self.get_payload();
        let b: u64 = other.get_payload();
        proof {
            lemma_magnitude_order(a as int, b as int);
            lemma_magnitude_order(b as int, a as int);
            lemma_magnitude_order(a as int, 0);
            lemma_magnitude_order(b as int, 0);
        }
        if a > INFINITE || b > INFINITE {
            false
        } else if self.bits < SIGN {
            other.bits < SIGN && a < b
        } else if other.bits < SIGN {
            a > 0 || b > 0
        } else {
            b < a
        }
    }

    /// `self <= other`.
    pub fn le(self, other: Binary64) -> (r: bool)
        ensures
            r == self.at_most(other),
    {
        !self.is_nan() && !other.is_nan() && !other.lt(self)
    }

    /// The greater of the two; the other one where one is a NaN.
    pub open spec fn greater_of(self, other: Binary64) -> Binary64 {
        if self.nan() || self.less(other) {
            other
        } else {
            self
        }
    }

    /// The lesser of the two; the other one where one is a NaN.
    pub open spec fn lesser_of(self, other: Binary64) -> Binary64 {
        if self.nan() || other.less(self) {
            other
        } else {
            self
        }
    }

    pub fn max(self, other: Binary64) -> (r: Binary64)
        ensures
            r == self.greater_of(other),
    {
        if self.is_nan() || self.lt(other) {
            other
        } else {
            self
        }
    }

    pub fn min(self, other: Binary64) -> (r: Binary64)
        ensures
            r == self.lesser_of(other),
    {
        if self.is_nan() || other.lt(self) {
            other
        } else {
            self
        }
    }

    /// The double nearest to an integer.
    pub fn from_u64(n: u64) -> (r: Binary64)
        ensures
            r == Self::fraction(n as int, 1),
    {
        proof {
            reveal(Binary64::fraction);
        }
        proof {
            lemma_whole(n * one_unit(), n as int, 1074);
        }
        Self::pack(false, rounding::round(n as u128, 1074 + BIAS, false, Ghost(Exact::Ratio { n: n * one_unit(), d: 1 })))
    }

    /// The double nearest to `n / d`.
    pub fn ratio(n: u64, d: u64) -> (r: Binary64)
        requires
            n < TOP,
            0 < d < TOP,
        ensures
            r == Self::fraction(n as int, d as int),
    {
        proof {
            reveal(Binary64::fraction);
        }
        let (num, w) = Self::widen(n);
        let q: u128 = num / d as u128;
        let k: u32 = 1074 + BIAS - w;
        let ghost exact = n * one_unit();
        proof {
            let u = one_unit();
            let v = pow2(BIAS as nat) as int;
            let ww = pow2(w as nat) as int;
            let common = pow2(k as nat) as int;
            lemma_pow2_pos(k as nat);
            lemma_pow2_pos(1074);
            lemma_pow2_adds(1074, BIAS as nat);
            lemma_pow2_adds(w as nat, k as nat);
            assert(exact * v == num * common && exact >= 0) by (nonlinear_arith)
                requires
                    exact == n * u,
                    num == n * ww,
                    ww * common == u * v,
                    n >= 0,
                    u > 0,
            ;
            vstd::arithmetic::div_mod::lemma_fundamental_div_mod(num as int, d as int);
            assert(q * d == d * q && (q + 1) * d == q * d + d) by (nonlinear_arith);
            lemma_quotient(exact, d as int, k as nat, num as int, d as int, q as int, common);
            if q < TOP {
                assert((q + 1) * d <= 0x20_0000_0000_0000 * 0x20_0000_0000_0000) by (nonlinear_arith)
                    requires
                        0 <= q < 0x20_0000_0000_0000,
                        0 <= d < 0x20_0000_0000_0000,
                ;
            }
            if n == 0 {
                assert(q == 0) by (nonlinear_arith)
                    requires
                        q * d <= 0,
                        d > 0,
                        q >= 0,
                ;
            }
        }
        let sticky: bool = q * d as u128 != num;
        Self::pack(false, rounding::round(q, k, sticky, Ghost(Exact::Ratio { n: exact, d: d as int })))
    }

    /// The largest integer not above the value; zero for a NaN.
    pub open spec fn floor(self) -> int {
        if self.nan() {
            0
        } else {
            self.value() / one_unit()
        }
    }

    /// The smallest integer not below the value; zero for a NaN.
    pub open spec fn ceiling(self) -> int {
        if self.nan() {
            0
        } else {
            -((-self.value()) / one_unit())
        }
    }

    /// The whole units of one in the magnitude, `u64::MAX` where there are more, and whether a
    /// fraction is left over.
    fn whole_units(self) -> (r: (u64, bool))
        requires
            self.finite(),
        ensures
            ({
                let m = rounding::magnitude(self.payload());
                &&& r.0 == if m / one_unit() <= u64::MAX { m / one_unit() } else { u64::MAX as int }
                &&& r.1 == (m % one_unit() != 0)
            }),
    {
        let (sig, e) = self.parts();
        let mut s: u128 = sig as u128;
        let mut e: u32 = e;
        let mut rest: bool = false;
        let ghost m = rounding::magnitude(self.payload());
        proof {
            lemma_pow2_pos(e as nat);
            assert((s + 1) * pow2(e as nat) == s * pow2(e as nat) + pow2(e as nat)) by (nonlinear_arith);
        }
        while e < 1074
            invariant
                s < TOP,
                s * pow2(e as nat) <= m < (s + 1) * pow2(e as nat),
                rest == (s * pow2(e as nat) != m),
                e > 1074 ==> !rest && s >= HIDDEN,
            decreases 1074 - e,
        {
            proof {
                lemma_pow2_unfold((e + 1) as nat);
                lemma_pow2_pos(e as nat);
                let w = pow2(e as nat) as int;
                let h = (s / 2) as int;
                let b = (s % 2) as int;
                assert(b * w == if b == 1 { w } else { 0 });
                assert(s * w == h * (2 * w) + b * w && (s + 1) * w == s * w + w && (h + 1) * (2 * w) == h * (2 * w)
                    + 2 * w) by (nonlinear_arith)
                    requires
                        s == 2 * h + b,
                ;
            }
            rest = rest || s % 2 == 1;
            s = s / 2;
            e = e + 1;
        }
        while e > 1074 && s <= u64::MAX as u128
            invariant
                s < 0x2_0000_0000_0000_0000,
                e >= 1074,
                s * pow2(e as nat) <= m < (s + 1) * pow2(e as nat),
                rest == (s * pow2(e as nat) != m),
                e > 1074 ==> !rest && s > 0,
            decreases e,
        {
            proof {
                lemma_pow2_unfold(e as nat);
                lemma_pow2_pos((e - 1) as nat);
                let w = pow2((e - 1) as nat) as int;
                assert(s * (2 * w) == (2 * s) * w && (2 * s + 1) * w == (2 * s) * w + w) by (nonlinear_arith);
            }
            s = s * 2;
            e = e - 1;
        }
        proof {
            let u = one_unit();
            lemma_pow2_pos(1074);
            if e == 1074 {
                assert((s + 1) * u == s * u + u) by (nonlinear_arith);
                vstd::arithmetic::div_mod::lemma_fundamental_div_mod_converse(m, u, s as int, m - s * u);
            } else {
                lemma_pow2_adds((e - 1074) as nat, 1074);
                lemma_pow2_pos((e - 1074) as nat);
                let f = s * pow2((e - 1074) as nat);
                lemma_mul_is_associative(s as int, pow2((e - 1074) as nat) as int, u);
                assert(m == f * u + 0);
                vstd::arithmetic::div_mod::lemma_fundamental_div_mod_converse(m, u, f, 0);
                lemma_mul_inequality(1, pow2((e - 1074) as nat) as int, s as int);
                lemma_mul_is_commutative(s as int, pow2((e - 1074) as nat) as int);
            }
        }
        if s <= u64::MAX as u128 {
            (s as u64, rest)
        } else {
            (u64::MAX, rest)
        }
    }

    /// The value truncated into a `u64`: zero below zero and for a NaN, `u64::MAX` above it.
    pub fn to_u64(self) -> (r: u64)
        ensures
            r == if self.floor() < 0 { 0 } else if self.floor() <= u64::MAX { self.floor() } else { u64::MAX as int },
    {
        proof {
            lemma_units(self);
        }
        if self.is_nan() || self.bits >= SIGN {
            0
        } else if self.is_infinite() {
            u64::MAX
        } else {
            self.whole_units().0
        }
    }

    /// The value rounded up into a `u32`: zero below zero and for a NaN, `u32::MAX` above it.
    pub fn ceil_to_u32(self) -> (r: u32)
        ensures
            r == if self.ceiling() < 0 { 0 } else if self.ceiling() <= u32::MAX { self.ceiling() } else { u32::MAX as int },
    {
        proof {
            lemma_units(self);
        }
        if self.is_nan() || self.bits >= SIGN {
            return 0;
        }
        if self.is_infinite() {
            return u32::MAX;
        }
        let (whole, rest) = self.whole_units();
        if whole >= u32::MAX as u64 {
            u32::MAX
        } else if rest {
            whole as u32 + 1
        } else {
            whole as u32
        }
    }
}

/// Where a negative value and the infinities fall among the integers.
proof fn lemma_units(x: Binary64)
    ensures
        one_unit() > 0,
        !x.nan() && x.negative() ==> x.floor() <= 0 && x.ceiling() <= 0,
        x.infinite() && !x.negative() ==> x.floor() > u64::MAX && x.ceiling() > u32::MAX,
        !x.nan() && !x.negative() ==> ({
            let m = rounding::magnitude(x.payload());
            let f = m / one_unit();
            &&& x.floor() == f >= 0
            &&& x.ceiling() == if m % one_unit() == 0 { f } else { f + 1 }
        }),
{
    let m = rounding::magnitude(x.payload());
    let u = one_unit();
    lemma_pow2_pos(1074);
    rounding::lemma_split(x.payload());
    let f = m / u;
    vstd::arithmetic::div_mod::lemma_fundamental_div_mod(m, u);
    vstd::arithmetic::div_mod::lemma_div_pos_is_pos(m, u);
    let r = m % u;
    if r == 0 {
        assert(-m == u * (-f) + 0) by (nonlinear_arith)
            requires
                m == u * f + r,
                r == 0,
        ;
        lemma_mul_is_commutative(u, -f);
        vstd::arithmetic::div_mod::lemma_fundamental_div_mod_converse(-m, u, -f, 0);
    } else {
        assert(-m == u * (-f - 1) + (u - r)) by (nonlinear_arith)
            requires
                m == u * f + r,
        ;
        lemma_mul_is_commutative(u, -f - 1);
        vstd::arithmetic::div_mod::lemma_fundamental_div_mod_converse(-m, u, -f - 1, u - r);
    }
    if x.infinite() {
        rounding::lemma_split_magnitude(2046, HIDDEN as int);
        assert(2046 * HIDDEN + HIDDEN == INFINITE);
        lemma_pow2_adds(972, 1074);
        lemma_pow2_pos(972);
        lemma2_to64();
        lemma_pow2_strictly_increases(64, 972);
        let g = HIDDEN * pow2(972);
        lemma_mul_is_associative(HIDDEN as int, pow2(972) as int, u);
        assert(m == g * u + 0);
        vstd::arithmetic::div_mod::lemma_fundamental_div_mod_converse(m, u, g, 0);
        lemma_mul_inequality(1, HIDDEN as int, pow2(972) as int);
    }
}

impl PartialEq for Binary64 {
    fn eq(&self, other: &Binary64) -> (r: bool) {
        self.le(*other) && other.le(*self)
    }
}

impl PartialEqSpecImpl for Binary64 {
    open spec fn obeys_eq_spec() -> bool {
        true
    }

    open spec fn eq_spec(&self, other: &Binary64) -> bool {
        self.equal(*other)
    }
}

} // verus!
