//! What the bounds on measured RTTs carry over to: fused edges, coordinates and the cost of paths stay
//! finite, so that a predicted RTT is finite exactly where measured edges lead.

use crate::api::{MeshEdgeView, NodeCapacityView};
use crate::binary64::{self, Binary64};
use crate::bounds::{self, size, unit, within};
use crate::dijkstra;
use crate::embedding::{self, EmbeddingOptions, SpringView};
use crate::fusion::{self, FusedView};
use crate::graph::{self, GraphOptions, GraphView};
use crate::order;
use crate::paths;
use crate::prng;
use crate::roster;
use crate::rounding;
use crate::text;
use crate::topology;
use vstd::arithmetic::mul::*;
use vstd::arithmetic::power2::*;
use vstd::prelude::*;

verus! {

// ---- the layout ----

/// A number that is not negative and at most `2^e`.
pub open spec fn up_to(x: Binary64, e: int) -> bool {
    x.finite() && 0 <= x.value() <= unit(e)
}

/// Every coordinate lies between `-2^476` and `2^476`.
pub open spec fn contained(pos: Seq<Seq<Binary64>>) -> bool {
    forall|i: int, k: int|
        0 <= i < pos.len() && 0 <= k < pos[i].len() ==> within(#[trigger] pos[i][k], 476)
}

/// A positive number lies between a power of two and its double.
proof fn lemma_bracket(n: int, low: int, high: int) -> (j: int)
    requires
        -1074 <= low <= high,
        unit(low) <= n <= unit(high + 1),
    ensures
        low <= j <= high,
        unit(j) <= n <= unit(j + 1),
    decreases high - low,
{
    if n >= unit(high) {
        high
    } else {
        if high == low {
            bounds::lemma_unit(low, high);
        }
        lemma_bracket(n, low, high - 1)
    }
}

proof fn lemma_distance(a: Seq<Binary64>, b: Seq<Binary64>)
    requires
        a.len() == 2,
        b.len() == 2,
        forall|k: int| 0 <= k < 2 ==> within(#[trigger] a[k], 476),
        forall|k: int| 0 <= k < 2 ==> within(#[trigger] b[k], 476),
    ensures
        up_to(embedding::distance(a, b), 478),
        embedding::squares(a, b, 2).finite(),
        forall|k: int|
            0 <= k < 2 ==> within(#[trigger] a[k].minus(b[k]), 477) && (size(a[k].minus(b[k])) <= 2
                * embedding::distance(a, b).value() || size(a[k].minus(b[k])) <= unit(-30)),
{
    reveal_with_fuel(embedding::squares, 3);
    let zero = Binary64::zero();
    let x = a[0].minus(b[0]);
    let y = a[1].minus(b[1]);
    let xx = x.times(x);
    let yy = y.times(y);
    let s = zero.plus(xx);
    let t = s.plus(yy);
    assert(t == embedding::squares(a, b, 2));
    order::lemma_constants();
    bounds::lemma_plus_within(a[0], b[0], 476);
    bounds::lemma_plus_within(a[1], b[1], 476);
    bounds::lemma_times_within(x, x, 477, 477);
    bounds::lemma_times_within(y, y, 477, 477);
    bounds::lemma_times_size(x, x);
    bounds::lemma_times_size(y, y);
    bounds::lemma_unit(954, 954);
    bounds::lemma_unit_doubles(954);
    bounds::lemma_unit_doubles(955);
    order::lemma_plus(zero, xx);
    order::lemma_rounded_exact(xx, 1);
    order::lemma_finite_bounds(xx);
    order::lemma_finite_bounds(s);
    bounds::lemma_plus_within(s, yy, 954);
    order::lemma_plus_nonnegative(s, yy);
    order::lemma_plus_commutes(s, yy);
    order::lemma_plus_nonnegative(yy, s);
    bounds::lemma_root_within(t, 478);
    if size(x) > unit(-30) {
        let j = lemma_bracket(size(x), -30, 476);
        bounds::lemma_unit_doubles(j);
        lemma_square_at_least(x, j);
        bounds::lemma_root_within(t, j);
    }
    if size(y) > unit(-30) {
        let j = lemma_bracket(size(y), -30, 476);
        bounds::lemma_unit_doubles(j);
        lemma_square_at_least(y, j);
        bounds::lemma_root_within(t, j);
    }
}

proof fn lemma_square_at_least(x: Binary64, j: int)
    requires
        x.finite(),
        -30 <= j <= 477,
        unit(j) <= size(x),
    ensures
        size(x.times(x)) >= unit(2 * j),
{
    let u = binary64::one_unit();
    order::lemma_constants();
    bounds::lemma_unit(j, j);
    bounds::lemma_times_size(x, x);
    assert(unit(j) * unit(j) <= size(x) * size(x)) by (nonlinear_arith)
        requires
            0 < unit(j) <= size(x),
    ;
    bounds::lemma_rounded_at_least(size(x) * size(x), u, 2 * j);
}

/// The move of one coordinate under a spring keeps it in bounds, on either side.
proof fn lemma_move(a: Binary64, b: Binary64, d: Binary64, rest: Binary64, s: Binary64)
    requires
        within(a, 476),
        within(b, 476),
        up_to(d, 478),
        unit(-30) <= d.value(),
        size(a.minus(b)) <= 2 * d.value(),
        up_to(rest, 418),
        up_to(s, -2),
    ensures
        ({
            let g = s.times(d.minus(rest)).times(a.minus(b).over(d));
            within(a.minus(g), 476) && within(b.plus(g), 476)
        }),
{
    let e = d.minus(rest);
    let f = s.times(e);
    let t = a.minus(b);
    let v = t.over(d);
    let g = f.times(v);
    order::lemma_constants();
    bounds::lemma_unit(418, 478);
    bounds::lemma_unit(-30, 0);
    bounds::lemma_unit(422, 476);
    bounds::lemma_unit(417, 422);
    bounds::lemma_unit(-1, 422);
    bounds::lemma_unit_doubles(0);
    bounds::lemma_plus_within(d, rest, 478);
    bounds::lemma_plus_within(a, b, 476);
    order::lemma_negated(rest);
    order::lemma_negated(g);
    order::lemma_plus(d, rest.negated());
    // the quotient is at most two
    bounds::lemma_over_size(t, d);
    let u = binary64::one_unit();
    assert(size(t) * u <= unit(1) * d.value()) by (nonlinear_arith)
        requires
            size(t) <= 2 * d.value(),
            unit(1) == 2 * u,
            u > 0,
    ;
    lemma_mul_nonnegative(size(t), u);
    bounds::lemma_rounded_at_most(size(t) * u, d.value(), 1);
    bounds::lemma_stays_finite(v, 1);
    if d.value() < rest.value() {
        // pushed apart, by less than the rest length
        order::lemma_rounded_grows(d.value() - rest.value(), 1, 0, 1);
        order::lemma_rounded_grows(-rest.value(), 1, d.value() - rest.value(), 1);
        order::lemma_rounded_exact(rest.negated(), 1);
        order::lemma_rounded_exact(Binary64::zero(), 1);
        assert(within(e, 418));
        bounds::lemma_times_within(s, e, -2, 418);
        bounds::lemma_times_within(f, v, 416, 1);
        bounds::lemma_plus_absorbs(a, g.negated(), 476);
        bounds::lemma_plus_absorbs(b, g, 476);
    } else {
        order::lemma_rounded_grows(0, 1, d.value() - rest.value(), 1);
        order::lemma_rounded_grows(d.value() - rest.value(), 1, d.value(), 1);
        order::lemma_rounded_exact(d, 1);
        order::lemma_rounded_exact(Binary64::zero(), 1);
        assert(0 <= e.value() <= d.value());
        let j = lemma_bracket(d.value(), -30, 477);
        bounds::lemma_times_within(s, e, -2, j + 1);
        bounds::lemma_unit(j - 1, 477);
        if size(t) <= u {
            bounds::lemma_over_within(t, d, 0, j);
            bounds::lemma_times_within(f, v, j - 1, -j);
            bounds::lemma_plus_absorbs(a, g.negated(), 476);
            bounds::lemma_plus_absorbs(b, g, 476);
        } else {
            lemma_pull_together(a, b, d, e, s);
        }
    }
}

/// Drawn together over a distance that counts, two coordinates stay between where they were.
proof fn lemma_pull_together(a: Binary64, b: Binary64, d: Binary64, e: Binary64, s: Binary64)
    requires
        within(a, 476),
        within(b, 476),
        up_to(d, 478),
        unit(-30) <= d.value(),
        e.finite(),
        0 <= e.value() <= d.value(),
        up_to(s, -2),
        within(s.times(e), 477),
        within(a.minus(b).over(d), 1),
        size(a.minus(b)) > binary64::one_unit(),
    ensures
        ({
            let g = s.times(e).times(a.minus(b).over(d));
            within(a.minus(g), 476) && within(b.plus(g), 476)
        }),
{
    let f = s.times(e);
    let t = a.minus(b);
    let v = t.over(d);
    let g = f.times(v);
    let u = binary64::one_unit();
    let gap = a.value() - b.value();
    let wide = if gap < 0 { -gap } else { gap };
    order::lemma_constants();
    bounds::lemma_unit(478, 1074);
    bounds::lemma_unit(-30, -2);
    bounds::lemma_unit(-2, 0);
    bounds::lemma_unit_doubles(-2);
    bounds::lemma_unit_doubles(-1);
    bounds::lemma_unit(-1070, -30);
    bounds::lemma_plus_within(a, b, 476);
    // the difference
    order::lemma_negated(b);
    order::lemma_plus(a, b.negated());
    bounds::lemma_unit_doubles(476);
    bounds::lemma_unit(477, 478);
    if wide < 4 {
        lemma2_to64();
        bounds::lemma_unit(-1072, 0);
        bounds::lemma_rounded_at_most(wide, 1, -1072);
    }
    lemma_eighth(wide, 1, 478);
    assert(8 * size(t) <= 9 * wide);
    // the force
    bounds::lemma_times_size(s, e);
    assert(4 * unit(-2) == u);
    lemma_tiny();
    assert(size(s) * size(e) <= unit(-2) * d.value()) by (nonlinear_arith)
        requires
            0 <= size(s) <= unit(-2),
            0 <= size(e) <= d.value(),
    ;
    lemma_monotone(size(s) * size(e), unit(-2) * d.value(), u);
    assert(4 * u <= unit(-2) * d.value()) by (nonlinear_arith)
        requires
            4 * unit(-2) == u,
            16 <= d.value(),
            u > 0,
    ;
    assert(unit(-2) * d.value() <= unit(478) * u) by (nonlinear_arith)
        requires
            4 * unit(-2) == u,
            0 <= d.value() <= unit(478),
            u > 0,
    ;
    lemma_eighth(unit(-2) * d.value(), u, 478);
    assert(32 * size(f) <= 9 * d.value()) by (nonlinear_arith)
        requires
            size(f) <= order::rounded(unit(-2) * d.value(), u),
            8 * (order::rounded(unit(-2) * d.value(), u) * u) <= 9 * (unit(-2) * d.value()),
            4 * unit(-2) == u,
            u > 0,
    ;
    // the direction
    bounds::lemma_over_size(t, d);
    bounds::lemma_unit(0, 0);
    assert(4 * d.value() <= size(t) * u) by (nonlinear_arith)
        requires
            4 * d.value() <= u * u,
            size(t) > u,
            u > 0,
    ;
    bounds::lemma_unit(507, 507);
    bounds::lemma_unit(507, -30);
    bounds::lemma_unit(477, 477);
    assert(size(t) * u <= unit(507) * d.value()) by (nonlinear_arith)
        requires
            0 <= size(t) <= unit(477),
            unit(477) * u == unit(507) * unit(-30),
            unit(-30) <= d.value(),
            unit(507) > 0,
            u > 0,
    ;
    lemma_eighth(size(t) * u, d.value(), 507);
    // the move
    bounds::lemma_times_size(f, v);
    let fv = size(f) * size(v);
    assert(256 * fv <= 81 * (size(t) * u)) by (nonlinear_arith)
        requires
            fv == size(f) * size(v),
            32 * size(f) <= 9 * d.value(),
            8 * (size(v) * d.value()) <= 9 * (size(t) * u),
            0 <= size(f),
            0 <= size(v),
    ;
    let n = 81 * size(t);
    assert(fv * 256 <= n * u) by (nonlinear_arith)
        requires
            256 * fv <= 81 * (size(t) * u),
            n == 81 * size(t),
    ;
    order::lemma_rounded_grows(fv, u, n, 256);
    bounds::lemma_unit(477, 478);
    lemma_eighth(n, 256, 478);
    assert(2 * size(g) <= size(t));
    assert(size(g) <= wide);
    // the move has the sign of the gap
    order::lemma_rounded_exact(Binary64::zero(), 1);
    if gap >= 0 {
        order::lemma_rounded_grows(0, 1, gap, 1);
    } else {
        order::lemma_rounded_grows(gap, 1, 0, 1);
    }
    bounds::lemma_times_within(f, v, 477, 1);
    order::lemma_negated(g);
    bounds::lemma_sum_within(a, g.negated(), 476);
    bounds::lemma_sum_within(b, g, 476);
}

proof fn lemma_tiny()
    ensures
        unit(-30) >= 16,
        4 * unit(478) <= binary64::one_unit() * binary64::one_unit(),
{
    order::lemma_constants();
    lemma2_to64();
    lemma_pow2_strictly_increases(4, 1044);
    bounds::lemma_unit(0, 0);
    lemma_pow2_adds(1074, 1074);
    lemma_pow2_adds(2, 1552);
    lemma_pow2_strictly_increases(1554, 2148);
}

proof fn lemma_monotone(n: int, m: int, d: int)
    requires
        n <= m,
        d > 0,
    ensures
        order::rounded(n, d) <= order::rounded(m, d),
{
    assert(n * d <= m * d) by (nonlinear_arith)
        requires
            n <= m,
            d > 0,
    ;
    order::lemma_rounded_grows(n, d, m, d);
}

/// Rounding raises what is neither tiny nor beyond a power of two by at most an eighth.
proof fn lemma_eighth(n: int, d: int, e: int)
    requires
        d > 0,
        4 * d <= n,
        -1074 <= e <= 971,
        n <= unit(e) * d,
    ensures
        8 * (order::rounded(n, d) * d) <= 9 * n,
{
    bounds::lemma_rounded_at_most(n, d, e);
    bounds::lemma_rounded_by_an_eighth(n, d);
}

// ---- the springs ----

/// The springs of a layout: nodes in range, rest lengths that are not beyond the bound on RTTs, and
/// confidence in the unit interval.
spec fn mild(all: Seq<SpringView>, count: nat) -> bool {
    forall|n: int|
        0 <= n < all.len() ==> {
            let s = #[trigger] all[n];
            0 <= s.i < count && 0 <= s.j < count && up_to(s.rest, 418) && up_to(s.confidence, 0)
        }
}

proof fn lemma_confidence(samples: u64)
    ensures
        up_to(embedding::confidence(samples), 0),
{
    order::lemma_constants();
    bounds::lemma_unit(0, 0);
    order::lemma_fraction_at_most_one(25, 100);
    if samples > 0 {
        let s = Binary64::fraction(samples as int, 1);
        let four = Binary64::fraction(4, 1);
        order::lemma_wide_number(samples as int);
        order::lemma_whole_number(4);
        order::lemma_fraction_grows(1, samples as int, 1);
        order::lemma_whole_number(1);
        lemma_wide_within(samples as int);
        bounds::lemma_unit(4, 64);
        lemma_wide_within(4);
        bounds::lemma_plus_within(s, four, 64);
        order::lemma_plus_nonnegative(s, four);
        order::lemma_over_at_most_one(s, s.plus(four));
    }
}

proof fn lemma_wide_within(n: int)
    requires
        0 <= n <= 0x1_0000_0000_0000_0000,
    ensures
        up_to(Binary64::fraction(n, 1), 64),
{
    lemma2_to64();
    order::lemma_wide_number(n);
    order::lemma_power(64);
    order::lemma_fraction_grows(n, pow2(64) as int, 1);
    lemma_pow2_adds(64, 1074);
}

proof fn lemma_springs_mild(ids: Seq<Seq<char>>, edges: Seq<MeshEdgeView>)
    requires
        forall|e: int| 0 <= e < edges.len() ==> up_to((#[trigger] edges[e]).rtt_ms, 418),
    ensures
        mild(embedding::springs(ids, edges), ids.len()),
    decreases edges.len(),
{
    if edges.len() > 0 {
        let rest = edges.drop_last();
        assert forall|e: int| 0 <= e < rest.len() implies up_to((#[trigger] rest[e]).rtt_ms, 418) by {
            assert(rest[e] == edges[e]);
        }
        lemma_springs_mild(ids, rest);
        let e = edges.last();
        assert(up_to(edges[edges.len() - 1].rtt_ms, 418));
        roster::lemma_position(ids, e.a);
        roster::lemma_position(ids, e.b);
        lemma_confidence(e.samples);
        order::lemma_constants();
        order::lemma_fraction_at_most_one(1, 1000);
        bounds::lemma_unit(0, 418);
        let before = embedding::springs(ids, rest);
        let all = embedding::springs(ids, edges);
        assert forall|n: int| 0 <= n < all.len() implies {
            let s = #[trigger] all[n];
            0 <= s.i < ids.len() && 0 <= s.j < ids.len() && up_to(s.rest, 418) && up_to(s.confidence, 0)
        } by {
            if n < before.len() {
                assert(all[n] == before[n]);
            }
        }
    }
}

/// The step of a sweep under the standard options.
proof fn lemma_step(options: EmbeddingOptions, it: int)
    requires
        options.standard(),
        0 <= it < 300,
    ensures
        up_to(options.step(it), -2),
{
    let first = options.initial_step;
    let last = options.min_step;
    let share = Binary64::fraction(it, 1).over(Binary64::fraction(299, 1));
    let fall = first.minus(last);
    order::lemma_constants();
    lemma2_to64();
    order::lemma_dyadic(1, 2);
    bounds::lemma_unit_doubles(-2);
    bounds::lemma_unit_doubles(-1);
    order::lemma_fraction_ordered(1, 4, 25, 100);
    order::lemma_fraction_ordered(25, 100, 1, 4);
    order::lemma_fraction_at_most_one(25, 100);
    order::lemma_fraction_at_most_one(1, 100);
    order::lemma_fraction_ordered(1, 100, 25, 100);
    order::lemma_fraction(1, 100);
    assert(first.value() == unit(-2));
    order::lemma_whole_number(it);
    order::lemma_whole_number(299);
    let u = binary64::one_unit();
    assert(0 <= it * u <= 299 * u) by (nonlinear_arith)
        requires
            0 <= it <= 299,
            u > 0,
    ;
    order::lemma_over_at_most_one(Binary64::fraction(it, 1), Binary64::fraction(299, 1));
    // the fall is between nothing and the first step
    order::lemma_negated(last);
    order::lemma_plus(first, last.negated());
    order::lemma_rounded_exact(Binary64::zero(), 1);
    order::lemma_rounded_exact(first, 1);
    order::lemma_rounded_grows(0, 1, first.value() - last.value(), 1);
    order::lemma_rounded_grows(first.value() - last.value(), 1, first.value(), 1);
    order::lemma_finite_bounds(first);
    order::lemma_finite_bounds(fall);
    order::lemma_times_shrinks(fall, share);
    let part = fall.times(share);
    order::lemma_finite_bounds(part);
    order::lemma_negated(part);
    order::lemma_plus(first, part.negated());
    order::lemma_rounded_grows(0, 1, first.value() - part.value(), 1);
    order::lemma_rounded_grows(first.value() - part.value(), 1, first.value(), 1);
    order::lemma_finite_bounds(first.minus(part));
}

proof fn lemma_pulled(pos: Seq<Seq<Binary64>>, s: SpringView, step: Binary64, count: nat)
    requires
        embedding::shaped(pos, count, 2),
        contained(pos),
        0 <= s.i < count,
        0 <= s.j < count,
        up_to(s.rest, 418),
        up_to(s.confidence, 0),
        up_to(step, -2),
    ensures
        embedding::shaped(embedding::pulled(pos, s, step, 2), count, 2),
        contained(embedding::pulled(pos, s, step, 2)),
{
    let a = pos[s.i];
    let b = pos[s.j];
    let d = embedding::distance(a, b);
    let r = embedding::pulled(pos, s, step, 2);
    let half = embedding::half();
    assert(a.len() == 2 && b.len() == 2);
    assert forall|k: int| 0 <= k < 2 implies within(#[trigger] a[k], 476) by {
        assert(within(pos[s.i][k], 476));
    }
    assert forall|k: int| 0 <= k < 2 implies within(#[trigger] b[k], 476) by {
        assert(within(pos[s.j][k], 476));
    }
    order::lemma_constants();
    lemma_distance(a, b);
    bounds::lemma_unit(-1, 422);
    bounds::lemma_unit(0, 422);
    bounds::lemma_unit(422, 476);
    if d.less(Binary64::fraction(1, 1_000_000_000)) {
        let axis = (s.i + s.j) % 2;
        order::lemma_fraction_at_most_one(1, 2);
        order::lemma_negated(half);
        bounds::lemma_plus_absorbs(a[axis], half.negated(), 476);
        bounds::lemma_plus_absorbs(b[axis], half, 476);
    } else {
        let w = step.times(s.confidence);
        lemma_nano();
        bounds::lemma_times_within(step, s.confidence, -2, 0);
        bounds::lemma_times_size(step, s.confidence);
        assert(within(a[0].minus(b[0]), 477));
        assert(within(a[1].minus(b[1]), 477));
        lemma_move(a[0], b[0], d, s.rest, w);
        lemma_move(a[1], b[1], d, s.rest, w);
    }
    assert forall|i: int, k: int| 0 <= i < r.len() && 0 <= k < r[i].len() implies within(#[trigger] r[i][k], 476) by {
        if i != s.i && i != s.j {
            assert(r[i] == pos[i]);
            assert(within(pos[i][k], 476));
        } else {
            assert(k == 0 || k == 1);
        }
    }
}

/// Two to the power -30 is less than a billionth.
proof fn lemma_nano()
    ensures
        unit(-30) <= Binary64::fraction(1, 1_000_000_000).value(),
        !Binary64::fraction(1, 1_000_000_000).nan(),
{
    order::lemma_constants();
    lemma2_to64();
    order::lemma_dyadic(1, 30);
    order::lemma_fraction_ordered(1, 0x4000_0000, 1, 1_000_000_000);
    bounds::lemma_unit(-30, 30);
    lemma_pow2_adds(30, 1044);
    let x = Binary64::fraction(1, 0x4000_0000).value();
    assert(x == unit(-30)) by (nonlinear_arith)
        requires
            x * 0x4000_0000 == 1 * binary64::one_unit(),
            0x4000_0000 * unit(-30) == binary64::one_unit(),
    ;
}

proof fn lemma_swept(pos: Seq<Seq<Binary64>>, all: Seq<SpringView>, step: Binary64, count: nat, n: nat)
    requires
        embedding::shaped(pos, count, 2),
        contained(pos),
        mild(all, count),
        up_to(step, -2),
        n <= all.len(),
    ensures
        embedding::shaped(embedding::swept(pos, all, step, 2, n), count, 2),
        contained(embedding::swept(pos, all, step, 2, n)),
    decreases n,
{
    if n > 0 {
        lemma_swept(pos, all, step, count, (n - 1) as nat);
        lemma_pulled(embedding::swept(pos, all, step, 2, (n - 1) as nat), all[n - 1], step, count);
    }
}

proof fn lemma_relaxed(
    pos: Seq<Seq<Binary64>>,
    all: Seq<SpringView>,
    options: EmbeddingOptions,
    count: nat,
    it: nat,
)
    requires
        options.standard(),
        embedding::shaped(pos, count, 2),
        contained(pos),
        mild(all, count),
        it <= 300,
    ensures
        embedding::shaped(embedding::relaxed(pos, all, options, it), count, 2),
        contained(embedding::relaxed(pos, all, options, it)),
    decreases it,
{
    if it > 0 {
        lemma_relaxed(pos, all, options, count, (it - 1) as nat);
        lemma_step(options, it - 1);
        lemma_swept(
            embedding::relaxed(pos, all, options, (it - 1) as nat),
            all,
            options.step(it - 1),
            count,
            all.len(),
        );
    }
}

proof fn lemma_rtt_sum(edges: Seq<MeshEdgeView>)
    requires
        forall|e: int| 0 <= e < edges.len() ==> up_to((#[trigger] edges[e]).rtt_ms, 418),
    ensures
        within(embedding::rtt_sum(edges), 472),
    decreases edges.len(),
{
    order::lemma_constants();
    bounds::lemma_unit(418, 472);
    if edges.len() > 0 {
        let rest = edges.drop_last();
        assert forall|e: int| 0 <= e < rest.len() implies up_to((#[trigger] rest[e]).rtt_ms, 418) by {
            assert(rest[e] == edges[e]);
        }
        lemma_rtt_sum(rest);
        assert(up_to(edges[edges.len() - 1].rtt_ms, 418));
        bounds::lemma_plus_absorbs(embedding::rtt_sum(rest), edges.last().rtt_ms, 472);
    }
}

proof fn lemma_initial(count: nat, seed: u32, edges: Seq<MeshEdgeView>)
    requires
        edges.len() <= u64::MAX,
        forall|e: int| 0 <= e < edges.len() ==> up_to((#[trigger] edges[e]).rtt_ms, 418),
    ensures
        embedding::shaped(embedding::initial_layout(count, 2, seed, embedding::mean_rtt(edges)), count, 2),
        contained(embedding::initial_layout(count, 2, seed, embedding::mean_rtt(edges))),
{
    let mean = embedding::mean_rtt(edges);
    let pos = embedding::initial_layout(count, 2, seed, mean);
    let half = embedding::half();
    order::lemma_constants();
    bounds::lemma_unit(0, 472);
    bounds::lemma_unit(6, 472);
    bounds::lemma_unit(473, 476);
    lemma_rtt_sum(edges);
    if edges.len() > 0 {
        let n = edges.len() as int;
        lemma_wide_within(n);
        order::lemma_fraction_grows(1, n, 1);
        order::lemma_whole_number(1);
        bounds::lemma_over_within(embedding::rtt_sum(edges), Binary64::fraction(n, 1), 472, 0);
    } else {
        order::lemma_whole_number(50);
        lemma2_to64();
        lemma_pow2_adds(6, 1074);
        let u = binary64::one_unit();
        assert(50 * u <= 64 * u);
    }
    order::lemma_fraction_at_most_one(1, 2);
    assert forall|i: int, k: int| 0 <= i < pos.len() && 0 <= k < pos[i].len() implies within(
        #[trigger] pos[i][k],
        476,
    ) by {
        let draw = prng::drawn(embedding::state_after(seed, ((i * 2 + k) as nat) + 1));
        prng::lemma_drawn_in_unit(embedding::state_after(seed, ((i * 2 + k) as nat) + 1));
        bounds::lemma_plus_within(draw, half, 0);
        bounds::lemma_times_within(draw.minus(half), mean, 1, 472);
    }
}

/// Under the standard options, RTTs within the bound give coordinates within theirs.
proof fn lemma_layout_contained(ids: Seq<Seq<char>>, edges: Seq<MeshEdgeView>, options: EmbeddingOptions)
    requires
        options.standard(),
        edges.len() <= u64::MAX,
        forall|e: int| 0 <= e < edges.len() ==> up_to((#[trigger] edges[e]).rtt_ms, 418),
    ensures
        embedding::shaped(embedding::layout(ids, edges, options), ids.len(), 2),
        contained(embedding::layout(ids, edges, options)),
{
    lemma_initial(ids.len(), options.seed, edges);
    lemma_springs_mild(ids, edges);
    lemma_relaxed(
        embedding::initial_layout(ids.len(), 2, options.seed, embedding::mean_rtt(edges)),
        embedding::springs(ids, edges),
        options,
        ids.len(),
        300,
    );
}

// ---- fused edges ----

/// What fusing keeps of observations whose RTTs are at most `2^300`.
spec fn moderate(f: FusedView, n: nat) -> bool {
    &&& up_to(f.rtt_ms, 418)
    &&& up_to(f.weighted, 418)
    &&& 1 <= f.samples <= n * 0x1_0000_0000_0000_0000
}

proof fn lemma_many_within(n: int)
    requires
        1 <= n <= 0x1_0000_0000_0000_0000 * 0x1_0000_0000_0000_0000,
    ensures
        up_to(Binary64::fraction(n, 1), 128),
        unit(0) <= Binary64::fraction(n, 1).value(),
{
    order::lemma_constants();
    bounds::lemma_unit(0, 0);
    lemma2_to64();
    lemma_pow2_adds(64, 64);
    lemma_pow2_adds(128, 1074);
    order::lemma_power(128);
    order::lemma_fraction(n, 1);
    order::lemma_fraction_grows(n, pow2(128) as int, 1);
    order::lemma_fraction_grows(1, n, 1);
    order::lemma_whole_number(1);
    order::lemma_finite_bounds(Binary64::fraction(n, 1));
    order::lemma_finite_bounds(Binary64::fraction(pow2(128) as int, 1));
}

proof fn lemma_weighted(o: MeshEdgeView)
    requires
        up_to(o.rtt_ms, 300),
    ensures
        up_to(o.rtt_ms.times(Binary64::fraction(fusion::weight_of(o), 1)), 364),
{
    let w = Binary64::fraction(fusion::weight_of(o), 1);
    lemma_wide_within(fusion::weight_of(o));
    bounds::lemma_times_within(o.rtt_ms, w, 300, 64);
    bounds::lemma_times_size(o.rtt_ms, w);
}

proof fn lemma_extended(e: FusedView, o: MeshEdgeView, n: nat)
    requires
        moderate(e, n),
        n < 0x1_0000_0000_0000_0000,
        up_to(o.rtt_ms, 300),
    ensures
        moderate(fusion::extended(e, o), n + 1),
{
    let x = o.rtt_ms.times(Binary64::fraction(fusion::weight_of(o), 1));
    let f = fusion::extended(e, o);
    order::lemma_constants();
    lemma_weighted(o);
    bounds::lemma_unit(364, 418);
    bounds::lemma_plus_absorbs(e.weighted, x, 418);
    order::lemma_finite_bounds(e.weighted);
    order::lemma_plus_nonnegative(e.weighted, x);
    lemma_many_within(f.samples);
    bounds::lemma_over_within(f.weighted, Binary64::fraction(f.samples, 1), 418, 0);
    bounds::lemma_unit(0, 0);
    bounds::lemma_over_size(f.weighted, Binary64::fraction(f.samples, 1));
}

proof fn lemma_fused(obs: Seq<MeshEdgeView>, n: nat)
    requires
        n <= obs.len() <= u64::MAX,
        forall|i: int| 0 <= i < obs.len() ==> up_to((#[trigger] obs[i]).rtt_ms, 300),
    ensures
        fusion::fused(obs, n).len() <= n,
        forall|k: int| 0 <= k < fusion::fused(obs, n).len() ==> moderate(#[trigger] fusion::fused(obs, n)[k], n),
    decreases n,
{
    if n > 0 {
        let m = (n - 1) as nat;
        lemma_fused(obs, m);
        let before = fusion::fused(obs, m);
        let all = fusion::fused(obs, n);
        let o = obs[n - 1];
        bounds::lemma_unit(300, 418);
        bounds::lemma_unit(364, 418);
        lemma_weighted(o);
        fusion::lemma_fused_at(before, fusion::key_of(o.a, o.b), 0);
        assert forall|k: int| 0 <= k < all.len() implies moderate(#[trigger] all[k], n) by {
            if k < before.len() {
                assert(moderate(before[k], m));
                if all[k] != before[k] {
                    lemma_extended(before[k], o, m);
                }
            }
        }
    }
}

proof fn lemma_fused_edges(obs: Seq<MeshEdgeView>)
    requires
        obs.len() <= u64::MAX,
        forall|i: int| 0 <= i < obs.len() ==> up_to((#[trigger] obs[i]).rtt_ms, 300),
    ensures
        fusion::fused_edges(obs).len() <= u64::MAX,
        forall|e: int|
            0 <= e < fusion::fused_edges(obs).len() ==> up_to((#[trigger] fusion::fused_edges(obs)[e]).rtt_ms, 418),
{
    lemma_fused(obs, obs.len());
    let f = fusion::fused(obs, obs.len());
    assert forall|e: int| 0 <= e < fusion::fused_edges(obs).len() implies up_to(
        (#[trigger] fusion::fused_edges(obs)[e]).rtt_ms,
        418,
    ) by {
        assert(moderate(f[e], obs.len()));
    }
}

// ---- paths ----

/// Every RTT to a neighbour is at most `2^418`.
spec fn priced(adj: Seq<Seq<(int, Binary64)>>) -> bool {
    forall|i: int, k: int| 0 <= i < adj.len() && 0 <= k < adj[i].len() ==> up_to((#[trigger] adj[i][k]).1, 418)
}

proof fn lemma_route_cost(adj: Seq<Seq<(int, Binary64)>>, a: int, hops: Seq<int>)
    requires
        paths::closed(adj),
        priced(adj),
        0 <= a < adj.len(),
        dijkstra::route(adj, a, hops),
    ensures
        within(dijkstra::route_cost(adj, a, hops), 472),
        0 <= dijkstra::end_of(adj, a, hops) < adj.len(),
    decreases hops.len(),
{
    order::lemma_constants();
    bounds::lemma_unit(418, 472);
    if hops.len() > 0 {
        let rest = hops.drop_last();
        lemma_route_cost(adj, a, rest);
        let x = dijkstra::end_of(adj, a, rest);
        assert(up_to(adj[x][hops.last()].1, 418));
        bounds::lemma_plus_absorbs(dijkstra::route_cost(adj, a, rest), adj[x][hops.last()].1, 472);
    }
}

proof fn lemma_walk_is_route(adj: Seq<Seq<(int, Binary64)>>, path: Seq<int>) -> (hops: Seq<int>)
    requires
        paths::walk(adj, path),
    ensures
        dijkstra::route(adj, path.first(), hops),
        dijkstra::end_of(adj, path.first(), hops) == path.last(),
    decreases path.len(),
{
    if path.len() == 1 {
        Seq::empty()
    } else {
        let rest = path.drop_last();
        assert forall|i: int| 0 <= i < rest.len() - 1 implies paths::adjacent(adj, #[trigger] rest[i], rest[i + 1]) by {
            assert(paths::adjacent(adj, path[i], path[i + 1]));
        }
        let before = lemma_walk_is_route(adj, rest);
        let x = rest.last();
        let y = path.last();
        assert(path[path.len() - 2] == x);
        assert(paths::adjacent(adj, x, y));
        let k = choose|k: int| 0 <= k < adj[x].len() && (#[trigger] adj[x][k]).0 == y;
        let hops = before.push(k);
        assert(hops.drop_last() =~= before);
        assert(rest.first() == path.first());
        hops
    }
}

// ---- keys ----

/// Ids without a space can be told from the key of their pair.
proof fn lemma_key_splits(a: Seq<char>, b: Seq<char>, x: Seq<char>, y: Seq<char>)
    requires
        !a.contains(' '),
        !b.contains(' '),
        fusion::key_of(a, b) == fusion::key_of(x, y),
    ensures
        a == x && b == y || a == y && b == x,
{
    reveal_strlit(" ");
    let key = fusion::key_of(a, b);
    let (p, q) = if text::lex_less(a, b) { (a, b) } else { (b, a) };
    let (r, s) = if text::lex_less(x, y) { (x, y) } else { (y, x) };
    assert(key == p + " "@ + q && key == r + " "@ + s);
    assert(key.len() == p.len() + 1 + q.len() && key.len() == r.len() + 1 + s.len());
    assert(key[p.len() as int] == ' ');
    assert(key[r.len() as int] == ' ');
    if r.len() < p.len() {
        assert(key[r.len() as int] == p[r.len() as int]);
        assert(p.contains(p[r.len() as int]));
    } else if r.len() > p.len() {
        let k = r.len() - p.len() - 1;
        assert(key[r.len() as int] == q[k]);
        assert(q.contains(q[k]));
    }
    assert(p =~= key.take(p.len() as int));
    assert(r =~= key.take(p.len() as int));
    assert(q =~= key.skip((p.len() + 1) as int));
    assert(s =~= key.skip((p.len() + 1) as int));
}

proof fn lemma_keyed_edge(edges: Seq<MeshEdgeView>, key: Seq<char>, from: int) -> (e: int)
    requires
        0 <= from,
        graph::keyed_rtt(edges, key, from) is Some,
    ensures
        0 <= e < edges.len(),
        fusion::key_of(edges[e].a, edges[e].b) == key,
        graph::keyed_rtt(edges, key, from) == Some(edges[e].rtt_ms),
    decreases edges.len() - from,
{
    if fusion::key_of(edges[from].a, edges[from].b) == key {
        from
    } else {
        lemma_keyed_edge(edges, key, from + 1)
    }
}

// ---- what the law leaves out ----

/// The edge that stands under the key of a pair joins that pair, so that no other pair answers for it.
pub open spec fn told_apart(edges: Seq<MeshEdgeView>, a: Seq<char>, b: Seq<char>) -> bool {
    forall|e: int|
        0 <= e < edges.len() && fusion::key_of((#[trigger] edges[e]).a, edges[e].b) == fusion::key_of(a, b) ==> (
        edges[e].a == a && edges[e].b == b || edges[e].a == b && edges[e].b == a)
}

/// The RTTs of some way from `i` to `j` add up to a finite cost.
pub open spec fn affordable(adj: Seq<Seq<(int, Binary64)>>, i: int, j: int) -> bool {
    exists|hops: Seq<int>|
        #[trigger] dijkstra::route(adj, i, hops) && dijkstra::end_of(adj, i, hops) == j && dijkstra::route_cost(
            adj,
            i,
            hops,
        ).finite()
}

/// The sum of squared differences of the coordinates of two nodes.
pub open spec fn squared_distance(g: GraphView, i: int, j: int) -> Binary64 {
    embedding::squares(g.coords[i], g.coords[j], g.coords[i].len())
}

/// Nothing that a prediction for the pair rests on overflows: not the weighted sum of its measured RTTs,
/// not the sum of RTTs along the way, and, where the pair is not measured, not the squared distance.
pub open spec fn overflow_free(g: GraphView, a: Seq<char>, b: Seq<char>) -> bool {
    &&& g.measured(a, b) matches Some(m) ==> m.finite()
    &&& g.connects(a, b) ==> {
        let i = roster::position(g.nodes, a)->0;
        let j = roster::position(g.nodes, b)->0;
        &&& affordable(g.adjacency(), i, j)
        &&& g.measured(a, b) is None ==> squared_distance(g, i, j).finite()
    }
}

// ---- the law ----

/// What fusing keeps of observations that are not negative.
spec fn not_negative(f: FusedView, n: nat) -> bool {
    &&& Binary64::zero().at_most(f.weighted)
    &&& 1 <= f.samples <= n * 0x1_0000_0000_0000_0000
    &&& Binary64::zero().at_most(f.rtt_ms)
}

/// An observation that is finite and not negative, or relates nothing.
pub open spec fn proper(o: MeshEdgeView) -> bool {
    fusion::relates(o) ==> o.rtt_ms.usable()
}

proof fn lemma_fused_not_negative(obs: Seq<MeshEdgeView>, n: nat)
    requires
        n <= obs.len() <= u64::MAX,
        forall|i: int| 0 <= i < obs.len() ==> proper(#[trigger] obs[i]),
    ensures
        forall|k: int| 0 <= k < fusion::fused(obs, n).len() ==> not_negative(#[trigger] fusion::fused(obs, n)[k], n),
    decreases n,
{
    if n > 0 {
        let m = (n - 1) as nat;
        lemma_fused_not_negative(obs, m);
        let before = fusion::fused(obs, m);
        let all = fusion::fused(obs, n);
        let o = obs[n - 1];
        if fusion::relates(o) {
            assert(proper(obs[n - 1]));
            order::lemma_constants();
            fusion::lemma_fused_at(before, fusion::key_of(o.a, o.b), 0);
            let w = Binary64::fraction(fusion::weight_of(o), 1);
            lemma_wide_within(fusion::weight_of(o));
            order::lemma_times(o.rtt_ms, w);
            let x = o.rtt_ms.times(w);
            assert forall|k: int| 0 <= k < all.len() implies not_negative(#[trigger] all[k], n) by {
                if k < before.len() {
                    assert(not_negative(before[k], m));
                    if all[k] != before[k] {
                        let e = before[k];
                        let f = fusion::extended(e, o);
                        order::lemma_value_sign(e.weighted);
                        order::lemma_finite_bounds(e.weighted);
                        order::lemma_plus_nonnegative(e.weighted, x);
                        lemma_mean_not_negative(f.weighted, f.samples);
                    }
                }
            }
        }
    }
}

proof fn lemma_mean_not_negative(weighted: Binary64, samples: int)
    requires
        Binary64::zero().at_most(weighted),
        1 <= samples <= 0x1_0000_0000_0000_0000 * 0x1_0000_0000_0000_0000,
    ensures
        Binary64::zero().at_most(weighted.over(Binary64::fraction(samples, 1))),
{
    let s = Binary64::fraction(samples, 1);
    order::lemma_constants();
    bounds::lemma_unit(0, 0);
    lemma_many_within(samples);
    order::lemma_value_sign(weighted);
    order::lemma_value_sign(s);
    if weighted.finite() {
        bounds::lemma_over_size(weighted, s);
    } else {
        order::lemma_finite_bounds(weighted);
        reveal(Binary64::over);
        order::lemma_of(false, rounding::INFINITE as int);
        order::lemma_value_sign(weighted.over(s));
    }
}

proof fn lemma_squares_not_negative(a: Seq<Binary64>, b: Seq<Binary64>, n: nat)
    ensures
        !embedding::squares(a, b, n).nan() ==> embedding::squares(a, b, n).value() >= 0,
    decreases n,
{
    order::lemma_constants();
    if n > 0 {
        lemma_squares_not_negative(a, b, (n - 1) as nat);
        let d = a[n - 1].minus(b[n - 1]);
        let s = embedding::squares(a, b, (n - 1) as nat);
        let x = d.times(d);
        if !s.plus(x).nan() {
            assert(!s.nan() && !x.nan()) by {
                reveal(Binary64::plus);
                rounding::lemma_split(0);
                order::lemma_of(false, rounding::QUIET as int);
            }
            assert(!x.negative()) by {
                reveal(Binary64::times);
                if d.finite() {
                    let n = rounding::magnitude(d.payload()) * rounding::magnitude(d.payload());
                    rounding::lemma_split(d.payload());
                    lemma_mul_nonnegative(rounding::magnitude(d.payload()), rounding::magnitude(d.payload()));
                    rounding::lemma_nearest_is(rounding::Exact::Ratio { n, d: binary64::one_unit() });
                    order::lemma_of(false, (rounding::Exact::Ratio { n, d: binary64::one_unit() }).nearest());
                } else {
                    order::lemma_of(false, rounding::INFINITE as int);
                }
            }
            order::lemma_value_sign(x);
            order::lemma_value_sign(s);
            order::lemma_finite_bounds(s);
            order::lemma_plus_nonnegative(s, x);
        }
    }
}

/// A measured pair whose key is its own is connected.
proof fn lemma_measured_connects(
    obs: Seq<MeshEdgeView>,
    rows: Seq<NodeCapacityView>,
    options: GraphOptions,
    a: Seq<char>,
    b: Seq<char>,
)
    requires
        a != b,
        told_apart(graph::graph_of(obs, rows, options).edges, a, b),
        graph::graph_of(obs, rows, options).measured(a, b) is Some,
    ensures
        graph::graph_of(obs, rows, options).connects(a, b),
{
    let g = graph::graph_of(obs, rows, options);
    let e = lemma_keyed_edge(g.edges, fusion::key_of(a, b), 0);
    let f = fusion::fused(obs, obs.len())[e];
    let ids = fusion::observed(obs, obs.len());
    fusion::lemma_well_fused(obs, obs.len());
    graph::lemma_with_rows(ids, rows, rows.len());
    assert(ids.contains(f.a) && ids.contains(f.b));
    assert(g.nodes.contains(a) && g.nodes.contains(b));
    roster::lemma_position(g.nodes, a);
    roster::lemma_position(g.nodes, b);
    let i = roster::position(g.nodes, a)->0;
    let j = roster::position(g.nodes, b)->0;
    let k = topology::lemma_edge_makes_neighbours(g.nodes, g.edges, e, i, j);
    let adj = g.adjacency();
    assert(adj[i][k].0 == j);
    assert(paths::adjacent(adj, i, j));
    paths::lemma_reaches_self(adj, i);
    paths::lemma_reaches_step(adj, i, i, j);
}

/// A path leads exactly between connected nodes, where the way between them has a finite cost.
proof fn lemma_path_connects(
    obs: Seq<MeshEdgeView>,
    rows: Seq<NodeCapacityView>,
    options: GraphOptions,
    a: Seq<char>,
    b: Seq<char>,
)
    requires
        obs.len() <= u64::MAX,
        forall|i: int| 0 <= i < obs.len() ==> proper(#[trigger] obs[i]),
        overflow_free(graph::graph_of(obs, rows, options), a, b),
    ensures
        graph::graph_of(obs, rows, options).connects(a, b) <==> graph::graph_of(obs, rows, options).path(a, b).len()
            > 0,
{
    let g = graph::graph_of(obs, rows, options);
    let adj = g.adjacency();
    topology::lemma_graph_is_sound(obs, rows, options);
    paths::lemma_adjacency_closed(g.nodes, g.edges);
    roster::lemma_position(g.nodes, a);
    roster::lemma_position(g.nodes, b);
    lemma_fused_not_negative(obs, obs.len());
    order::lemma_constants();
    match (roster::position(g.nodes, a), roster::position(g.nodes, b)) {
        (Some(i), Some(j)) => {
            if paths::reaches(adj, i, j) {
                assert(affordable(adj, i, j));
                let hops = choose|hops: Seq<int>|
                    #[trigger] dijkstra::route(adj, i, hops) && dijkstra::end_of(adj, i, hops) == j
                        && dijkstra::route_cost(adj, i, hops).finite();
                assert(dijkstra::nonnegative(adj)) by {
                    assert forall|x: int, k: int| 0 <= x < adj.len() && 0 <= k < adj[x].len() implies Binary64::zero().at_most(
                        (#[trigger] adj[x][k]).1,
                    ) by {
                        let e = topology::lemma_neighbour_of(g.nodes, g.edges, x, k);
                        assert(not_negative(fusion::fused(obs, obs.len())[e], obs.len()));
                    }
                }
                let best = topology::lemma_path_is_least(obs, rows, options, i, j, hops);
            }
            let hops = dijkstra::lemma_shortest_is_route(adj, i, j);
            let way = dijkstra::shortest(adj, i, j);
            if way.len() > 0 {
                dijkstra::lemma_stops(adj, i, hops);
                assert(paths::walk(adj, way));
            }
        },
        _ => {},
    }
}

/// A predicted RTT is finite exactly where a path leads, infinite elsewhere, and zero from a node to
/// itself. Observations are finite and not negative. Left out are pairs for which a sum or a square
/// overflows, and pairs under whose key another pair stands.
pub proof fn lemma_predicted_is_finite_where_a_path_leads(
    obs: Seq<MeshEdgeView>,
    rows: Seq<NodeCapacityView>,
    options: GraphOptions,
    a: Seq<char>,
    b: Seq<char>,
)
    requires
        obs.len() <= u64::MAX,
        forall|i: int| 0 <= i < obs.len() ==> proper(#[trigger] obs[i]),
        overflow_free(graph::graph_of(obs, rows, options), a, b),
        told_apart(graph::graph_of(obs, rows, options).edges, a, b),
    ensures
        ({
            let g = graph::graph_of(obs, rows, options);
            &&& a == b ==> g.predicted(a, b) == Binary64::zero()
            &&& g.predicted(a, b).finite() <==> a == b || g.path(a, b).len() > 0
            &&& !g.predicted(a, b).finite() ==> g.predicted(a, b) == Binary64::infinity()
        }),
{
    let g = graph::graph_of(obs, rows, options);
    order::lemma_constants();
    lemma_path_connects(obs, rows, options, a, b);
    if a != b {
        if g.measured(a, b) is Some {
            lemma_measured_connects(obs, rows, options, a, b);
        } else if g.connects(a, b) {
            let i = roster::position(g.nodes, a)->0;
            let j = roster::position(g.nodes, b)->0;
            lemma_squares_not_negative(g.coords[i], g.coords[j], g.coords[i].len());
            bounds::lemma_root_finite(squared_distance(g, i, j));
        }
    }
}

/// RTTs of at most `2^300` milliseconds never overflow, under the standard layout.
pub proof fn lemma_moderate_rtts_do_not_overflow(
    obs: Seq<MeshEdgeView>,
    rows: Seq<NodeCapacityView>,
    options: GraphOptions,
    a: Seq<char>,
    b: Seq<char>,
)
    requires
        options.embedding.standard(),
        obs.len() <= u64::MAX,
        forall|i: int| 0 <= i < obs.len() ==> up_to((#[trigger] obs[i]).rtt_ms, 300),
    ensures
        overflow_free(graph::graph_of(obs, rows, options), a, b),
{
    let g = graph::graph_of(obs, rows, options);
    let adj = g.adjacency();
    paths::lemma_adjacency_closed(g.nodes, g.edges);
    lemma_fused_edges(obs);
    lemma_layout_contained(g.nodes, g.edges, options.embedding);
    roster::lemma_position(g.nodes, a);
    roster::lemma_position(g.nodes, b);
    order::lemma_constants();
    if a != b && g.measured(a, b) is Some {
        let e = lemma_keyed_edge(g.edges, fusion::key_of(a, b), 0);
        assert(up_to(g.edges[e].rtt_ms, 418));
    }
    assert(priced(adj)) by {
        assert forall|i: int, k: int| 0 <= i < adj.len() && 0 <= k < adj[i].len() implies up_to(
            (#[trigger] adj[i][k]).1,
            418,
        ) by {
            let e = topology::lemma_neighbour_of(g.nodes, g.edges, i, k);
        }
    }
    if g.connects(a, b) {
        let i = roster::position(g.nodes, a)->0;
        let j = roster::position(g.nodes, b)->0;
        let path = choose|path: Seq<int>| #[trigger] paths::walk(adj, path) && path.first() == i && path.last() == j;
        let hops = lemma_walk_is_route(adj, path);
        lemma_route_cost(adj, i, hops);
        assert(affordable(adj, i, j));
        let p = g.coords[i];
        let q = g.coords[j];
        assert forall|k: int| 0 <= k < 2 implies within(#[trigger] p[k], 476) && within(#[trigger] q[k], 476) by {
            assert(within(g.coords[i][k], 476));
            assert(within(g.coords[j][k], 476));
        }
        assert(p.len() == 2 && q.len() == 2);
        lemma_distance(p, q);
    }
}

/// Ids without a space, which is what parts the ids in the key of a pair, are told apart.
pub proof fn lemma_ids_without_spaces_are_told_apart(edges: Seq<MeshEdgeView>, a: Seq<char>, b: Seq<char>)
    requires
        !a.contains(' '),
        !b.contains(' '),
    ensures
        told_apart(edges, a, b),
{
    assert forall|e: int|
        0 <= e < edges.len() && fusion::key_of((#[trigger] edges[e]).a, edges[e].b) == fusion::key_of(a, b) implies (
    edges[e].a == a && edges[e].b == b || edges[e].a == b && edges[e].b == a) by {
        lemma_key_splits(a, b, edges[e].a, edges[e].b);
    }
}

} // verus!
