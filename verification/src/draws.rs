//! What the random draws of a selection decide.

use crate::accuracy::{self, grain};
use crate::api::Selection;
use crate::binary64::{self, Binary64};
use crate::bounds::{self, unit};
use crate::counting::{self, sum_of};
use crate::elementary::Elementary;
use crate::guarantees;
use crate::order;
use crate::prng;
use crate::rounding;
use crate::selection::{self, Setting};
use crate::text;
use vstd::arithmetic::power2::*;
use vstd::prelude::*;

verus! {

// ---- ranking ----

/// A ranking holds what may be picked, each host once with its live score: higher scores first, and among
/// equal ones smaller ids first.
pub proof fn lemma_rankings_are_sorted(set: Setting, chosen: Seq<int>, level: int)
    ensures
        ({
            let ranking = set.ranked(chosen, level);
            &&& forall|i: int, j: int|
                0 <= i < j < ranking.len() ==> (#[trigger] ranking[i]).1.value() >= (#[trigger] ranking[j]).1.value() && (
                ranking[i].1.value() == ranking[j].1.value() ==> !text::lex_less(
                    set.pool[ranking[j].0].node_id,
                    set.pool[ranking[i].0].node_id,
                ))
            &&& forall|k: int|
                0 <= k < ranking.len() ==> 0 <= (#[trigger] ranking[k]).0 < set.pool.len() && set.admits(
                    chosen,
                    level,
                    ranking[k].0,
                ) && ranking[k].1 == set.live_score(chosen, ranking[k].0)
            &&& forall|i: int|
                0 <= i < set.pool.len() && #[trigger] set.admits(chosen, level, i) ==> ranking.contains(
                    (i, set.live_score(chosen, i)),
                )
        }),
{
    let ranking = set.ranked(chosen, level);
    let live = set.live(chosen, level, set.pool.len());
    guarantees::lemma_ranked(set, chosen, level);
    assert forall|i: int, j: int| 0 <= i < j < ranking.len() implies (#[trigger] ranking[i]).1.value() >= (
    #[trigger] ranking[j]).1.value() && (ranking[i].1.value() == ranking[j].1.value() ==> !text::lex_less(
        set.pool[ranking[j].0].node_id,
        set.pool[ranking[i].0].node_id,
    )) by {
        let x = set.pool[ranking[i].0].node_id;
        let y = set.pool[ranking[j].0].node_id;
        assert(set.ranks_before(ranking[i], ranking[j]));
        text::lemma_lex_asymmetric(x, y);
        text::lemma_lex_irreflexive(x);
    }
    assert forall|k: int| 0 <= k < ranking.len() implies 0 <= (#[trigger] ranking[k]).0 < set.pool.len() && set.admits(
        chosen,
        level,
        ranking[k].0,
    ) && ranking[k].1 == set.live_score(chosen, ranking[k].0) by {
        assert(ranking.contains(ranking[k]));
        assert(live.contains(ranking[k]));
        let n = choose|n: int| 0 <= n < live.len() && live[n] == ranking[k];
        guarantees::lemma_live_entry(set, chosen, level, set.pool.len(), n);
    }
    assert forall|i: int| 0 <= i < set.pool.len() && #[trigger] set.admits(chosen, level, i) implies ranking.contains(
        (i, set.live_score(chosen, i)),
    ) by {
        guarantees::lemma_live_complete(set, chosen, level, set.pool.len(), i);
    }
}

// ---- ties ----

/// The hosts that tie with the best of a ranking are those whose score is within the window of it, all of
/// them, in the order of the ranking.
pub proof fn lemma_ties_are_all_within_the_window(ranking: Seq<(int, Binary64)>, window: Binary64, n: nat)
    requires
        n <= ranking.len(),
    ensures
        selection::near_ties(ranking, window, n) == ranking.take(n as int).filter(
            |x: (int, Binary64)| ranking[0].1.minus(x.1).at_most(window),
        ).map_values(|x: (int, Binary64)| x.0),
    decreases n,
{
    let p = |x: (int, Binary64)| ranking[0].1.minus(x.1).at_most(window);
    let f = |x: (int, Binary64)| x.0;
    reveal(Seq::filter);
    let t = ranking.take(n as int);
    if n > 0 {
        lemma_ties_are_all_within_the_window(ranking, window, (n - 1) as nat);
        assert(t.drop_last() =~= ranking.take(n - 1));
        assert(t.last() == ranking[n - 1]);
        let rest = ranking.take(n - 1).filter(p);
        if p(ranking[n - 1]) {
            assert(t.filter(p) == rest.push(ranking[n - 1]));
            assert(rest.push(ranking[n - 1]).map_values(f) =~= rest.map_values(f).push(ranking[n - 1].0));
        }
    }
    assert(selection::near_ties(ranking, window, n) =~= t.filter(p).map_values(f));
}

/// Among `n` hosts that tie, the draw decides evenly: 32 random bits `b` stand for position `b * n / 2^32`.
/// A host that nothing ties with is picked without a draw.
pub proof fn lemma_ties_are_drawn_evenly(set: Setting, ranking: Seq<(int, Binary64)>, rand: u32)
    requires
        ranking.len() > 0,
        set.spec.selection != Some(Selection::Weighted),
    ensures
        ({
            let window = match set.spec.tie_eps {
                Some(e) => if e.finite() { e } else { Binary64::fraction(2, 100) },
                None => Binary64::fraction(2, 100),
            };
            let ties = ranking.filter(|x: (int, Binary64)| ranking[0].1.minus(x.1).at_most(window));
            let n = ties.len();
            let b = prng::scramble(rand.wrapping_add(0x6d2b_79f5)) as int;
            let r = set.pick(ranking, rand);
            &&& n <= 1 ==> r == (ranking[0].0, rand)
            &&& 1 < n < 0x20_0000 ==> {
                &&& 0 <= b * n / 0x1_0000_0000 < n
                &&& r.0 == ties[b * n / 0x1_0000_0000].0
                &&& r.1 == rand.wrapping_add(0x6d2b_79f5)
            }
        }),
{
    let window = selection::tie_window(set.spec);
    let p = |x: (int, Binary64)| ranking[0].1.minus(x.1).at_most(window);
    let f = |x: (int, Binary64)| x.0;
    let ties = ranking.filter(p);
    let n = ties.len() as int;
    lemma_ties_are_all_within_the_window(ranking, window, ranking.len());
    assert(ranking.take(ranking.len() as int) =~= ranking);
    assert(selection::near_ties(ranking, window, ranking.len()) == ties.map_values(f));
    if 1 < n < 0x20_0000 {
        lemma_position_is_even(prng::advance(rand), n);
    }
}

proof fn lemma_position_is_even(s: u32, n: int)
    requires
        1 < n < 0x20_0000,
    ensures
        ({
            let k = prng::scramble(s) * n / 0x1_0000_0000;
            &&& 0 <= k < n
            &&& prng::drawn(s).times(Binary64::fraction(n, 1)).floor() == k
        }),
{
    let t = prng::scramble(s) as int;
    let u = binary64::one_unit();
    let v = pow2(1042) as int;
    let d = prng::drawn(s);
    let l = Binary64::fraction(n, 1);
    order::lemma_constants();
    prng::lemma_drawn_in_unit(s);
    order::lemma_whole_number(n);
    lemma2_to64();
    lemma_pow2_adds(32, 1042);
    lemma_pow2_pos(1042);
    assert(0 <= t * n < 0x20_0000_0000_0000) by (nonlinear_arith)
        requires
            0 <= t < 0x1_0000_0000,
            0 < n < 0x20_0000,
    ;
    let q = rounding::lemma_representable(t * n, 1042);
    let exact = Binary64::of(false, q);
    order::lemma_of(false, q);
    assert(d.value() >= 0 && n * u >= 0) by (nonlinear_arith)
        requires
            d.value() == t * v,
            t >= 0,
            v > 0,
            n >= 0,
            u > 0,
    ;
    order::lemma_times(d, l);
    assert((t * v) * (n * u) == ((t * n) * v) * u) by (nonlinear_arith);
    order::lemma_value_sign(exact);
    assert(exact.value() == (t * n) * v);
    order::lemma_rounded_exact(exact, u);
    let x = d.times(l).value();
    assert(x == (t * n) * v);
    let k = t * n / 0x1_0000_0000;
    assert(x / u == k) by (nonlinear_arith)
        requires
            x == (t * n) * v,
            u == 0x1_0000_0000 * v,
            v > 0,
            k == t * n / 0x1_0000_0000,
            t * n >= 0,
    ;
    assert(0 <= k < n) by (nonlinear_arith)
        requires
            k == t * n / 0x1_0000_0000,
            0 <= t < 0x1_0000_0000,
            n > 0,
    ;
}

// ---- weighted draws ----

spec fn worth() -> spec_fn(Binary64) -> int {
    |w: Binary64| w.value()
}

spec fn small(weights: Seq<Binary64>) -> bool {
    forall|j: int|
        0 <= j < weights.len() ==> (#[trigger] weights[j]).finite() && 0 <= weights[j].value() <= binary64::one_unit()
}

proof fn lemma_total_weight(weights: Seq<Binary64>)
    requires
        weights.len() <= 1024,
        small(weights),
    ensures
        ({
            let total = selection::total_weight(weights);
            let t = sum_of(weights, worth());
            let n = weights.len() as int;
            &&& total.finite()
            &&& 0 <= t <= n * binary64::one_unit()
            &&& 0 <= total.value() <= 2 * t
            &&& -(2 * (n * t)) <= (total.value() - t) * 0x20_0000_0000_0000 <= 2 * (n * t)
        }),
    decreases weights.len(),
{
    let u = binary64::one_unit();
    order::lemma_constants();
    counting::lemma_sum_last(weights, worth());
    if weights.len() > 0 {
        let rest = weights.drop_last();
        let x = weights.last();
        let n = rest.len() as int;
        assert forall|j: int| 0 <= j < rest.len() implies (#[trigger] rest[j]).finite() && 0 <= rest[j].value() <= u by {
            assert(rest[j] == weights[j]);
        }
        assert(weights[n] == x);
        lemma_total_weight(rest);
        let t = sum_of(rest, worth());
        assert((n + 1) * u == n * u + u) by (nonlinear_arith);
        bounds::lemma_unit(10, 900);
        lemma_units();
        assert((n + 1) * u <= 1024 * u) by (nonlinear_arith)
            requires
                n + 1 <= 1024,
                u > 0,
        ;
        accuracy::lemma_running_sum(selection::total_weight(rest), x, t, n);
    }
}

proof fn lemma_units()
    ensures
        unit(10) == 1024 * binary64::one_unit(),
        unit(11) == 2048 * binary64::one_unit(),
        unit(-42) * 0x400_0000_0000 == binary64::one_unit(),
        unit(-42) == 2048 * grain(),
        unit(-42) > 0,
{
    accuracy::lemma_grain();
    lemma2_to64();
    lemma2_to64_rest();
    lemma_pow2_adds(10, 1074);
    lemma_pow2_adds(11, 1074);
    lemma_pow2_adds(42, 1032);
    lemma_pow2_adds(11, 1021);
    lemma_pow2_pos(1032);
}

proof fn lemma_used_up_from(weights: Seq<Binary64>, x: int, r: Binary64, i: int)
    requires
        0 < weights.len() <= 1024,
        small(weights),
        0 <= i <= weights.len(),
        0 <= x <= unit(11),
        r.finite(),
        0 <= r.value() <= unit(11),
        ({
            let y = x - sum_of(weights.take(i), worth());
            -(i * unit(-42)) <= r.value() - y <= i * unit(-42)
        }),
    ensures
        ({
            let k = selection::used_up(weights, r, i);
            let slack = weights.len() * unit(-42);
            &&& 0 <= k < weights.len()
            &&& sum_of(weights.take(k), worth()) <= x + slack
            &&& k == weights.len() - 1 || x <= sum_of(weights.take(k + 1), worth()) + slack
        }),
    decreases weights.len() - i,
{
    let n = weights.len() as int;
    let h = unit(-42);
    lemma_units();
    order::lemma_constants();
    let done = sum_of(weights.take(i), worth());
    assert(i * h <= n * h) by (nonlinear_arith)
        requires
            i <= n,
            h > 0,
    ;
    if i >= n {
        lemma_take_next(weights, n - 1);
        assert(weights[n - 1].value() >= 0);
    } else {
        let w = weights[i];
        let y = r.minus(w);
        lemma_take_next(weights, i);
        accuracy::lemma_minus_close(r, w, 11);
        assert((i + 1) * h == i * h + h) by (nonlinear_arith);
        assert((i + 1) * h <= n * h) by (nonlinear_arith)
            requires
                i + 1 <= n,
                h > 0,
        ;
        if !y.at_most(Binary64::zero()) {
            lemma_used_up_from(weights, x, y, i + 1);
        }
    }
}

proof fn lemma_take_next(weights: Seq<Binary64>, i: int)
    requires
        0 <= i < weights.len(),
    ensures
        sum_of(weights.take(i + 1), worth()) == sum_of(weights.take(i), worth()) + weights[i].value(),
{
    let t = weights.take(i + 1);
    assert(t.drop_last() =~= weights.take(i));
    counting::lemma_sum_last(t, worth());
}

/// A weighted draw picks in proportion: 32 random bits `b` stand for the part `b / 2^32` of the whole
/// weight, and the position is the one whose stretch of the weight, laid end to end in order, that part
/// falls into, within one part in 2^30 of one. Without any weight it is the first, without a draw.
pub proof fn lemma_weights_are_drawn_in_proportion(weights: Seq<Binary64>, rand: u32)
    requires
        0 < weights.len() <= 1024,
        forall|j: int|
            0 <= j < weights.len() ==> (#[trigger] weights[j]).finite() && 0 <= weights[j].value()
                <= binary64::one_unit(),
    ensures
        ({
            let u = binary64::one_unit();
            let value = |w: Binary64| w.value();
            let total = sum_of(weights, value);
            let b = prng::scramble(rand.wrapping_add(0x6d2b_79f5)) as int;
            let (i, state) = selection::sampled(weights, rand);
            &&& total == 0 ==> i == 0 && state == rand
            &&& total > 0 ==> {
                &&& 0 <= i < weights.len()
                &&& state == rand.wrapping_add(0x6d2b_79f5)
                &&& sum_of(weights.take(i), value) * 0x1_0000_0000 <= b * total + 4 * u
                &&& i == weights.len() - 1 || b * total <= sum_of(weights.take(i + 1), value) * 0x1_0000_0000 + 4 * u
            }
        }),
{
    let u = binary64::one_unit();
    let n = weights.len() as int;
    let value = |w: Binary64| w.value();
    assert(value =~= worth());
    let t = sum_of(weights, value);
    let total = selection::total_weight(weights);
    order::lemma_constants();
    lemma_units();
    accuracy::lemma_grain();
    lemma_total_weight(weights);
    assert(n * u <= 1024 * u) by (nonlinear_arith)
        requires
            n <= 1024,
            u > 0,
    ;
    assert(0 <= n * t <= 0x10_0000 * u) by (nonlinear_arith)
        requires
            0 <= n <= 1024,
            0 <= t <= 1024 * u,
    ;
    if t > 0 {
        assert(n * t <= 1024 * t) by (nonlinear_arith)
            requires
                n <= 1024,
                t > 0,
        ;
        assert(total.value() > 0);
        let s = prng::advance(rand);
        let b = prng::scramble(s) as int;
        let d = prng::drawn(s);
        prng::lemma_drawn_in_unit(s);
        lemma2_to64();
        lemma_pow2_adds(32, 1042);
        let v = pow2(1042) as int;
        let x = d.times(total);
        assert(d.value() * total.value() <= (2048 * u) * u) by (nonlinear_arith)
            requires
                0 <= d.value() < u,
                0 <= total.value() <= 2048 * u,
        ;
        accuracy::lemma_times_close(d, total, 11);
        let h = unit(-42);
        // the draw against the exact part
        let e = x.value() * u - d.value() * total.value();
        assert(-(0x1_0000_0000 * h) <= x.value() * 0x1_0000_0000 - b * total.value() <= 0x1_0000_0000 * h) by {
            let z = x.value() * 0x1_0000_0000 - b * total.value();
            assert(e == z * v) by (nonlinear_arith)
                requires
                    e == x.value() * u - d.value() * total.value(),
                    z == x.value() * 0x1_0000_0000 - b * total.value(),
                    u == 0x1_0000_0000 * v,
                    d.value() == b * v,
            ;
            lemma_pow2_pos(1042);
            assert(-(0x1_0000_0000 * h) <= z <= 0x1_0000_0000 * h) by (nonlinear_arith)
                requires
                    -(h * u) <= z * v <= h * u,
                    u == 0x1_0000_0000 * v,
                    v > 0,
            ;
        }
        let f = total.value() - t;
        assert(-(0x20_0000 * u) <= f * 0x20_0000_0000_0000 <= 0x20_0000 * u);
        assert(-u <= b * f <= u) by {
            assert(-(0x20_0000 * grain()) <= f <= 0x20_0000 * grain());
            assert(-(0x1_0000_0000 * (0x20_0000 * grain())) <= b * f <= 0x1_0000_0000 * (0x20_0000 * grain()))
                by (nonlinear_arith)
                requires
                    -(0x20_0000 * grain()) <= f <= 0x20_0000 * grain(),
                    0 <= b < 0x1_0000_0000,
                    grain() > 0,
            ;
        }
        assert(b * f == b * total.value() - b * t) by (nonlinear_arith)
            requires
                f == total.value() - t,
        ;
        assert(weights.take(0) =~= Seq::empty());
        counting::lemma_sum_last(weights.take(0), worth());
        lemma_used_up_from(weights, x.value(), x, 0);
        assert(n * h <= 1024 * h) by (nonlinear_arith)
            requires
                n <= 1024,
                h > 0,
        ;
    } else {
        assert(total.value() == 0);
    }
}

proof fn lemma_top_score(ranking: Seq<(int, Binary64)>)
    requires
        ranking.len() > 0,
        forall|k: int| 0 <= k < ranking.len() ==> (#[trigger] ranking[k]).1.finite(),
    ensures
        exists|k: int| 0 <= k < ranking.len() && (#[trigger] ranking[k]).1 == selection::top_score(ranking),
        forall|k: int|
            0 <= k < ranking.len() ==> (#[trigger] ranking[k]).1.value() <= selection::top_score(ranking).value(),
    decreases ranking.len(),
{
    order::lemma_constants();
    let n = ranking.len() - 1;
    let rest = ranking.drop_last();
    let last = ranking[n].1;
    let top = selection::top_score(rest);
    order::lemma_finite_bounds(last);
    order::lemma_finite_bounds(Binary64::negative_infinity());
    if rest.len() == 0 {
        reveal_with_fuel(selection::top_score, 2);
        assert(top == Binary64::negative_infinity());
        assert(ranking[n].1 == selection::top_score(ranking));
    } else {
        assert forall|k: int| 0 <= k < rest.len() implies (#[trigger] rest[k]).1.finite() by {
            assert(rest[k] == ranking[k]);
        }
        lemma_top_score(rest);
        let k = choose|k: int| 0 <= k < rest.len() && (#[trigger] rest[k]).1 == top;
        assert(ranking[k] == rest[k]);
        assert(ranking[n].1 == last);
        assert forall|j: int| 0 <= j < ranking.len() implies (#[trigger] ranking[j]).1.value() <= selection::top_score(
            ranking,
        ).value() by {
            if j < n {
                assert(rest[j] == ranking[j]);
            }
        }
    }
}

proof fn lemma_exponent(s: Binary64, top: Binary64, t: Binary64)
    requires
        s.finite(),
        top.finite(),
        -(4 * binary64::one_unit()) <= s.value() <= top.value() <= 4 * binary64::one_unit(),
        t.finite(),
        binary64::one_unit() <= 1024 * t.value(),
    ensures
        ({
            let u = binary64::one_unit();
            let a = s.minus(top).over(t);
            let slack = u * t.value() + u * u;
            &&& a.finite()
            &&& a.value() <= 0
            &&& -slack <= (a.value() * t.value() - (s.value() - top.value()) * u) * 0x100_0000_0000 <= slack
        }),
{
    let u = binary64::one_unit();
    let g = grain();
    let k = t.value();
    order::lemma_constants();
    accuracy::lemma_grain();
    lemma2_to64();
    lemma2_to64_rest();
    lemma_pow2_adds(13, 1074);
    lemma_pow2_adds(13, 1021);
    accuracy::lemma_minus_close(s, top, 3);
    let x = s.minus(top);
    order::lemma_negated(top);
    order::lemma_plus(s, top.negated());
    order::lemma_rounded_exact(Binary64::zero(), 1);
    order::lemma_rounded_grows(s.value() - top.value(), 1, 0, 1);
    bounds::lemma_over_size(x, t);
    let z = -x.value();
    assert(z * u <= unit(13) * k) by (nonlinear_arith)
        requires
            0 <= z <= 8 * u,
            u <= 1024 * k,
            unit(13) == 8192 * u,
            u > 0,
    ;
    let y = x.negated();
    order::lemma_negated(x);
    accuracy::lemma_over_close(y, t, 13);
    bounds::lemma_over_size(y, t);
    let a = x.over(t);
    assert(a.value() == -y.over(t).value());
    bounds::lemma_stays_finite(a, 13);
    let h = g * k;
    assert(unit(-40) == 8192 * g);
    assert(-(8192 * h) <= y.over(t).value() * k - z * u <= 8192 * h) by (nonlinear_arith)
        requires
            -(8192 * g * k) <= y.over(t).value() * k - z * u <= 8192 * g * k,
            h == g * k,
    ;
    assert(a.value() * k == -(y.over(t).value() * k)) by (nonlinear_arith)
        requires
            a.value() == -y.over(t).value(),
    ;
    let e = x.value() - (s.value() - top.value());
    let gu = g * u;
    assert(-(8 * gu) <= e * u <= 8 * gu) by (nonlinear_arith)
        requires
            -(8 * g) <= e <= 8 * g,
            gu == g * u,
            u > 0,
    ;
    assert(e * u == x.value() * u - (s.value() - top.value()) * u) by (nonlinear_arith)
        requires
            e == x.value() - (s.value() - top.value()),
    ;
    assert(z * u == -(x.value() * u)) by (nonlinear_arith)
        requires
            z == -x.value(),
    ;
    assert(u * k == 0x20_0000_0000_0000 * h && u * u == 0x20_0000_0000_0000 * gu && h >= 0 && gu >= 0)
        by (nonlinear_arith)
        requires
            u == 0x20_0000_0000_0000 * g,
            h == g * k,
            gu == g * u,
            g > 0,
            k >= 0,
            u > 0,
    ;
}

/// A weighted selection draws among all that may be picked, each with the weight `exp((s - top) / t)` for
/// its live score `s`, the highest one `top` and the temperature `t` that the job names, 0.15 where it
/// names none that is positive. The exponent is exact to within `1 + 1/t` parts in 2^40.
pub proof fn lemma_weighted_picks(set: Setting, ranking: Seq<(int, Binary64)>, rand: u32, t: Binary64)
    requires
        ranking.len() > 0,
        set.spec.selection == Some(Selection::Weighted),
        match set.spec.temperature {
            Some(v) => if v.finite() && v.value() > 0 { t == v } else { t == Binary64::fraction(15, 100) },
            None => t == Binary64::fraction(15, 100),
        },
        t.finite(),
        binary64::one_unit() <= 1024 * t.value(),
        forall|k: int|
            0 <= k < ranking.len() ==> (#[trigger] ranking[k]).1.finite() && -(4 * binary64::one_unit())
                <= ranking[k].1.value() <= 4 * binary64::one_unit(),
    ensures
        ({
            let u = binary64::one_unit();
            let weights = selection::softmax_weights(ranking, set.spec, set.m);
            let (i, state) = selection::sampled(weights, rand);
            let slack = u * t.value() + u * u;
            &&& weights.len() == ranking.len()
            &&& set.pick(ranking, rand) == (ranking[i].0, state)
            &&& exists|top: int|
                {
                    &&& 0 <= top < ranking.len()
                    &&& forall|k: int|
                        0 <= k < ranking.len() ==> (#[trigger] ranking[k]).1.value() <= (#[trigger] ranking[top]).1.value()
                            && exists|a: Binary64|
                            {
                                let exact = (ranking[k].1.value() - ranking[top].1.value()) * u;
                                &&& weights[k] == #[trigger] (set.m)(Elementary::Exp, a)
                                &&& a.finite()
                                &&& -slack <= (a.value() * t.value() - exact) * 0x100_0000_0000 <= slack
                            }
                }
        }),
{
    let u = binary64::one_unit();
    let weights = selection::softmax_weights(ranking, set.spec, set.m);
    let slack = u * t.value() + u * u;
    order::lemma_constants();
    lemma_top_score(ranking);
    let best = selection::top_score(ranking);
    let top = choose|k: int| 0 <= k < ranking.len() && (#[trigger] ranking[k]).1 == best;
    assert(selection::temperature(set.spec) == t);
    assert forall|k: int| 0 <= k < ranking.len() implies (#[trigger] ranking[k]).1.value() <= (
    #[trigger] ranking[top]).1.value() && exists|a: Binary64|
        {
            let exact = (ranking[k].1.value() - ranking[top].1.value()) * u;
            &&& weights[k] == #[trigger] (set.m)(Elementary::Exp, a)
            &&& a.finite()
            &&& -slack <= (a.value() * t.value() - exact) * 0x100_0000_0000 <= slack
        } by {
        let a = ranking[k].1.minus(best).over(t);
        assert(ranking[top].1.finite());
        lemma_exponent(ranking[k].1, best, t);
        assert(weights[k] == (set.m)(Elementary::Exp, a));
    }
}

} // verus!
