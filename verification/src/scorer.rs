//! Per-candidate scoring.
//!
//! Turns a candidate and a job into a score in `[0, 1]` from four blended axes: latency, benchmark
//! fit, trust and price. The diversity penalty is not here: it depends on what is already chosen.
//! Money is compared as integers; the only non-integer made from it is a ranking ratio.

use crate::api::{
    Demand, DemandAxis, GpuInfo, GpuInfoView, JobSpec, JobSpecView, NodeProfile,
    NodeProfileView, Objective, Weights,
};
use crate::binary64::Binary64;
use crate::candidate::{Candidate, CandidateView};
use crate::elementary::{self, Elementary};
use crate::latency::{self, LatencyModel, LatencyView};
use crate::text;
use vstd::prelude::*;

verus! {

/// Clamps a number to `[0, 1]`. A NaN becomes zero.
pub fn clamp01(x: Binary64) -> (r: Binary64)
    ensures
        r == x.clamped(),
{
    let zero = Binary64 { bits: 0 };
    let one = Binary64 { bits: 0x3ff0_0000_0000_0000 };
    if x.is_nan() || x.lt(zero) {
        zero
    } else if one.lt(x) {
        one
    } else {
        x
    }
}

pub(crate) fn is_usable(x: Binary64) -> (r: bool)
    ensures
        r == x.usable(),
{
    x.is_finite() && (Binary64 { bits: 0 }).le(x)
}

pub(crate) fn is_positive(x: Binary64) -> (r: bool)
    ensures
        r == x.positive(),
{
    x.is_finite() && (Binary64 { bits: 0 }).lt(x)
}

/// A finite non-negative `x`, else the fallback.
pub open spec fn usable_or(x: Option<Binary64>, fallback: Binary64) -> Binary64 {
    match x {
        Some(v) => if v.usable() { v } else { fallback },
        None => fallback,
    }
}

pub(crate) fn num_or(x: Option<Binary64>, fallback: Binary64) -> (r: Binary64)
    ensures
        r == usable_or(x, fallback),
{
    match x {
        Some(v) => if is_usable(v) { v } else { fallback },
        None => fallback,
    }
}

/// A finite positive `x`, else the fallback.
pub open spec fn positive_or(x: Option<Binary64>, fallback: Binary64) -> Binary64 {
    match x {
        Some(v) => if v.positive() { v } else { fallback },
        None => fallback,
    }
}

pub(crate) fn pos_or(x: Option<Binary64>, fallback: Binary64) -> (r: Binary64)
    ensures
        r == positive_or(x, fallback),
{
    match x {
        Some(v) => if is_positive(v) { v } else { fallback },
        None => fallback,
    }
}

/// An amount of base units; zero for a text that is no amount.
pub open spec fn amount(s: Seq<char>) -> int {
    match text::numeral(text::trimmed(s)) {
        Some(v) => v,
        None => 0,
    }
}

/// Parses an amount of base units; zero for a text that is no amount.
pub fn to_big(x: &str) -> (r: i128)
    ensures
        r == amount(x@),
{
    match text::parse_i128(text::trim(x).as_str()) {
        Some(v) => v,
        None => 0,
    }
}

// ---- weights ----

/// An override where it is usable, else the default.
pub open spec fn picked(over: Binary64, default: Binary64) -> Binary64 {
    if over.usable() {
        over
    } else {
        default
    }
}

/// The blend before normalization.
pub open spec fn raw_weights(spec: JobSpecView) -> Weights {
    let base = Weights::defaults(
        match spec.objective {
            Some(o) => o,
            None => Objective::Balanced,
        },
    );
    match spec.weights {
        Some(o) => Weights {
            w_l: picked(o.w_l, base.w_l),
            w_b: picked(o.w_b, base.w_b),
            w_t: picked(o.w_t, base.w_t),
            w_p: picked(o.w_p, base.w_p),
            w_d: picked(o.w_d, base.w_d),
        },
        None => base,
    }
}

/// The blend with its four convex axes divided by their sum, or split equally where that sum is
/// not positive. The penalty coefficient is as it was.
pub open spec fn normalized(w: Weights) -> Weights {
    let sum = w.w_l.plus(w.w_b).plus(w.w_t).plus(w.w_p);
    if Binary64::zero().less(sum) {
        Weights {
            w_l: w.w_l.over(sum),
            w_b: w.w_b.over(sum),
            w_t: w.w_t.over(sum),
            w_p: w.w_p.over(sum),
            w_d: w.w_d,
        }
    } else {
        let quarter = Binary64::fraction(1, 4);
        Weights { w_l: quarter, w_b: quarter, w_t: quarter, w_p: quarter, w_d: w.w_d }
    }
}

fn pick(over: Binary64, default: Binary64) -> (r: Binary64)
    ensures
        r == picked(over, default),
{
    if is_usable(over) {
        over
    } else {
        default
    }
}

/// Resolves the blend weights for a job: the objective's defaults, any usable override per axis,
/// the four convex axes normalized, `w_d` verbatim.
pub fn resolve_weights(spec: &JobSpec) -> (r: Weights)
    ensures
        r == normalized(raw_weights(spec@)),
{
    let objective: Objective = match spec.objective {
        Some(o) => o,
        None => Objective::Balanced,
    };
    let base = Weights::for_objective(objective);
    let w = match spec.weights {
        Some(o) => Weights {
            w_l: pick(o.w_l, base.w_l),
            w_b: pick(o.w_b, base.w_b),
            w_t: pick(o.w_t, base.w_t),
            w_p: pick(o.w_p, base.w_p),
            w_d: pick(o.w_d, base.w_d),
        },
        None => base,
    };
    let sum = w.w_l.add(w.w_b).add(w.w_t).add(w.w_p);
    if (Binary64 { bits: 0 }).lt(sum) {
        Weights { w_l: w.w_l.div(sum), w_b: w.w_b.div(sum), w_t: w.w_t.div(sum), w_p: w.w_p.div(sum), w_d: w.w_d }
    } else {
        let quarter = Binary64::ratio(1, 4);
        Weights { w_l: quarter, w_b: quarter, w_t: quarter, w_p: quarter, w_d: w.w_d }
    }
}

// ---- latency ----

/// The RTT from the payer: the one that the candidate carries, else a measured sample, else the
/// prediction, else infinity.
pub open spec fn rtt_of(c: CandidateView, spec: JobSpecView, graph: Option<LatencyModel>) -> Binary64 {
    if c.rtt_ms.finite() {
        c.rtt_ms
    } else {
        match (graph, spec.payer) {
            (Some(g), Some(payer)) => if payer.len() == 0 {
                Binary64::infinity()
            } else {
                match (g.measured)(payer, c.node_id) {
                    Some(m) => if m.finite() { m } else { (g.predicted)(payer, c.node_id) },
                    None => (g.predicted)(payer, c.node_id),
                }
            },
            _ => Binary64::infinity(),
        }
    }
}

/// `1 - rtt / cap`, clamped; zero without a positive cap or without a finite RTT.
pub open spec fn latency_fit(c: CandidateView, spec: JobSpecView, graph: Option<LatencyModel>) -> Binary64 {
    let cap = usable_or(spec.rtt_soft_cap_ms, Binary64::fraction(250, 1));
    let rtt = rtt_of(c, spec, graph);
    if Binary64::zero().less(cap) && rtt.finite() {
        Binary64::one().minus(rtt.over(cap)).clamped()
    } else {
        Binary64::zero()
    }
}

fn resolve_rtt<G: LatencyView>(candidate: &Candidate, spec: &JobSpec, graph: Option<&G>) -> (r: Binary64)
    ensures
        r == rtt_of(candidate@, spec@, latency::model_of(graph)),
{
    if candidate.rtt_ms.is_finite() {
        return candidate.rtt_ms;
    }
    let infinity = Binary64 { bits: 0x7ff0_0000_0000_0000 };
    match (graph, &spec.payer) {
        (Some(g), Some(payer)) => {
            if payer.as_str().is_empty() {
                return infinity;
            }
            match g.measured_rtt(payer.as_str(), candidate.node_id.as_str()) {
                Some(m) => {
                    if m.is_finite() {
                        m
                    } else {
                        g.predicted_rtt(payer.as_str(), candidate.node_id.as_str())
                    }
                },
                None => g.predicted_rtt(payer.as_str(), candidate.node_id.as_str()),
            }
        },
        _ => infinity,
    }
}

/// Latency score in `[0, 1]`: closer to the payer is better. Beyond `rtt_soft_cap_ms` it is zero,
/// and so is that of an unreachable host.
pub fn latency_score<G: LatencyView>(candidate: &Candidate, spec: &JobSpec, graph: Option<&G>) -> (r: Binary64)
    ensures
        r == latency_fit(candidate@, spec@, latency::model_of(graph)),
{
    let cap = num_or(spec.rtt_soft_cap_ms, Binary64::from_u64(250));
    if !(Binary64 { bits: 0 }).lt(cap) {
        return Binary64 { bits: 0 };
    }
    let rtt = resolve_rtt(candidate, spec, graph);
    if !rtt.is_finite() {
        return Binary64 { bits: 0 };
    }
    clamp01((Binary64 { bits: 0x3ff0_0000_0000_0000 }).sub(rtt.div(cap)))
}

// ---- benchmark fit ----

/// The seven benchmark axes, in the order of [`Demand`]'s fields.
#[derive(Debug, Clone, Copy, PartialEq, Eq, Structural)]
pub enum ProfileAxis {
    Gflops,
    MemBwGbps,
    VramMb,
    Fp16Tflops,
    TokensPerSec,
    DiskReadMbps,
    DiskWriteMbps,
}

pub open spec fn finite_or_zero(x: Binary64) -> Binary64 {
    if x.finite() {
        x
    } else {
        Binary64::zero()
    }
}

pub(crate) fn num(x: Binary64) -> (r: Binary64)
    ensures
        r == finite_or_zero(x),
{
    if x.is_finite() {
        x
    } else {
        Binary64 { bits: 0 }
    }
}

/// The largest VRAM among accelerators, at least zero.
pub open spec fn most_vram(gpus: Seq<GpuInfoView>) -> Binary64
    decreases gpus.len(),
{
    if gpus.len() == 0 {
        Binary64::zero()
    } else {
        most_vram(gpus.drop_last()).greater_of(finite_or_zero(gpus.last().vram_mb))
    }
}

/// The fp16 throughput of all accelerators.
pub open spec fn total_tflops(gpus: Seq<GpuInfoView>) -> Binary64
    decreases gpus.len(),
{
    if gpus.len() == 0 {
        Binary64::zero()
    } else {
        total_tflops(gpus.drop_last()).plus(finite_or_zero(gpus.last().fp16_tflops))
    }
}

/// One axis of a measured profile.
pub open spec fn measured_axis(axis: ProfileAxis, p: NodeProfileView) -> Binary64 {
    match axis {
        ProfileAxis::Gflops => finite_or_zero(p.cpu.gflops_fp32),
        ProfileAxis::MemBwGbps => finite_or_zero(p.cpu.mem_bw_gbps),
        ProfileAxis::VramMb => most_vram(p.gpus),
        ProfileAxis::Fp16Tflops => total_tflops(p.gpus),
        ProfileAxis::TokensPerSec => finite_or_zero(p.llm.tokens_per_sec),
        ProfileAxis::DiskReadMbps => finite_or_zero(p.storage.read_mbps),
        ProfileAxis::DiskWriteMbps => finite_or_zero(p.storage.write_mbps),
    }
}

pub(crate) fn max_vram(gpus: &Vec<GpuInfo>) -> (r: Binary64)
    ensures
        r == most_vram(gpus@.map_values(|x: GpuInfo| x@)),
{
    let ghost all = gpus@.map_values(|x: GpuInfo| x@);
    let mut r = Binary64 { bits: 0 };
    for i in 0..gpus.len()
        invariant
            all == gpus@.map_values(|x: GpuInfo| x@),
            r == most_vram(all.take(i as int)),
    {
        proof {
            assert(all.take(i + 1).drop_last() =~= all.take(i as int));
        }
        r = r.max(num(gpus[i].vram_mb));
    }
    proof {
        assert(all.take(gpus.len() as int) =~= all);
    }
    r
}

fn sum_tflops(gpus: &Vec<GpuInfo>) -> (r: Binary64)
    ensures
        r == total_tflops(gpus@.map_values(|x: GpuInfo| x@)),
{
    let ghost all = gpus@.map_values(|x: GpuInfo| x@);
    let mut r = Binary64 { bits: 0 };
    for i in 0..gpus.len()
        invariant
            all == gpus@.map_values(|x: GpuInfo| x@),
            r == total_tflops(all.take(i as int)),
    {
        proof {
            assert(all.take(i + 1).drop_last() =~= all.take(i as int));
        }
        r = r.add(num(gpus[i].fp16_tflops));
    }
    proof {
        assert(all.take(gpus.len() as int) =~= all);
    }
    r
}

/// Reads one axis of a measured profile.
fn profile_axis(axis: ProfileAxis, p: &NodeProfile) -> (r: Binary64)
    ensures
        r == measured_axis(axis, p@),
{
    match axis {
        ProfileAxis::Gflops => num(p.cpu.gflops_fp32),
        ProfileAxis::MemBwGbps => num(p.cpu.mem_bw_gbps),
        ProfileAxis::VramMb => max_vram(&p.gpus),
        ProfileAxis::Fp16Tflops => sum_tflops(&p.gpus),
        ProfileAxis::TokensPerSec => num(p.llm.tokens_per_sec),
        ProfileAxis::DiskReadMbps => num(p.storage.read_mbps),
        ProfileAxis::DiskWriteMbps => num(p.storage.write_mbps),
    }
}

/// An axis that was asked for: declared, with a positive weight.
pub open spec fn asked(axis: ProfileAxis, d: Option<DemandAxis>) -> Seq<(ProfileAxis, DemandAxis)> {
    match d {
        Some(a) => if Binary64::zero().less(a.weight) { seq![(axis, a)] } else { seq![] },
        None => seq![],
    }
}

/// The axes that were asked for, in field order.
pub open spec fn asked_axes(demand: Option<Demand>) -> Seq<(ProfileAxis, DemandAxis)> {
    match demand {
        Some(d) => asked(ProfileAxis::Gflops, d.gflops) + asked(ProfileAxis::MemBwGbps, d.mem_bw_gbps) + asked(
            ProfileAxis::VramMb,
            d.vram_mb,
        ) + asked(ProfileAxis::Fp16Tflops, d.fp16_tflops) + asked(ProfileAxis::TokensPerSec, d.tokens_per_sec) + asked(
            ProfileAxis::DiskReadMbps,
            d.disk_read_mbps,
        ) + asked(ProfileAxis::DiskWriteMbps, d.disk_write_mbps),
        None => seq![],
    }
}

fn push_asked(axes: &mut Vec<(ProfileAxis, DemandAxis)>, axis: ProfileAxis, d: Option<DemandAxis>)
    ensures
        final(axes)@ == old(axes)@ + asked(axis, d),
{
    match d {
        Some(a) => {
            if (Binary64 { bits: 0 }).lt(a.weight) {
                axes.push((axis, a));
            }
        },
        None => {},
    }
    proof {
        assert(axes@ =~= old(axes)@ + asked(axis, d));
    }
}

/// The demand axes that were asked for, in field order.
fn demand_axes(demand: &Option<Demand>) -> (r: Vec<(ProfileAxis, DemandAxis)>)
    ensures
        r@ == asked_axes(*demand),
{
    let mut axes: Vec<(ProfileAxis, DemandAxis)> = Vec::new();
    match demand {
        Some(d) => {
            push_asked(&mut axes, ProfileAxis::Gflops, d.gflops);
            push_asked(&mut axes, ProfileAxis::MemBwGbps, d.mem_bw_gbps);
            push_asked(&mut axes, ProfileAxis::VramMb, d.vram_mb);
            push_asked(&mut axes, ProfileAxis::Fp16Tflops, d.fp16_tflops);
            push_asked(&mut axes, ProfileAxis::TokensPerSec, d.tokens_per_sec);
            push_asked(&mut axes, ProfileAxis::DiskReadMbps, d.disk_read_mbps);
            push_asked(&mut axes, ProfileAxis::DiskWriteMbps, d.disk_write_mbps);
            proof {
                assert(axes@ =~= asked_axes(*demand));
            }
        },
        None => {},
    }
    axes
}

/// Where a benchmark fit came from.
#[derive(Debug, Clone, Copy, PartialEq, Eq, Structural)]
pub enum FitSource {
    /// Read from the measured profile.
    Profile,
    /// Estimated from the capacity.
    Atlas,
    /// Nothing was asked.
    Unasked,
}

/// The benchmark fit with its provenance.
#[derive(Debug, Clone, Copy, PartialEq)]
pub struct BenchFit {
    pub score: Binary64,
    pub source: FitSource,
    pub confidence: Binary64,
}

/// Whether the capacity carries the `gpu` tag, in any mixture of cases.
pub open spec fn gpu_tagged(tags: Seq<Seq<char>>) -> bool {
    exists|i: int| 0 <= i < tags.len() && (#[trigger] tags[i]).len() == 3 && text::starts_like(tags[i], "gpu"@)
}

/// A coarse estimate of an axis from cores, memory and tags.
pub open spec fn estimated_axis(axis: ProfileAxis, c: CandidateView) -> Binary64 {
    let cores = Binary64::fraction(c.capacity.cpu_cores as int, 1);
    let gpu = gpu_tagged(c.capacity.tags);
    let hosts = c.capacity.mem_mb > 0;
    match axis {
        ProfileAxis::Gflops => cores.times(Binary64::fraction(8, 1)),
        ProfileAxis::MemBwGbps => cores.times(Binary64::fraction(6, 1)),
        ProfileAxis::VramMb => Binary64::fraction(if gpu { 8000 } else { 0 }, 1),
        ProfileAxis::Fp16Tflops => Binary64::fraction(if gpu { 10 } else { 0 }, 1),
        ProfileAxis::TokensPerSec => Binary64::fraction(if gpu { 20 } else { 0 }, 1),
        ProfileAxis::DiskReadMbps => Binary64::fraction(if hosts { 500 } else { 0 }, 1),
        ProfileAxis::DiskWriteMbps => Binary64::fraction(if hosts { 400 } else { 0 }, 1),
    }
}

/// What a candidate offers on an axis.
pub open spec fn offered(axis: ProfileAxis, c: CandidateView) -> Binary64 {
    match c.profile {
        Some(p) => measured_axis(axis, p),
        None => estimated_axis(axis, c),
    }
}

/// `sum of weight * clamp(offered / target)` and `sum of weight`, over the axes with a positive
/// target.
pub open spec fn fit_sums(axes: Seq<(ProfileAxis, DemandAxis)>, c: CandidateView) -> (Binary64, Binary64)
    decreases axes.len(),
{
    if axes.len() == 0 {
        (Binary64::zero(), Binary64::zero())
    } else {
        let (n, d) = fit_sums(axes.drop_last(), c);
        let (axis, a) = axes.last();
        if Binary64::zero().less(a.target) {
            let fit = offered(axis, c).over(a.target).clamped();
            (n.plus(a.weight.times(fit)), d.plus(a.weight))
        } else {
            (n, d)
        }
    }
}

/// The demand-weighted, saturating match of a candidate to a job's demand; neutral where nothing
/// was asked.
pub open spec fn bench_fit(c: CandidateView, spec: JobSpecView) -> BenchFit {
    let axes = asked_axes(spec.demand);
    let half = Binary64::fraction(1, 2);
    if axes.len() == 0 {
        BenchFit {
            score: half,
            source: if c.profile is Some { FitSource::Profile } else { FitSource::Unasked },
            confidence: Binary64::one(),
        }
    } else {
        let (n, d) = fit_sums(axes, c);
        BenchFit {
            score: (if Binary64::zero().less(d) { n.over(d) } else { half }).clamped(),
            source: if c.profile is Some { FitSource::Profile } else { FitSource::Atlas },
            confidence: if c.profile is Some { Binary64::one() } else { Binary64::fraction(6, 10) },
        }
    }
}

fn has_gpu_tag(tags: &Vec<String>) -> (r: bool)
    ensures
        r == gpu_tagged(text::texts(tags@)),
{
    let ghost all = text::texts(tags@);
    let mut i: usize = 0;
    proof {
        reveal_strlit("gpu");
    }
    while i < tags.len()
        invariant
            i <= tags.len(),
            all == text::texts(tags@),
            forall|j: int| 0 <= j < i ==> !((#[trigger] all[j]).len() == 3 && text::starts_like(all[j], "gpu"@)),
        decreases tags.len() - i,
    {
        proof {
            assert(all[i as int] == tags@[i as int]@);
        }
        if tags[i].as_str().unicode_len() == 3 && text::begins_like(tags[i].as_str(), "gpu") {
            return true;
        }
        i = i + 1;
    }
    false
}

/// A coarse estimate of an axis from cores, memory and tags.
fn atlas_axis_estimate(axis: ProfileAxis, candidate: &Candidate) -> (r: Binary64)
    ensures
        r == estimated_axis(axis, candidate@),
{
    let cap = &candidate.capacity;
    let gpu: bool = has_gpu_tag(&cap.tags);
    let hosts: bool = cap.mem_mb > 0;
    match axis {
        ProfileAxis::Gflops => Binary64::from_u64(cap.cpu_cores as u64).mul(Binary64::from_u64(8)),
        ProfileAxis::MemBwGbps => Binary64::from_u64(cap.cpu_cores as u64).mul(Binary64::from_u64(6)),
        ProfileAxis::VramMb => Binary64::from_u64(if gpu { 8000 } else { 0 }),
        ProfileAxis::Fp16Tflops => Binary64::from_u64(if gpu { 10 } else { 0 }),
        ProfileAxis::TokensPerSec => Binary64::from_u64(if gpu { 20 } else { 0 }),
        ProfileAxis::DiskReadMbps => Binary64::from_u64(if hosts { 500 } else { 0 }),
        ProfileAxis::DiskWriteMbps => Binary64::from_u64(if hosts { 400 } else { 0 }),
    }
}

/// The benchmark fit of a candidate. Each axis saturates once the host clears the target, so
/// surplus hardware earns nothing. Without a profile the axes are estimated, at a discounted
/// confidence.
pub fn bench_fit_score(candidate: &Candidate, spec: &JobSpec) -> (r: BenchFit)
    ensures
        r == bench_fit(candidate@, spec@),
{
    let axes = demand_axes(&spec.demand);
    let zero = Binary64 { bits: 0 };
    let one = Binary64 { bits: 0x3ff0_0000_0000_0000 };
    let half = Binary64::ratio(1, 2);
    let profiled: bool = candidate.profile.is_some();
    if axes.len() == 0 {
        return BenchFit {
            score: half,
            source: if profiled { FitSource::Profile } else { FitSource::Unasked },
            confidence: one,
        };
    }
    let mut n = zero;
    let mut d = zero;
    let ghost all = axes@;
    for i in 0..axes.len()
        invariant
            axes@ == all,
            zero == Binary64::zero(),
            (n, d) == fit_sums(all.take(i as int), candidate@),
    {
        proof {
            assert(all.take(i + 1).drop_last() =~= all.take(i as int));
            assert(all.take(i + 1).last() == all[i as int]);
        }
        let (axis, a) = axes[i];
        if zero.lt(a.target) {
            let value = match &candidate.profile {
                Some(p) => profile_axis(axis, p),
                None => atlas_axis_estimate(axis, candidate),
            };
            let fit = clamp01(value.div(a.target));
            n = n.add(a.weight.mul(fit));
            d = d.add(a.weight);
        }
    }
    proof {
        assert(all.take(axes.len() as int) =~= all);
    }
    let score = if zero.lt(d) { n.div(d) } else { half };
    BenchFit {
        score: clamp01(score),
        source: if profiled { FitSource::Profile } else { FitSource::Atlas },
        confidence: if profiled { one } else { Binary64::ratio(6, 10) },
    }
}

// ---- trust ----

/// The trust score and whether the claimed profile is suspect.
#[derive(Debug, Clone, Copy, PartialEq)]
pub struct Trust {
    pub score: Binary64,
    pub benchmark_suspect: bool,
}

/// A datacenter-grade claim with too little delivered work behind it.
pub open spec fn suspect(c: CandidateView, delivered: int) -> bool {
    match c.profile {
        Some(p) => {
            let gflops = measured_axis(ProfileAxis::Gflops, p);
            let vram = measured_axis(ProfileAxis::VramMb, p);
            let tps = measured_axis(ProfileAxis::TokensPerSec, p);
            let tflops = measured_axis(ProfileAxis::Fp16Tflops, p);
            let big = Binary64::fraction(24000, 1).at_most(vram) || Binary64::fraction(50, 1).at_most(tflops)
                || Binary64::fraction(100, 1).at_most(tps) || Binary64::fraction(2000, 1).at_most(gflops);
            let huge = Binary64::fraction(48000, 1).at_most(vram) || Binary64::fraction(150, 1).at_most(tflops);
            big && delivered < if huge { 20int } else { 5int }
        },
        None => false,
    }
}

/// The delivered-work count at which trust saturates.
pub open spec fn saturation(spec: JobSpecView) -> Binary64 {
    let fifty = Binary64::fraction(50, 1);
    let sat = usable_or(spec.trust_saturation, fifty);
    if Binary64::zero().less(sat) {
        sat
    } else {
        fifty
    }
}

/// The work that the history of a candidate proves.
pub open spec fn proven_work(c: CandidateView) -> int {
    match c.history {
        Some(h) => h.delivered(),
        None => 0,
    }
}

/// Full for a host that earned recently or never earned, less for a dormant one.
pub open spec fn recency(c: CandidateView) -> Binary64 {
    match c.history {
        Some(h) => if amount(h.earned) > 0 && amount(h.recent_earned) <= 0 {
            Binary64::fraction(75, 100)
        } else {
            Binary64::one()
        },
        None => Binary64::one(),
    }
}

/// Trust, given the logarithms of one plus the delivered work and of one plus the saturation
/// count.
pub open spec fn trust_given(c: CandidateView, ln_delivered: Binary64, ln_saturation: Binary64) -> Trust {
    let base = if Binary64::zero().less(ln_saturation) {
        ln_delivered.over(ln_saturation)
    } else {
        Binary64::zero()
    };
    let confidence = if c.profile is Some { Binary64::one() } else { Binary64::fraction(85, 100) };
    let score = base.times(recency(c)).times(confidence).clamped();
    let flagged = suspect(c, proven_work(c));
    let ceiling = if proven_work(c) > 0 { Binary64::fraction(1, 10) } else { Binary64::zero() };
    Trust {
        score: (if flagged { score.lesser_of(ceiling) } else { score }).clamped(),
        benchmark_suspect: flagged,
    }
}

/// Trust, with logarithms from `m`.
pub open spec fn trust(c: CandidateView, spec: JobSpecView, m: spec_fn(Elementary, Binary64) -> Binary64) -> Trust {
    trust_given(
        c,
        m(Elementary::LnOnePlus, Binary64::fraction(proven_work(c), 1)),
        m(Elementary::LnOnePlus, saturation(spec)),
    )
}

/// Whether a claimed profile is implausible for the delivered work.
fn is_benchmark_suspect(candidate: &Candidate, delivered: u64) -> (r: bool)
    ensures
        r == suspect(candidate@, delivered as int),
{
    match &candidate.profile {
        Some(p) => {
            let gflops = profile_axis(ProfileAxis::Gflops, p);
            let vram = profile_axis(ProfileAxis::VramMb, p);
            let tps = profile_axis(ProfileAxis::TokensPerSec, p);
            let tflops = profile_axis(ProfileAxis::Fp16Tflops, p);
            let big: bool = Binary64::from_u64(24000).le(vram) || Binary64::from_u64(50).le(tflops)
                || Binary64::from_u64(100).le(tps) || Binary64::from_u64(2000).le(gflops);
            let huge: bool = Binary64::from_u64(48000).le(vram) || Binary64::from_u64(150).le(tflops);
            let needed: u64 = if huge { 20 } else { 5 };
            big && delivered < needed
        },
        None => false,
    }
}

fn delivered_work(candidate: &Candidate) -> (r: u64)
    requires
        candidate@.countable(),
    ensures
        r == proven_work(candidate@),
{
    match &candidate.history {
        Some(h) => h.jobs_hosted + h.heartbeats_hosted,
        None => 0,
    }
}

fn recency_boost(candidate: &Candidate) -> (r: Binary64)
    ensures
        r == recency(candidate@),
{
    match &candidate.history {
        Some(h) => {
            if to_big(h.earned.as_str()) > 0 && to_big(h.recent_earned.as_str()) <= 0 {
                Binary64::ratio(75, 100)
            } else {
                Binary64 { bits: 0x3ff0_0000_0000_0000 }
            }
        },
        None => Binary64 { bits: 0x3ff0_0000_0000_0000 },
    }
}

/// Trust from the logarithms of one plus the delivered work and of one plus the saturation count.
/// Grows with delivered work up to saturation, is discounted for a dormant host and for unmeasured
/// hardware, and is floored for a suspect claim.
pub fn trust_from_logs(candidate: &Candidate, ln_delivered: Binary64, ln_saturation: Binary64) -> (r: Trust)
    requires
        candidate@.countable(),
    ensures
        r == trust_given(candidate@, ln_delivered, ln_saturation),
{
    let zero = Binary64 { bits: 0 };
    let one = Binary64 { bits: 0x3ff0_0000_0000_0000 };
    let delivered: u64 = delivered_work(candidate);
    let base = if zero.lt(ln_saturation) { ln_delivered.div(ln_saturation) } else { zero };
    let confidence = if candidate.profile.is_some() { one } else { Binary64::ratio(85, 100) };
    let score = clamp01(base.mul(recency_boost(candidate)).mul(confidence));
    let flagged: bool = is_benchmark_suspect(candidate, delivered);
    let score = if flagged {
        score.min(if delivered > 0 { Binary64::ratio(1, 10) } else { zero })
    } else {
        score
    };
    Trust { score: clamp01(score), benchmark_suspect: flagged }
}

fn saturation_of(spec: &JobSpec) -> (r: Binary64)
    ensures
        r == saturation(spec@),
{
    let fifty = Binary64::from_u64(50);
    let sat = num_or(spec.trust_saturation, fifty);
    if (Binary64 { bits: 0 }).lt(sat) {
        sat
    } else {
        fifty
    }
}

/// Trust of a candidate in `[0, 1]`, from its interaction history.
pub fn trust_score<M: Fn(Elementary, Binary64) -> Binary64>(candidate: &Candidate, spec: &JobSpec, math: &M) -> (r:
    Trust)
    requires
        elementary::steady(*math),
        candidate@.countable(),
    ensures
        r == trust(candidate@, spec@, elementary::answers(*math)),
{
    let ln_delivered = elementary::ask(
        math,
        Elementary::LnOnePlus,
        Binary64::from_u64(delivered_work(candidate)),
    );
    let ln_saturation = elementary::ask(math, Elementary::LnOnePlus, saturation_of(spec));
    trust_from_logs(candidate, ln_delivered, ln_saturation)
}

// ---- price ----

/// The steps into which a price ratio is cut.
pub const PRICE_SCALE: i128 = 1_000_000;

/// `ask / cap` in steps, for `0 < ask < cap`. Where the scaled ask does not fit in 128 bits, the
/// cap is scaled down instead.
pub open spec fn price_steps(ask: int, cap: int) -> int {
    if ask * PRICE_SCALE <= i128::MAX {
        (ask * PRICE_SCALE) / cap
    } else if cap / (PRICE_SCALE as int) >= 1 {
        ask / (cap / (PRICE_SCALE as int))
    } else {
        ask
    }
}

/// The amount that a non-empty text writes.
pub open spec fn given_amount(s: Option<Seq<char>>) -> Option<int> {
    match s {
        Some(t) => if t.len() == 0 { None } else { text::numeral(text::trimmed(t)) },
        None => None,
    }
}

/// Cheaper is better: one for a free host, zero at or over the cap, in between one minus the
/// ratio; the default where there is no ask, no cap, or no sense in them.
pub open spec fn price_fit(c: CandidateView, spec: JobSpecView) -> Binary64 {
    let neutral = usable_or(spec.default_price_score, Binary64::fraction(1, 2)).clamped();
    match (given_amount(c.ask_base_units), given_amount(spec.price_cap_base_units)) {
        (Some(ask), Some(cap)) => if cap <= 0 {
            neutral
        } else if ask <= 0 {
            Binary64::one()
        } else if ask >= cap {
            Binary64::zero()
        } else {
            Binary64::one().minus(
                Binary64::fraction(price_steps(ask, cap), 1).over(Binary64::fraction(PRICE_SCALE as int, 1)),
            ).clamped()
        },
        _ => neutral,
    }
}

fn given(s: &Option<String>) -> (r: Option<i128>)
    ensures
        match r {
            Some(v) => given_amount(text::opt_text(*s)) == Some(v as int),
            None => given_amount(text::opt_text(*s)) is None,
        },
{
    match s {
        Some(t) => {
            if t.as_str().is_empty() {
                None
            } else {
                text::parse_i128(text::trim(t.as_str()).as_str())
            }
        },
        None => None,
    }
}

/// `ask / cap` in steps of a millionth.
fn ratio_steps(ask: i128, cap: i128) -> (r: u64)
    requires
        0 < ask < cap,
    ensures
        r == price_steps(ask as int, cap as int),
{
    let scale: u128 = 1_000_000;
    let a: u128 = ask as u128;
    let c: u128 = cap as u128;
    let limit: u128 = 0x7fff_ffff_ffff_ffff_ffff_ffff_ffff_ffff;
    if a <= limit / scale {
        proof {
            assert(ask * PRICE_SCALE <= i128::MAX);
            assert((a * scale) / (c as int) <= scale) by (nonlinear_arith)
                requires
                    0 < a < c,
                    scale == 1_000_000,
            ;
            assert((a * scale) / (c as int) >= 0) by (nonlinear_arith)
                requires
                    0 < a < c,
                    scale == 1_000_000,
            ;
        }
        ((a * scale) / c) as u64
    } else {
        proof {
            assert(ask * PRICE_SCALE > i128::MAX);
            let q = c as int / 1_000_000;
            assert(q >= 1_000_000);
            assert(a as int / q <= 2_000_000) by (nonlinear_arith)
                requires
                    0 < a < c,
                    c < (q + 1) * 1_000_000,
                    q >= 1_000_000,
            ;
            assert(a as int / q >= 0) by (nonlinear_arith)
                requires
                    0 < a,
                    q >= 1_000_000,
            ;
        }
        (a / (c / scale)) as u64
    }
}

/// Price score: cheaper is better, normalized against the job's price cap.
pub fn price_score(candidate: &Candidate, spec: &JobSpec) -> (r: Binary64)
    ensures
        r == price_fit(candidate@, spec@),
{
    let neutral = clamp01(num_or(spec.default_price_score, Binary64::ratio(1, 2)));
    let one = Binary64 { bits: 0x3ff0_0000_0000_0000 };
    match (given(&candidate.ask_base_units), given(&spec.price_cap_base_units)) {
        (Some(ask), Some(cap)) => {
            if cap <= 0 {
                neutral
            } else if ask <= 0 {
                one
            } else if ask >= cap {
                Binary64 { bits: 0 }
            } else {
                clamp01(one.sub(Binary64::from_u64(ratio_steps(ask, cap)).div(Binary64::from_u64(1_000_000))))
            }
        },
        _ => neutral,
    }
}

// ---- blend ----

/// The score of each axis.
#[derive(Debug, Clone, Copy, PartialEq)]
pub struct ScoreParts {
    pub latency: Binary64,
    pub bench_fit: Binary64,
    pub trust: Binary64,
    pub price: Binary64,
    /// Runtime-kind and locality multiplier, applied after the blend.
    pub runtime_factor: Binary64,
}

/// The full breakdown of a candidate's score.
#[derive(Debug, Clone, Copy, PartialEq)]
pub struct StaticScore {
    pub score: Binary64,
    pub parts: ScoreParts,
    pub bench_fit: BenchFit,
    pub benchmark_suspect: bool,
}

/// `w_l * latency + w_b * fit + w_t * trust + w_p * price`, clamped.
pub open spec fn blend(w: Weights, latency: Binary64, fit: Binary64, trust: Binary64, price: Binary64) -> Binary64 {
    w.w_l.times(latency).plus(w.w_b.times(fit)).plus(w.w_t.times(trust)).plus(w.w_p.times(price)).clamped()
}

/// Base multiplier for a browser host.
pub open spec fn browser_penalty() -> Binary64 {
    Binary64::fraction(6, 10)
}

/// Extra discount of a browser host, in proportion to the benchmark weight.
pub open spec fn browser_discount() -> Binary64 {
    Binary64::fraction(3, 10)
}

/// Boost for the payer's own node.
pub open spec fn local_boost() -> Binary64 {
    Binary64::fraction(115, 100)
}

pub open spec fn is_browser(c: CandidateView) -> bool {
    match c.profile {
        Some(p) => p.runtime.kind == Some("Browser"@),
        None => false,
    }
}

/// One, times a penalty for a browser host, times a boost for the local node.
pub open spec fn runtime_factor(c: CandidateView, local: Option<Seq<char>>, w: Weights) -> Binary64 {
    let w_b = finite_or_zero(w.w_b);
    let f = if is_browser(c) {
        Binary64::one().times(
            browser_penalty().times(Binary64::one().minus(browser_discount().times(w_b.clamped()))),
        )
    } else {
        Binary64::one()
    };
    match local {
        Some(l) => if l.len() > 0 && c.node_id == l { f.times(local_boost()) } else { f },
        None => f,
    }
}

/// The score breakdown of a candidate, given its trust.
pub open spec fn scored_with(
    c: CandidateView,
    spec: JobSpecView,
    graph: Option<LatencyModel>,
    trust: Trust,
) -> StaticScore {
    let w = normalized(raw_weights(spec));
    let latency = latency_fit(c, spec, graph);
    let fit = bench_fit(c, spec);
    let price = price_fit(c, spec);
    let factor = runtime_factor(c, spec.payer, w);
    StaticScore {
        score: blend(w, latency, fit.score, trust.score, price).times(factor).clamped(),
        parts: ScoreParts { latency, bench_fit: fit.score, trust: trust.score, price, runtime_factor: factor },
        bench_fit: fit,
        benchmark_suspect: trust.benchmark_suspect,
    }
}

/// The score breakdown of a candidate, with logarithms from `m`.
pub open spec fn scored(
    c: CandidateView,
    spec: JobSpecView,
    graph: Option<LatencyModel>,
    m: spec_fn(Elementary, Binary64) -> Binary64,
) -> StaticScore {
    scored_with(c, spec, graph, trust(c, spec, m))
}

/// Base multiplier applied to a browser host's score: 0.6.
pub fn browser_runtime_penalty() -> (r: Binary64)
    ensures
        r == browser_penalty(),
{
    Binary64::ratio(6, 10)
}

/// Extra throughput discount of a browser host: 0.3.
pub fn browser_throughput_discount() -> (r: Binary64)
    ensures
        r == browser_discount(),
{
    Binary64::ratio(3, 10)
}

/// Boost for the payer's own node: 1.15.
pub fn prefer_local_boost() -> (r: Binary64)
    ensures
        r == local_boost(),
{
    Binary64::ratio(115, 100)
}

/// Multiplier for a candidate's runtime kind and locality. One for a native remote node.
pub fn runtime_kind_factor(candidate: &Candidate, local_node_id: Option<&str>, w: &Weights) -> (r: Binary64)
    ensures
        r == runtime_factor(
            candidate@,
            match local_node_id {
                Some(l) => Some(l@),
                None => None,
            },
            *w,
        ),
{
    let one = Binary64 { bits: 0x3ff0_0000_0000_0000 };
    let browser: bool = match &candidate.profile {
        Some(p) => match &p.runtime.kind {
            Some(k) => text::same(k.as_str(), "Browser"),
            None => false,
        },
        None => false,
    };
    let f = if browser {
        one.mul(
            browser_runtime_penalty().mul(one.sub(browser_throughput_discount().mul(clamp01(num(w.w_b))))),
        )
    } else {
        one
    };
    match local_node_id {
        Some(l) => {
            if !l.is_empty() && text::same(candidate.node_id.as_str(), l) {
                f.mul(prefer_local_boost())
            } else {
                f
            }
        },
        None => f,
    }
}

/// Scores a candidate whose trust is already known.
pub fn score_given_trust<G: LatencyView>(
    candidate: &Candidate,
    spec: &JobSpec,
    graph: Option<&G>,
    trust: Trust,
) -> (r: StaticScore)
    ensures
        r == scored_with(candidate@, spec@, latency::model_of(graph), trust),
{
    let w = resolve_weights(spec);
    let latency = latency_score(candidate, spec, graph);
    let bench = bench_fit_score(candidate, spec);
    let price = price_score(candidate, spec);
    let blended = clamp01(
        w.w_l.mul(latency).add(w.w_b.mul(bench.score)).add(w.w_t.mul(trust.score)).add(w.w_p.mul(price)),
    );
    let local: Option<&str> = match &spec.payer {
        Some(p) => Some(p.as_str()),
        None => None,
    };
    let factor = runtime_kind_factor(candidate, local, &w);
    StaticScore {
        score: clamp01(blended.mul(factor)),
        parts: ScoreParts { latency, bench_fit: bench.score, trust: trust.score, price, runtime_factor: factor },
        bench_fit: bench,
        benchmark_suspect: trust.benchmark_suspect,
    }
}

/// The convex blend of the four axes, times the runtime factor. Browser hosts rank lower and the
/// payer's own node higher.
pub fn static_score<G: LatencyView, M: Fn(Elementary, Binary64) -> Binary64>(
    candidate: &Candidate,
    spec: &JobSpec,
    graph: Option<&G>,
    math: &M,
) -> (r: StaticScore)
    requires
        elementary::steady(*math),
        candidate@.countable(),
    ensures
        r == scored(candidate@, spec@, latency::model_of(graph), elementary::answers(*math)),
{
    let trust = trust_score(candidate, spec, math);
    score_given_trust(candidate, spec, graph, trust)
}

} // verus!
