//! Requests around a plan: filling in the payer, reading the bid, and reporting what happened to
//! each target.

use crate::api::{
    DeploySpec, DispatchResult, Dispatched, DispatchedView, JobSpec, JobSpecView, NodeId,
    PlacementPlan, PlanTargetView,
};
use crate::seed;
use crate::text;
use vstd::prelude::*;

verus! {

/// Whether a job names no payer.
pub fn needs_payer(spec: &JobSpec) -> (r: bool)
    ensures
        r == (seed::or_empty(spec@.payer).len() == 0),
{
    match &spec.payer {
        Some(p) => p.as_str().is_empty(),
        None => true,
    }
}

/// Makes the local node the payer of a job that names none. A payer that is named stays, and so
/// does everything else.
pub fn fill_payer(spec: &mut JobSpec, local: Option<NodeId>)
    ensures
        final(spec)@ == (JobSpecView {
            payer: if seed::or_empty(old(spec)@.payer).len() == 0 && local is Some {
                text::opt_text(local)
            } else {
                old(spec)@.payer
            },
            ..old(spec)@
        }),
{
    if needs_payer(spec) && local.is_some() {
        spec.payer = local;
    }
}

/// The bid per host in base units: a decimal numeral that fits in 128 bits.
pub fn parse_bid(deploy: &DeploySpec) -> (r: Option<i128>)
    ensures
        match r {
            Some(v) => text::numeral(deploy@.bid) == Some(v as int),
            None => text::numeral(deploy@.bid) is None,
        },
{
    text::parse_i128(deploy.bid.as_str())
}

/// What happened to a target: the job that was started, or an error.
pub open spec fn reported(t: PlanTargetView, outcome: Result<String, String>) -> DispatchedView {
    DispatchedView {
        node_id: t.node_id,
        replica: t.replica,
        ok: outcome is Ok,
        job_id: match outcome {
            Ok(id) => Some(id@),
            Err(e) => None,
        },
        error: match outcome {
            Ok(id) => None,
            Err(e) => Some(e@),
        },
    }
}

/// How many outcomes are jobs.
pub open spec fn successes(outcomes: Seq<Result<String, String>>) -> nat
    decreases outcomes.len(),
{
    if outcomes.len() == 0 {
        0
    } else {
        successes(outcomes.drop_last()) + if outcomes.last() is Ok {
            1nat
        } else {
            0nat
        }
    }
}

/// Reports the outcomes of dispatching a plan: one entry per target, in order, and the number that
/// succeeded. A failure does not stop the rest.
pub fn tally(plan: &PlacementPlan, outcomes: &Vec<Result<String, String>>, now_ms: u64) -> (r: DispatchResult)
    requires
        outcomes.len() == plan.targets.len(),
        outcomes.len() <= u32::MAX,
    ensures
        r@.dispatched == Seq::new(plan@.targets.len(), |i: int| reported(plan@.targets[i], outcomes@[i])),
        r@.placed == successes(outcomes@),
        r@.assembled_at_ms == now_ms,
{
    let mut dispatched: Vec<Dispatched> = Vec::new();
    let mut placed: u32 = 0;
    for i in 0..plan.targets.len()
        invariant
            outcomes.len() == plan.targets.len(),
            outcomes.len() <= u32::MAX,
            placed <= i,
            placed == successes(outcomes@.take(i as int)),
            dispatched.len() == i,
            forall|j: int| 0 <= j < i ==> (#[trigger] dispatched@[j])@ == reported(plan@.targets[j], outcomes@[j]),
    {
        let t = &plan.targets[i];
        proof {
            assert(plan@.targets[i as int] == t@);
            assert(outcomes@.take(i + 1).drop_last() =~= outcomes@.take(i as int));
        }
        match &outcomes[i] {
            Ok(id) => {
                placed = placed + 1;
                dispatched.push(
                    Dispatched {
                        node_id: t.node_id.clone(),
                        replica: t.replica,
                        ok: true,
                        job_id: Some(id.clone()),
                        error: None,
                    },
                );
            },
            Err(e) => {
                dispatched.push(
                    Dispatched {
                        node_id: t.node_id.clone(),
                        replica: t.replica,
                        ok: false,
                        job_id: None,
                        error: Some(e.clone()),
                    },
                );
            },
        }
    }
    proof {
        assert(outcomes@.take(outcomes.len() as int) =~= outcomes@);
        assert(dispatched@.map_values(|x: Dispatched| x@) =~= Seq::new(
            plan@.targets.len(),
            |i: int| reported(plan@.targets[i], outcomes@[i]),
        ));
    }
    DispatchResult { dispatched, placed, assembled_at_ms: now_ms }
}

/// How many entries report a job.
pub open spec fn started(entries: Seq<DispatchedView>) -> nat
    decreases entries.len(),
{
    if entries.len() == 0 {
        0
    } else {
        started(entries.drop_last()) + if entries.last().ok {
            1nat
        } else {
            0nat
        }
    }
}

/// The count of a report is that of its entries which report a job, and each entry carries either the job
/// or the error, never both.
pub proof fn lemma_report_is_consistent(targets: Seq<PlanTargetView>, outcomes: Seq<Result<String, String>>)
    requires
        targets.len() == outcomes.len(),
    ensures
        ({
            let entries = Seq::new(targets.len(), |i: int| reported(targets[i], outcomes[i]));
            &&& started(entries) == successes(outcomes)
            &&& forall|i: int|
                0 <= i < entries.len() ==> (#[trigger] entries[i]).ok == (entries[i].job_id is Some) && entries[i].ok == (
                entries[i].error is None)
        }),
    decreases outcomes.len(),
{
    let entries = Seq::new(targets.len(), |i: int| reported(targets[i], outcomes[i]));
    if outcomes.len() > 0 {
        let fewer = Seq::new(
            targets.drop_last().len(),
            |i: int| reported(targets.drop_last()[i], outcomes.drop_last()[i]),
        );
        lemma_report_is_consistent(targets.drop_last(), outcomes.drop_last());
        assert(entries.drop_last() =~= fewer);
    }
}

} // verus!
