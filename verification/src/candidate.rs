//! A host that placement considers.

use crate::api::{
    self, Groups, GroupsView, NodeCapacity, NodeCapacityView, NodeHistory, NodeHistoryView,
    NodeProfile, NodeProfileView,
};
use crate::binary64::Binary64;
use crate::text;
use vstd::prelude::*;

verus! {

/// A placement candidate: a map row that passed the hard filter, with its latency from the payer.
#[derive(Debug, PartialEq)]
pub struct Candidate {
    pub node_id: String,
    pub capacity: NodeCapacity,
    /// Without one, benchmark axes are estimated from the capacity.
    pub profile: Option<NodeProfile>,
    pub history: Option<NodeHistory>,
    /// Measured or predicted RTT to the payer (ms).
    pub rtt_ms: Binary64,
    /// Whether `rtt_ms` is a direct sample.
    pub rtt_measured: bool,
    /// Advertised price in base units, if any.
    pub ask_base_units: Option<String>,
    /// Correlation groups, once tagged.
    pub groups: Option<Groups>,
}

/// What a [`Candidate`] holds.
pub struct CandidateView {
    pub node_id: Seq<char>,
    pub capacity: NodeCapacityView,
    pub profile: Option<NodeProfileView>,
    pub history: Option<NodeHistoryView>,
    pub rtt_ms: Binary64,
    pub rtt_measured: bool,
    pub ask_base_units: Option<Seq<char>>,
    pub groups: Option<GroupsView>,
}

impl View for Candidate {
    type V = CandidateView;

    open spec fn view(&self) -> CandidateView {
        CandidateView {
            node_id: self.node_id@,
            capacity: self.capacity@,
            profile: match self.profile { Some(x) => Some(x@), None => None },
            history: match self.history { Some(x) => Some(x@), None => None },
            rtt_ms: self.rtt_ms,
            rtt_measured: self.rtt_measured,
            ask_base_units: text::opt_text(self.ask_base_units),
            groups: match self.groups { Some(x) => Some(x@), None => None },
        }
    }
}

impl Clone for Candidate {
    fn clone(&self) -> (r: Candidate)
        ensures
            r@ == self@,
    {
        Candidate {
            node_id: self.node_id.clone(),
            capacity: self.capacity.clone(),
            profile: match &self.profile { Some(x) => Some(x.clone()), None => None },
            history: match &self.history { Some(x) => Some(x.clone()), None => None },
            rtt_ms: self.rtt_ms,
            rtt_measured: self.rtt_measured,
            ask_base_units: api::clone_opt_text(&self.ask_base_units),
            groups: match &self.groups { Some(x) => Some(x.clone()), None => None },
        }
    }
}

impl NodeHistoryView {
    /// Proven hosting work.
    pub open spec fn delivered(self) -> int {
        self.jobs_hosted + self.heartbeats_hosted
    }
}

impl CandidateView {
    /// The delivered work of the host fits the counters.
    pub open spec fn countable(self) -> bool {
        match self.history {
            Some(h) => h.delivered() <= u64::MAX,
            None => true,
        }
    }
}

/// The views of a pool.
pub open spec fn pool_view(pool: Seq<Candidate>) -> Seq<CandidateView> {
    pool.map_values(|c: Candidate| c@)
}

} // verus!
