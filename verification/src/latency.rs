//! The narrow latency surface that scoring and placement consume.

use crate::binary64::Binary64;
use vstd::prelude::*;

verus! {

/// What a latency source answers, as functions of node ids.
pub struct LatencyModel {
    pub measured: spec_fn(Seq<char>, Seq<char>) -> Option<Binary64>,
    pub predicted: spec_fn(Seq<char>, Seq<char>) -> Binary64,
    pub region: spec_fn(Seq<char>) -> int,
}

/// The three latency queries that policies use.
pub trait LatencyView {
    spec fn model(&self) -> LatencyModel;

    /// Directly measured RTT (ms); `None` if no direct sample exists.
    fn measured_rtt(&self, a: &str, b: &str) -> (r: Option<Binary64>)
        ensures
            r == (self.model().measured)(a@, b@),
    ;

    /// Predicted RTT (ms); infinite if nothing relates the pair.
    fn predicted_rtt(&self, a: &str, b: &str) -> (r: Binary64)
        ensures
            r == (self.model().predicted)(a@, b@),
    ;

    /// Stable latency-region index; `-1` if the node is unknown.
    fn region_of(&self, node: &str) -> (r: i64)
        ensures
            r == (self.model().region)(node@),
    ;
}

/// The model of an optional latency source.
pub open spec fn model_of<G: LatencyView>(graph: Option<&G>) -> Option<LatencyModel> {
    match graph {
        Some(g) => Some(g.model()),
        None => None,
    }
}

} // verus!
