use ce_sched::api::{
    Cohort, FabricMap, FabricNode, JobSpec, Objective, RecentPlacements, Redundancy, RedundancyPolicy, Selection, Weights,
};
use ce_sched::binary64::Binary64;

fn f(x: f64) -> Binary64 {
    Binary64::from_bits(x.to_bits())
}

#[test]
fn objective_default_is_balanced() {
    assert_eq!(Objective::default(), Objective::Balanced);
    assert_eq!(Objective::default().as_str(), "balanced");
}

#[test]
fn objectives_have_their_names() {
    assert_eq!(Objective::Latency.as_str(), "latency");
    assert_eq!(Objective::Throughput.as_str(), "throughput");
    assert_eq!(Objective::Cheap.as_str(), "cheap");
}

#[test]
fn the_raw_weights_of_latency() {
    let l = Weights::for_objective(Objective::Latency);
    assert_eq!((l.w_l, l.w_b, l.w_t, l.w_p, l.w_d), (f(0.5), f(0.15), f(0.2), f(0.05), f(0.1)));
}

#[test]
fn defaults_of_the_small_enums() {
    assert_eq!(Cohort::default(), Cohort::Spread);
    assert_eq!(Selection::default(), Selection::Best);
    assert_eq!(Redundancy::default(), Redundancy::Policy(RedundancyPolicy::Single));
    let s = JobSpec::default();
    assert!(s.payer.is_none() && s.k.is_none() && !s.allow_self && s.require_tags.is_empty());
}

#[test]
fn recent_placements_are_a_map() {
    let mut r = RecentPlacements::new();
    assert_eq!(r.len(), 0);
    r.insert("us-a".into(), f(2.0));
    r.insert("eu-a".into(), f(8.0));
    r.insert("us-a".into(), f(3.0));
    assert_eq!(r.len(), 2);
    assert_eq!(r.get("us-a"), Some(f(3.0)), "the last count of an operator stands");
    assert_eq!(r.get("eu-a"), Some(f(8.0)));
    assert_eq!(r.get("lone"), None);
    assert_eq!(r.count(0), f(8.0), "counts come in the order of the operators");
    assert_eq!(r.clone().count(1), f(3.0));
}

#[test]
fn a_map_finds_its_first_row() {
    let row = |id: &str, cores: u32| {
        let mut n = FabricNode { node_id: id.into(), ..Default::default() };
        n.capacity.cpu_cores = cores;
        n
    };
    let map = FabricMap { nodes: vec![row("a", 1), row("b", 2), row("b", 3)], ..Default::default() };
    assert_eq!(map.node("b").unwrap().capacity.cpu_cores, 2);
    assert!(map.node("c").is_none());
}
