use ce_sched::api::{FabricMap, JobSpec};
use ce_sched::binary64::Binary64;
use ce_sched::client::{SchedClient, DEFAULT_BASE_URL};
use ce_sched::elementary::Elementary;
use ce_sched::placer::{plan as plan_pure, PlanError};

#[test]
fn base_url_is_trimmed() {
    let c = SchedClient::new("http://example.com:8856/");
    assert_eq!(c.base_url(), "http://example.com:8856");
    assert_eq!(c.url("/plan"), "http://example.com:8856/plan");
}

#[test]
fn every_trailing_slash_goes() {
    assert_eq!(SchedClient::new("http://h///").base_url(), "http://h");
    assert_eq!(SchedClient::new("http://h").base_url(), "http://h");
    assert_eq!(SchedClient::new("").url("/map"), "/map");
}

#[test]
fn local_uses_default_base() {
    assert_eq!(SchedClient::local().base_url(), DEFAULT_BASE_URL);
}

fn no_math(_: Elementary, x: Binary64) -> Binary64 {
    x
}

#[test]
fn pure_planner_is_reexported() {
    let map = FabricMap::default();
    let spec = JobSpec { cpu_cores: 1, mem_mb: 256, ..Default::default() };
    assert_eq!(plan_pure(&spec, &map, &no_math).unwrap_err(), PlanError::MissingPayer);
}
