use std::collections::HashMap;

use hypercast_relay_directory::config::{probe_enabled, probe_interval_secs};
use hypercast_relay_directory::prober::{
    healthz_url, probe_targets, record_probe, record_relay_check, relay_targets, speedtest_url,
    turn_endpoints, without_trailing_slashes, ProbeOutcome,
};
use hypercast_relay_directory::state::{Directory, NodeMeta};

fn meta(signal: Option<&str>) -> NodeMeta {
    NodeMeta {
        name: None,
        region: None,
        signal_url: signal.map(str::to_owned),
        protocol_version: None,
        owner_contact: None,
    }
}

#[test]
fn targets_are_nodes_with_signal_url() {
    let mut dir = Directory::in_memory();
    dir.upsert_at("c", meta(Some("http://c:1//")), 1);
    dir.upsert_at("a", meta(Some("http://a:1")), 1);
    dir.upsert_at("b", meta(None), 1);
    let t = probe_targets(&dir.list());
    assert_eq!(t.len(), 2);
    assert_eq!(t[0].node_id, "a");
    assert_eq!(t[0].base_url, "http://a:1");
    assert_eq!(t[1].node_id, "c");
    assert_eq!(t[1].base_url, "http://c:1");
}

#[test]
fn probe_urls() {
    assert_eq!(healthz_url("http://n:1"), "http://n:1/healthz");
    assert_eq!(speedtest_url("http://n:1"), "http://n:1/speedtest?bytes=2097152");
    assert_eq!(without_trailing_slashes("///"), "");
    assert_eq!(without_trailing_slashes("http://n/a/"), "http://n/a");
}

#[test]
fn probe_settings() {
    assert!(probe_enabled(None));
    assert!(probe_enabled(Some("1")));
    assert!(probe_enabled(Some("true")));
    assert!(!probe_enabled(Some("0")));
    assert!(!probe_enabled(Some("false")));
    assert!(!probe_enabled(Some("FaLSE")));
    assert!(probe_enabled(Some(" false")));
    assert_eq!(probe_interval_secs(None), 60);
    assert_eq!(probe_interval_secs(Some("120")), 120);
    assert_eq!(probe_interval_secs(Some("3")), 10);
    assert_eq!(probe_interval_secs(Some("abc")), 60);
    assert_eq!(probe_interval_secs(Some("18446744073709551615")), u64::MAX);
    assert_eq!(probe_interval_secs(Some("18446744073709551616")), 60);
}

#[test]
fn probe_outcomes_update_the_directory() {
    let mut dir = Directory::in_memory();
    dir.upsert_at("a", meta(Some("http://a")), 1);
    let step = record_probe(&mut dir, "a", ProbeOutcome::Answered { latency_ms: 42, status_code: 200 });
    assert!(step.recorded);
    assert!(step.measure_bandwidth);
    let p = dir.get("a").unwrap().probed.unwrap();
    assert_eq!(p.status, "up");
    assert_eq!(p.latency_ms, Some(42));
    assert_eq!(p.status_code, Some(200));
    for _ in 0..3 {
        let step = record_probe(&mut dir, "a", ProbeOutcome::Failed);
        assert!(step.recorded);
        assert!(!step.measure_bandwidth);
    }
    let rec = dir.get("a").unwrap();
    assert_eq!(rec.probe_failures_streak, 3);
    let p = rec.probed.unwrap();
    assert_eq!(p.status, "down");
    assert_eq!(p.latency_ms, None);
    assert_eq!(p.status_code, None);
    let step = record_probe(&mut dir, "gone", ProbeOutcome::Answered { latency_ms: 1, status_code: 200 });
    assert!(!step.recorded);
    assert!(step.measure_bandwidth);
    assert!(dir.get("gone").is_none());
}

#[test]
fn relay_targets_and_checks() {
    let mut dir = Directory::in_memory();
    dir.apply_report_at(
        "b",
        meta(None),
        1,
        HashMap::new(),
        vec!["turn:turn.example.com:3478".to_owned(), "garbage".to_owned(), "stun:1.2.3.4:5444".to_owned()],
        1,
    );
    dir.upsert_at("a", meta(None), 1);
    let t = relay_targets(&dir.list());
    assert_eq!(t.len(), 2);
    assert_eq!(t[0].node_id, "a");
    assert!(t[0].endpoints.is_empty());
    assert_eq!(t[1].node_id, "b");
    assert_eq!(
        t[1].endpoints,
        vec![("turn.example.com".to_owned(), 3478), ("1.2.3.4".to_owned(), 5444)]
    );
    assert_eq!(turn_endpoints(&vec!["x".to_owned()]), vec![]);

    assert!(record_relay_check(&mut dir, "b", &vec![false, true]));
    assert_eq!(dir.get("b").unwrap().relay_capable, Some(true));
    assert!(record_relay_check(&mut dir, "b", &vec![false, false]));
    assert_eq!(dir.get("b").unwrap().relay_capable, Some(false));
    assert!(record_relay_check(&mut dir, "a", &vec![]));
    assert_eq!(dir.get("a").unwrap().relay_capable, Some(false));
    assert!(!record_relay_check(&mut dir, "zz", &vec![true]));
    assert!(dir.get("zz").is_none());
}

#[test]
fn reports_replace_turn_urls() {
    let mut dir = Directory::in_memory();
    dir.apply_report_at("a", meta(None), 1, HashMap::new(), vec!["turn:h:1".to_owned()], 1);
    assert!(dir.set_relay_capable("a", true));
    dir.upsert_at("a", meta(None), 2);
    let rec = dir.get("a").unwrap();
    assert_eq!(rec.turn_urls, vec!["turn:h:1".to_owned()]);
    assert_eq!(rec.relay_capable, Some(true));
    dir.apply_report_at("a", meta(None), 2, HashMap::new(), Vec::new(), 3);
    let rec = dir.get("a").unwrap();
    assert!(rec.turn_urls.is_empty());
    assert_eq!(rec.relay_capable, Some(true));
}
