use std::collections::HashMap;

use hypercast_relay_directory::state::{epoch_seconds_of, now_secs, Directory, NodeMeta, NodeRecord};

fn meta(signal: Option<&str>) -> NodeMeta {
    NodeMeta {
        name: None,
        region: None,
        signal_url: signal.map(str::to_owned),
        protocol_version: None,
        owner_contact: None,
    }
}

fn full_meta(name: &str, region: &str) -> NodeMeta {
    NodeMeta {
        name: Some(name.to_owned()),
        region: Some(region.to_owned()),
        signal_url: Some("http://x".to_owned()),
        protocol_version: Some("1.1".to_owned()),
        owner_contact: None,
    }
}

#[test]
fn report_auto_registers_and_merges() {
    let mut dir = Directory::in_memory();
    dir.apply_report("a", meta(Some("http://x:1")), 60, HashMap::new(), Vec::new());
    let rec = dir.get("a").unwrap();
    assert_eq!(rec.signal_url.as_deref(), Some("http://x:1"));
    assert_eq!(rec.reported.as_ref().unwrap().uptime_s, 60);

    // signal_url=None does not overwrite a known value
    dir.apply_report("a", meta(None), 120, HashMap::new(), Vec::new());
    let rec = dir.get("a").unwrap();
    assert_eq!(rec.signal_url.as_deref(), Some("http://x:1"));
    assert_eq!(rec.reported.as_ref().unwrap().uptime_s, 120);
}

#[test]
fn probe_down_requires_three_streak() {
    let mut dir = Directory::in_memory();
    dir.upsert("a", meta(Some("http://x:1")));
    dir.set_probe("a", false, None, None);
    dir.set_probe("a", false, None, None);
    assert_eq!(dir.get("a").unwrap().probed.unwrap().status, "up"); // two failures: still up
    dir.set_probe("a", false, None, None);
    assert_eq!(dir.get("a").unwrap().probed.unwrap().status, "down"); // three failures: down
    dir.set_probe("a", true, Some(12), Some(200));
    assert_eq!(dir.get("a").unwrap().probed.unwrap().status, "up");
    assert_eq!(dir.get("a").unwrap().probed.unwrap().latency_ms, Some(12));
}

#[test]
fn report_names_new_node_after_its_id() {
    let mut dir = Directory::in_memory();
    let rec = dir.apply_report_at("node-a", meta(None), 61, HashMap::new(), Vec::new(), 1000);
    assert_eq!(rec.name.as_deref(), Some("node-a"));
    assert_eq!(rec.first_seen, 1000);
    assert_eq!(rec.last_seen, 1000);
    assert_eq!(rec.reported.as_ref().unwrap().at, 1000);
    assert!(rec.probed.is_none());
}

#[test]
fn report_keeps_metrics() {
    let mut dir = Directory::in_memory();
    let mut metrics = HashMap::new();
    metrics.insert("mailbox_registrations_total".to_owned(), 2u64);
    dir.apply_report_at("node-a", meta(None), 61, metrics, Vec::new(), 5);
    let rec = dir.get("node-a").unwrap();
    let stored = &rec.reported.as_ref().unwrap().metrics;
    assert_eq!(stored.get("mailbox_registrations_total"), Some(&2));
    assert_eq!(stored.len(), 1);
}

#[test]
fn upsert_merges_and_keeps_first_seen() {
    let mut dir = Directory::in_memory();
    let first = dir.upsert_at("n1", full_meta("公益节点", "cn-bj"), 100);
    assert_eq!(first.first_seen, 100);
    assert_eq!(first.last_seen, 100);
    let second = dir.upsert_at(
        "n1",
        NodeMeta {
            name: None,
            region: Some("cn-sh".to_owned()),
            signal_url: None,
            protocol_version: None,
            owner_contact: None,
        },
        250,
    );
    assert_eq!(second.region.as_deref(), Some("cn-sh"));
    assert_eq!(second.name.as_deref(), Some("公益节点"));
    assert_eq!(second.signal_url.as_deref(), Some("http://x"));
    assert_eq!(second.first_seen, 100);
    assert_eq!(second.last_seen, 250);
    let stored = dir.get("n1").unwrap();
    assert_eq!(stored.region.as_deref(), Some("cn-sh"));
    assert_eq!(stored.last_seen, 250);
}

#[test]
fn registration_does_not_name_node() {
    let mut dir = Directory::in_memory();
    let rec = dir.upsert_at("x", meta(None), 1);
    assert_eq!(rec.name, None);
}

#[test]
fn probe_of_unknown_node_changes_nothing() {
    let mut dir = Directory::in_memory();
    assert!(!dir.set_probe("ghost", false, None, None));
    assert!(!dir.set_bandwidth("ghost", 10));
    assert!(dir.get("ghost").is_none());
    assert!(dir.list().is_empty());
}

#[test]
fn failed_probe_drops_latency_and_counts() {
    let mut dir = Directory::in_memory();
    dir.upsert_at("a", meta(None), 1);
    assert!(dir.set_probe_at("a", true, Some(40), Some(200), 2));
    let p = dir.get("a").unwrap().probed.unwrap();
    assert_eq!(p.latency_ms, Some(40));
    assert_eq!(p.checked_at, 2);
    assert!(dir.set_probe_at("a", false, Some(99), Some(502), 3));
    let rec = dir.get("a").unwrap();
    assert_eq!(rec.probe_failures_streak, 1);
    let p = rec.probed.unwrap();
    assert_eq!(p.latency_ms, None);
    assert_eq!(p.status_code, Some(502));
    assert_eq!(p.status, "up");
}

#[test]
fn streak_saturates() {
    let mut rec_dir = Directory::restore(vec![NodeRecord {
        node_id: "a".to_owned(),
        name: None,
        region: None,
        signal_url: None,
        protocol_version: None,
        owner_contact: None,
        first_seen: 0,
        last_seen: 0,
        reported: None,
        probed: None,
        probe_failures_streak: u32::MAX,
        bandwidth_recent_kbps: None,
        turn_urls: Vec::new(),
        relay_capable: None,
        probes_total: 0,
        probes_answered: 0,
    }]);
    rec_dir.set_probe_at("a", false, None, None, 1);
    let rec = rec_dir.get("a").unwrap();
    assert_eq!(rec.probe_failures_streak, u32::MAX);
    assert_eq!(rec.probed.unwrap().status, "down");
}

#[test]
fn bandwidth_is_recorded() {
    let mut dir = Directory::in_memory();
    dir.upsert_at("a", meta(None), 1);
    assert!(dir.set_bandwidth("a", 5120));
    assert_eq!(dir.get("a").unwrap().bandwidth_recent_kbps, Some(5120));
}

#[test]
fn list_is_sorted_by_node_id() {
    let mut dir = Directory::in_memory();
    for id in ["m", "b", "z", "a", "é", "Z", "ab"] {
        dir.upsert_at(id, meta(None), 1);
    }
    dir.upsert_at("b", meta(Some("http://b")), 2);
    let ids: Vec<String> = dir.list().into_iter().map(|r| r.node_id).collect();
    let mut expected: Vec<String> = ["m", "b", "z", "a", "é", "Z", "ab"].iter().map(|s| s.to_string()).collect();
    expected.sort();
    assert_eq!(ids, expected);
    assert_eq!(dir.get("b").unwrap().signal_url.as_deref(), Some("http://b"));
}

#[test]
fn restore_rebuilds_listing() {
    let mut dir = Directory::in_memory();
    dir.upsert_at("b", meta(Some("http://b")), 1);
    dir.apply_report_at("a", meta(None), 7, HashMap::new(), Vec::new(), 2);
    dir.set_probe_at("a", false, None, None, 3);
    let again = Directory::restore(dir.list());
    let before = dir.list();
    let after = again.list();
    assert_eq!(before.len(), after.len());
    for (x, y) in before.iter().zip(after.iter()) {
        assert_eq!(x.node_id, y.node_id);
        assert_eq!(x.signal_url, y.signal_url);
        assert_eq!(x.last_seen, y.last_seen);
        assert_eq!(x.probe_failures_streak, y.probe_failures_streak);
    }
}

#[test]
fn restore_later_record_wins() {
    let mk = |name: &str| NodeRecord {
        node_id: "a".to_owned(),
        name: Some(name.to_owned()),
        region: None,
        signal_url: None,
        protocol_version: None,
        owner_contact: None,
        first_seen: 0,
        last_seen: 0,
        reported: None,
        probed: None,
        probe_failures_streak: 0,
        bandwidth_recent_kbps: None,
        turn_urls: Vec::new(),
        relay_capable: None,
        probes_total: 0,
        probes_answered: 0,
    };
    let dir = Directory::restore(vec![mk("first"), mk("second")]);
    assert_eq!(dir.list().len(), 1);
    assert_eq!(dir.get("a").unwrap().name.as_deref(), Some("second"));
}

#[test]
fn clock_reads_current_time() {
    // 2023-11-14 in Unix seconds; the clock of any machine running this is later.
    assert!(now_secs() > 1_700_000_000);
    let mut dir = Directory::in_memory();
    let rec = dir.upsert("a", meta(None));
    assert!(rec.last_seen > 1_700_000_000);
    assert_eq!(rec.first_seen, rec.last_seen);
}

#[test]
fn writes_touch_only_their_node() {
    let mut dir = Directory::in_memory();
    dir.upsert_at("a", meta(Some("http://a")), 1);
    dir.upsert_at("b", meta(Some("http://b")), 2);
    dir.set_probe_at("b", false, None, None, 3);
    dir.apply_report_at("b", meta(None), 9, HashMap::new(), Vec::new(), 4);
    let a = dir.get("a").unwrap();
    assert_eq!(a.signal_url.as_deref(), Some("http://a"));
    assert_eq!(a.last_seen, 1);
    assert!(a.probed.is_none());
    assert!(a.reported.is_none());
    let b = dir.get("b").unwrap();
    assert_eq!(b.probe_failures_streak, 1);
    assert_eq!(b.first_seen, 2);
    assert_eq!(b.last_seen, 4);
}

#[test]
fn epoch_reading_is_stored_as_i64() {
    assert_eq!(epoch_seconds_of(None), 0);
    assert_eq!(epoch_seconds_of(Some(1_760_000_000)), 1_760_000_000);
    assert_eq!(epoch_seconds_of(Some(u64::MAX)), -1);
}

#[test]
fn consecutive_failures_count_up() {
    let mut dir = Directory::in_memory();
    dir.upsert_at("a", meta(None), 1);
    for k in 1..=6u32 {
        dir.set_probe_at("a", false, Some(5), Some(503), 10 + k as i64);
        let rec = dir.get("a").unwrap();
        assert_eq!(rec.probe_failures_streak, k);
        let p = rec.probed.unwrap();
        assert_eq!(p.status, if k >= 3 { "down" } else { "up" });
        assert_eq!(p.latency_ms, None);
        assert_eq!(p.status_code, Some(503));
        assert_eq!(p.checked_at, 10 + k as i64);
    }
}

#[test]
fn availability_counts_answered_probes() {
    let mut dir = Directory::in_memory();
    dir.upsert_at("a", meta(None), 1);
    assert_eq!(dir.get("a").unwrap().availability_pct(), None);
    dir.set_probe_at("a", false, None, None, 2);
    assert_eq!(dir.get("a").unwrap().availability_pct(), Some(0));
    dir.set_probe_at("a", true, Some(3), Some(200), 3);
    let rec = dir.get("a").unwrap();
    assert_eq!(rec.probes_total, 2);
    assert_eq!(rec.probes_answered, 1);
    assert_eq!(rec.availability_pct(), Some(50));
    dir.set_probe_at("a", true, Some(3), Some(200), 4);
    // two of three, rounded up
    assert_eq!(dir.get("a").unwrap().availability_pct(), Some(67));
    let mut fresh = Directory::in_memory();
    fresh.upsert_at("h", meta(None), 1);
    fresh.set_probe_at("h", true, Some(1), Some(200), 2);
    assert!(fresh.get("h").unwrap().availability_pct().unwrap_or(0) > 0);
    assert_eq!(fresh.get("h").unwrap().availability_pct(), Some(100));
}

#[test]
fn availability_rounds_up_and_clamps() {
    let mk = |total: u64, answered: u64| NodeRecord {
        node_id: "a".to_owned(),
        name: None,
        region: None,
        signal_url: None,
        protocol_version: None,
        owner_contact: None,
        first_seen: 0,
        last_seen: 0,
        reported: None,
        probed: None,
        probe_failures_streak: 0,
        bandwidth_recent_kbps: None,
        turn_urls: Vec::new(),
        relay_capable: None,
        probes_total: total,
        probes_answered: answered,
    };
    assert_eq!(mk(201, 1).availability_pct(), Some(1));
    assert_eq!(mk(3, 5).availability_pct(), Some(100));
    assert_eq!(mk(u64::MAX, u64::MAX).availability_pct(), Some(100));
    assert_eq!(mk(u64::MAX, 0).availability_pct(), Some(0));
    let mut dir = Directory::restore(vec![mk(u64::MAX, 7)]);
    dir.set_probe_at("a", true, None, None, 1);
    let rec = dir.get("a").unwrap();
    assert_eq!(rec.probes_total, u64::MAX);
    assert_eq!(rec.probes_answered, 8);
}

#[test]
fn restore_order_does_not_matter() {
    let mut dir = Directory::in_memory();
    for id in ["c", "a", "b"] {
        dir.upsert_at(id, meta(Some(id)), 1);
    }
    let mut records = dir.list();
    records.reverse();
    records.swap(0, 1);
    let again = Directory::restore(records);
    let before = dir.list();
    let after = again.list();
    assert_eq!(before.len(), after.len());
    for (x, y) in before.iter().zip(after.iter()) {
        assert_eq!(x.node_id, y.node_id);
        assert_eq!(x.signal_url, y.signal_url);
    }
}
