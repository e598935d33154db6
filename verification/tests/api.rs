use std::collections::HashMap;

use hypercast_relay_directory::api::{register, report, validate_node_id, ApiError, RegisterRequest, ReportRequest};
use hypercast_relay_directory::state::Directory;

fn report_req(node_id: &str) -> ReportRequest {
    ReportRequest {
        node_id: node_id.to_owned(),
        signal_url: Some("http://10.0.0.1:8443".to_owned()),
        protocol_version: Some("1.1".to_owned()),
        uptime_s: 61,
        metrics: HashMap::new(),
        turn_urls: Vec::new(),
    }
}

#[test]
fn reject_bad_node_id() {
    let mut dir = Directory::in_memory();
    let r = report(&mut dir, ReportRequest {
        node_id: "".to_owned(),
        signal_url: None,
        protocol_version: None,
        uptime_s: 1,
        metrics: HashMap::new(),
        turn_urls: Vec::new(),
    });
    let e = r.err().unwrap();
    assert_eq!(e.status_code(), 400);
    assert_eq!(e.message(), "node_id must be 1..=64 chars");
    assert!(dir.list().is_empty());
}

#[test]
fn node_id_is_trimmed_and_bounded() {
    assert_eq!(validate_node_id("  node-a \n").ok(), Some("node-a".to_owned()));
    assert!(matches!(validate_node_id("   "), Err(ApiError::InvalidNodeId)));
    assert!(validate_node_id(&"x".repeat(64)).is_ok());
    assert!(validate_node_id(&"x".repeat(65)).is_err());
    // the bound counts characters, whatever their UTF-8 length
    assert!(validate_node_id(&"节".repeat(64)).is_ok());
    assert!(validate_node_id(&"节".repeat(65)).is_err());
    // ideographic space is white space
    assert_eq!(validate_node_id("\u{3000}n\u{3000}").ok(), Some("n".to_owned()));
}

#[test]
fn report_auto_registers_then_listed() {
    let mut dir = Directory::in_memory();
    let mut metrics = HashMap::new();
    metrics.insert("mailbox_registrations_total".to_owned(), 2u64);
    let mut req = report_req("node-a");
    req.metrics = metrics;
    assert!(report(&mut dir, req).is_ok());
    let nodes = dir.list();
    assert_eq!(nodes[0].node_id, "node-a");
    assert_eq!(
        nodes[0].reported.as_ref().unwrap().metrics.get("mailbox_registrations_total"),
        Some(&2)
    );
    let one = dir.get("node-a").unwrap();
    assert_eq!(one.signal_url.as_deref(), Some("http://10.0.0.1:8443"));
}

#[test]
fn register_endpoint_upserts_metadata() {
    let mut dir = Directory::in_memory();
    let rec = register(&mut dir, RegisterRequest {
        node_id: "n1".to_owned(),
        name: Some("公益节点".to_owned()),
        region: Some("cn-bj".to_owned()),
        signal_url: Some("http://x".to_owned()),
        protocol_version: Some("1.1".to_owned()),
        owner_contact: None,
    })
    .ok()
    .unwrap();
    assert_eq!(rec.node_id, "n1");
    register(&mut dir, RegisterRequest {
        node_id: " n1 ".to_owned(),
        name: None,
        region: Some("cn-sh".to_owned()),
        signal_url: None,
        protocol_version: None,
        owner_contact: None,
    })
    .ok()
    .unwrap();
    let one = dir.get("n1").unwrap();
    assert_eq!(one.region.as_deref(), Some("cn-sh"));
    assert_eq!(one.name.as_deref(), Some("公益节点"));
    assert_eq!(dir.list().len(), 1);
}

#[test]
fn report_with_multibyte_id_is_accepted() {
    let mut dir = Directory::in_memory();
    let n = "节".repeat(30);
    assert!(report(&mut dir, report_req(&n)).is_ok());
    assert!(dir.get(&n).is_some());
}

#[test]
fn report_without_protocol_version_is_refused() {
    let mut dir = Directory::in_memory();
    let mut req = report_req("n");
    req.protocol_version = None;
    let e = report(&mut dir, req).err().unwrap();
    assert_eq!(e, ApiError::MissingProtocolVersion);
    assert_eq!(e.status_code(), 400);
    assert_eq!(e.message(), "protocol_version is required");
    assert!(dir.get("n").is_none());
}

#[test]
fn registration_needs_no_protocol_version() {
    let mut dir = Directory::in_memory();
    let rec = register(&mut dir, RegisterRequest {
        node_id: "r".to_owned(),
        name: None,
        region: None,
        signal_url: None,
        protocol_version: None,
        owner_contact: None,
    });
    assert!(rec.is_ok());
}
