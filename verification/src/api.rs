//! The request handling behind the HTTP API: registration and telemetry
//! reports, with node-id validation. The HTTP routing, JSON bodies and
//! persistence live with the server.

use std::collections::HashMap;
use vstd::prelude::*;
use crate::state::{
    opt_chars, registered, reported, strings_view, Directory, MetaView, NodeMeta, NodeRecord,
};
use crate::text::{chars_of, string_from_range, trim, trim_bounds};

verus! {

broadcast use vstd::string::group_string_axioms;

/// Body of `POST /api/v1/register`.
#[derive(Debug)]
pub struct RegisterRequest {
    pub node_id: String,
    pub name: Option<String>,
    pub region: Option<String>,
    pub signal_url: Option<String>,
    pub protocol_version: Option<String>,
    pub owner_contact: Option<String>,
}

/// Body of `POST /api/v1/report` (unknown fields such as `schema` are
/// ignored when the body is read).
#[derive(Debug)]
pub struct ReportRequest {
    pub node_id: String,
    pub signal_url: Option<String>,
    pub protocol_version: Option<String>,
    pub uptime_s: u64,
    pub metrics: HashMap<String, u64>,
    /// TURN URLs the node offers; an absent list is read as empty.
    pub turn_urls: Vec<String>,
}

/// Why a request was refused.
#[derive(Clone, Copy, Debug, PartialEq, Eq)]
pub enum ApiError {
    /// The trimmed node id is empty or longer than 64 characters.
    InvalidNodeId,
    /// A telemetry report without the required `protocol_version`.
    MissingProtocolVersion,
}

/// Longest accepted node id, in characters.
pub const MAX_NODE_ID_CHARS: usize = 64;

impl ApiError {
    /// The HTTP status the refusal is answered with: both refusals are
    /// client errors.
    pub fn status_code(&self) -> (code: u16)
        ensures
            code == 400,
    {
        match self {
            ApiError::InvalidNodeId => 400,
            ApiError::MissingProtocolVersion => 400,
        }
    }

    /// The text of the refusal.
    pub fn message(&self) -> (m: String)
        ensures
            self is InvalidNodeId ==> m@ == "node_id must be 1..=64 chars"@,
            self is MissingProtocolVersion ==> m@ == "protocol_version is required"@,
    {
        match self {
            ApiError::InvalidNodeId => "node_id must be 1..=64 chars".to_owned(),
            ApiError::MissingProtocolVersion => "protocol_version is required".to_owned(),
        }
    }
}

/// A trimmed node id is accepted when it has 1 to 64 characters.
pub open spec fn node_id_ok(id: Seq<char>) -> bool {
    0 < id.len() <= MAX_NODE_ID_CHARS
}

/// Trims a requested node id and checks its length.
pub fn validate_node_id(raw: &str) -> (r: Result<String, ApiError>)
    ensures
        match r {
            Ok(id) => node_id_ok(trim(raw@)) && id@ == trim(raw@),
            Err(e) => !node_id_ok(trim(raw@)) && e is InvalidNodeId,
        },
{
    let cs = chars_of(raw);
    let (start, end) = trim_bounds(&cs);
    if end - start == 0 || end - start > MAX_NODE_ID_CHARS {
        return Err(ApiError::InvalidNodeId);
    }
    Ok(string_from_range(&cs, start, end))
}

/// The metadata a registration carries.
pub open spec fn register_meta(req: RegisterRequest) -> MetaView {
    MetaView {
        name: opt_chars(req.name),
        region: opt_chars(req.region),
        signal_url: opt_chars(req.signal_url),
        protocol_version: opt_chars(req.protocol_version),
        owner_contact: opt_chars(req.owner_contact),
    }
}

/// The metadata a telemetry report carries.
pub open spec fn report_meta(req: ReportRequest) -> MetaView {
    MetaView {
        name: None,
        region: None,
        signal_url: opt_chars(req.signal_url),
        protocol_version: opt_chars(req.protocol_version),
        owner_contact: None,
    }
}

/// Handles a registration: the node (under its trimmed id) is created or
/// its metadata merged; answered `201` with the stored record.
pub fn register(dir: &mut Directory, req: RegisterRequest) -> (r: Result<NodeRecord, ApiError>)
    requires
        old(dir).wf(),
    ensures
        final(dir).wf(),
        match r {
            Ok(rec) => {
                &&& node_id_ok(trim(req.node_id@))
                &&& rec@ == registered(old(dir)@, trim(req.node_id@), register_meta(req), rec@.last_seen)
                &&& final(dir)@ == old(dir)@.insert(trim(req.node_id@), rec@)
            },
            Err(e) => {
                &&& !node_id_ok(trim(req.node_id@))
                &&& e is InvalidNodeId
                &&& final(dir)@ == old(dir)@
            },
        },
{
    let node_id = match validate_node_id(req.node_id.as_str()) {
        Ok(id) => id,
        Err(e) => return Err(e),
    };
    let meta = NodeMeta {
        name: req.name,
        region: req.region,
        signal_url: req.signal_url,
        protocol_version: req.protocol_version,
        owner_contact: req.owner_contact,
    };
    let rec = dir.upsert(node_id.as_str(), meta);
    Ok(rec)
}

/// Handles a telemetry report: the node (under its trimmed id) is
/// registered if unknown and the report stored; answered `204`. A report
/// with an invalid id, or else without a protocol version, is refused.
pub fn report(dir: &mut Directory, req: ReportRequest) -> (r: Result<NodeRecord, ApiError>)
    requires
        old(dir).wf(),
    ensures
        final(dir).wf(),
        match r {
            Ok(rec) => {
                &&& node_id_ok(trim(req.node_id@))
                &&& req.protocol_version is Some
                &&& rec@ == reported(
                    old(dir)@,
                    trim(req.node_id@),
                    report_meta(req),
                    req.uptime_s,
                    req.metrics@,
                    strings_view(req.turn_urls),
                    rec@.last_seen,
                )
                &&& final(dir)@ == old(dir)@.insert(trim(req.node_id@), rec@)
            },
            Err(e) => {
                &&& final(dir)@ == old(dir)@
                &&& !node_id_ok(trim(req.node_id@)) ==> e is InvalidNodeId
                &&& node_id_ok(trim(req.node_id@)) ==> req.protocol_version is None
                    && e is MissingProtocolVersion
            },
        },
{
    let node_id = match validate_node_id(req.node_id.as_str()) {
        Ok(id) => id,
        Err(e) => return Err(e),
    };
    if req.protocol_version.is_none() {
        return Err(ApiError::MissingProtocolVersion);
    }
    let meta = NodeMeta {
        name: None,
        region: None,
        signal_url: req.signal_url,
        protocol_version: req.protocol_version,
        owner_contact: None,
    };
    let rec = dir.apply_report(node_id.as_str(), meta, req.uptime_s, req.metrics, req.turn_urls);
    Ok(rec)
}

} // verus!
