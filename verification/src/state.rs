//! The node table: one record per relay node, kept sorted by node id.
//!
//! A record merges what the node registered, what it reported about
//! itself, and what the directory's own probes saw. Registered metadata
//! is merged field by field (an absent field never clears a known one);
//! probe failures are counted and a node is shown `down` only after three
//! consecutive failures.

use std::collections::HashMap;
use std::time::SystemTime;
use std::time::UNIX_EPOCH;
use std::time::Duration;
use vstd::prelude::*;
use crate::text::{
    chars_lt, chars_of, compare_chars, lemma_chars_lt_asymmetric, lemma_chars_lt_transitive, Order,
};

verus! {

broadcast use vstd::string::group_string_axioms;

// ---------------------------------------------------------------------
// Clock
// ---------------------------------------------------------------------

/// `std::time::SystemTime`, carried as an opaque value.
#[verifier::external_type_specification]
#[verifier::external_body]
pub struct ExSystemTime(SystemTime);

/// `SystemTime::now`: the current wall-clock time. Nothing is stated of
/// the result, which depends on the machine's clock.
#[verifier::external_body]
fn system_time_now() -> SystemTime {
    SystemTime::now()
}

/// `SystemTime::duration_since(UNIX_EPOCH)`, its error mapped to `None`
/// (the clock reads before the epoch). Nothing is stated of the result:
/// the library has no model of `SystemTime` or `Duration`.
#[verifier::external_body]
fn since_unix_epoch(t: &SystemTime) -> Option<Duration> {
    t.duration_since(UNIX_EPOCH).ok()
}

/// `Duration::as_secs`: whole seconds of a duration. Nothing is stated of
/// the result: the library has no model of `Duration`.
#[verifier::external_body]
fn whole_seconds(d: &Duration) -> u64 {
    d.as_secs()
}

/// Seconds since the Unix epoch as the directory stores them: the whole
/// seconds reinterpreted as `i64`, or 0 when the clock reads before 1970.
pub open spec fn epoch_seconds(since_epoch: Option<u64>) -> i64 {
    match since_epoch {
        Some(s) => s as i64,
        None => 0,
    }
}

/// Seconds since the epoch as stored, from a clock reading in whole
/// seconds (`None`: before the epoch).
pub fn epoch_seconds_of(since_epoch: Option<u64>) -> (r: i64)
    ensures
        r == epoch_seconds(since_epoch),
{
    match since_epoch {
        Some(s) => #[verifier::truncate] (s as i64),
        None => 0,
    }
}

/// The current Unix time in seconds (0 if the clock is before 1970).
pub fn now_secs() -> i64 {
    let now = system_time_now();
    let secs = match since_unix_epoch(&now) {
        Some(d) => Some(whole_seconds(&d)),
        None => None,
    };
    epoch_seconds_of(secs)
}

// ---------------------------------------------------------------------
// Records
// ---------------------------------------------------------------------

/// What a node last reported about itself.
#[derive(Clone, Debug, PartialEq)]
pub struct TelemetrySnapshot {
    pub uptime_s: u64,
    pub metrics: HashMap<String, u64>,
    pub at: i64,
}

/// What the directory's last probe of a node saw.
#[derive(Clone, Debug, PartialEq)]
pub struct ProbeSnapshot {
    /// `up` | `down`
    pub status: String,
    pub latency_ms: Option<u64>,
    pub status_code: Option<u16>,
    pub checked_at: i64,
}

/// One relay node.
#[derive(Clone, Debug)]
pub struct NodeRecord {
    pub node_id: String,
    pub name: Option<String>,
    pub region: Option<String>,
    pub signal_url: Option<String>,
    pub protocol_version: Option<String>,
    pub owner_contact: Option<String>,
    pub first_seen: i64,
    pub last_seen: i64,
    pub reported: Option<TelemetrySnapshot>,
    pub probed: Option<ProbeSnapshot>,
    pub probe_failures_streak: u32,
    /// Download bandwidth measured by the directory, in kbit/s.
    pub bandwidth_recent_kbps: Option<u64>,
    /// TURN URLs the node last reported (`turn:host:port` and the like).
    pub turn_urls: Vec<String>,
    /// Whether one of those TURN ports answered the directory's STUN
    /// Binding probe; `None` until the directory has checked.
    pub relay_capable: Option<bool>,
    /// Liveness probes recorded (saturating at `u64::MAX`).
    pub probes_total: u64,
    /// Of those, the probes the node answered (saturating at `u64::MAX`).
    pub probes_answered: u64,
}

/// Metadata given at registration or in a report; `None` fields leave
/// the stored value as it is.
#[derive(Clone, Debug, Default)]
pub struct NodeMeta {
    pub name: Option<String>,
    pub region: Option<String>,
    pub signal_url: Option<String>,
    pub protocol_version: Option<String>,
    pub owner_contact: Option<String>,
}

/// Model of a [`TelemetrySnapshot`].
pub struct TelemetryView {
    pub uptime_s: u64,
    pub metrics: Map<String, u64>,
    pub at: i64,
}

/// Model of a [`ProbeSnapshot`].
pub struct ProbeView {
    pub status: Seq<char>,
    pub latency_ms: Option<u64>,
    pub status_code: Option<u16>,
    pub checked_at: i64,
}

/// Model of a [`NodeRecord`].
pub struct NodeView {
    pub node_id: Seq<char>,
    pub name: Option<Seq<char>>,
    pub region: Option<Seq<char>>,
    pub signal_url: Option<Seq<char>>,
    pub protocol_version: Option<Seq<char>>,
    pub owner_contact: Option<Seq<char>>,
    pub first_seen: i64,
    pub last_seen: i64,
    pub reported: Option<TelemetryView>,
    pub probed: Option<ProbeView>,
    pub probe_failures_streak: u32,
    pub bandwidth_recent_kbps: Option<u64>,
    pub turn_urls: Seq<Seq<char>>,
    pub relay_capable: Option<bool>,
    pub probes_total: u64,
    pub probes_answered: u64,
}

/// Model of a [`NodeMeta`].
pub struct MetaView {
    pub name: Option<Seq<char>>,
    pub region: Option<Seq<char>>,
    pub signal_url: Option<Seq<char>>,
    pub protocol_version: Option<Seq<char>>,
    pub owner_contact: Option<Seq<char>>,
}

/// The characters of each string of a list.
pub open spec fn strings_view(v: Vec<String>) -> Seq<Seq<char>> {
    v@.map_values(|s: String| s@)
}

/// The characters of an optional string.
pub open spec fn opt_chars(o: Option<String>) -> Option<Seq<char>> {
    match o {
        Some(s) => Some(s@),
        None => None,
    }
}

impl View for TelemetrySnapshot {
    type V = TelemetryView;

    open spec fn view(&self) -> TelemetryView {
        TelemetryView { uptime_s: self.uptime_s, metrics: self.metrics@, at: self.at }
    }
}

impl View for ProbeSnapshot {
    type V = ProbeView;

    open spec fn view(&self) -> ProbeView {
        ProbeView {
            status: self.status@,
            latency_ms: self.latency_ms,
            status_code: self.status_code,
            checked_at: self.checked_at,
        }
    }
}

/// The model of an optional telemetry snapshot.
pub open spec fn opt_telemetry(o: Option<TelemetrySnapshot>) -> Option<TelemetryView> {
    match o {
        Some(t) => Some(t@),
        None => None,
    }
}

/// The model of an optional probe snapshot.
pub open spec fn opt_probe(o: Option<ProbeSnapshot>) -> Option<ProbeView> {
    match o {
        Some(p) => Some(p@),
        None => None,
    }
}

impl View for NodeRecord {
    type V = NodeView;

    open spec fn view(&self) -> NodeView {
        NodeView {
            node_id: self.node_id@,
            name: opt_chars(self.name),
            region: opt_chars(self.region),
            signal_url: opt_chars(self.signal_url),
            protocol_version: opt_chars(self.protocol_version),
            owner_contact: opt_chars(self.owner_contact),
            first_seen: self.first_seen,
            last_seen: self.last_seen,
            reported: opt_telemetry(self.reported),
            probed: opt_probe(self.probed),
            probe_failures_streak: self.probe_failures_streak,
            bandwidth_recent_kbps: self.bandwidth_recent_kbps,
            turn_urls: strings_view(self.turn_urls),
            relay_capable: self.relay_capable,
            probes_total: self.probes_total,
            probes_answered: self.probes_answered,
        }
    }
}

impl View for NodeMeta {
    type V = MetaView;

    open spec fn view(&self) -> MetaView {
        MetaView {
            name: opt_chars(self.name),
            region: opt_chars(self.region),
            signal_url: opt_chars(self.signal_url),
            protocol_version: opt_chars(self.protocol_version),
            owner_contact: opt_chars(self.owner_contact),
        }
    }
}

fn copy_opt_string(o: &Option<String>) -> (c: Option<String>)
    ensures
        opt_chars(c) == opt_chars(*o),
{
    match o {
        Some(s) => Some(s.clone()),
        None => None,
    }
}

fn copy_strings(v: &Vec<String>) -> (c: Vec<String>)
    ensures
        strings_view(c) == strings_view(*v),
{
    let mut c: Vec<String> = Vec::new();
    let mut i: usize = 0;
    while i < v.len()
        invariant
            i <= v@.len(),
            c@.len() == i,
            forall|j: int| 0 <= j < i ==> (#[trigger] c@[j])@ == v@[j]@,
        decreases v@.len() - i,
    {
        c.push(v[i].clone());
        i = i + 1;
    }
    assert(strings_view(c) =~= strings_view(*v));
    c
}

fn copy_telemetry(t: &TelemetrySnapshot) -> (c: TelemetrySnapshot)
    ensures
        c@ == t@,
{
    TelemetrySnapshot { uptime_s: t.uptime_s, metrics: t.metrics.clone(), at: t.at }
}

fn copy_probe(p: &ProbeSnapshot) -> (c: ProbeSnapshot)
    ensures
        c@ == p@,
{
    ProbeSnapshot {
        status: p.status.clone(),
        latency_ms: p.latency_ms,
        status_code: p.status_code,
        checked_at: p.checked_at,
    }
}

impl NodeRecord {
    /// Share of the directory's probes that this node answered, in
    /// percent rounded up; `None` before its first probe.
    pub fn availability_pct(&self) -> (pct: Option<u64>)
        ensures
            pct == availability(self@),
            pct matches Some(p) ==> p <= 100,
    {
        if self.probes_total == 0 {
            return None;
        }
        let total = self.probes_total as u128;
        let answered = if self.probes_answered <= self.probes_total {
            self.probes_answered as u128
        } else {
            total
        };
        assert(answered * 100 + total - 1 < total * 101) by (nonlinear_arith)
            requires
                answered <= total,
                total >= 1,
        ;
        assert(total * 101 <= 0x1_0000_0000_0000_0000 * 101) by (nonlinear_arith)
            requires
                total < 0x1_0000_0000_0000_0000,
        ;
        let num = answered * 100 + total - 1;
        let pct = num / total;
        assert(pct <= 100) by (nonlinear_arith)
            requires
                pct == num / total,
                num < total * 101,
                total >= 1,
        ;
        Some(pct as u64)
    }

    /// A copy of this record with the same model.
    pub fn snapshot(&self) -> (c: NodeRecord)
        ensures
            c@ == self@,
    {
        NodeRecord {
            node_id: self.node_id.clone(),
            name: copy_opt_string(&self.name),
            region: copy_opt_string(&self.region),
            signal_url: copy_opt_string(&self.signal_url),
            protocol_version: copy_opt_string(&self.protocol_version),
            owner_contact: copy_opt_string(&self.owner_contact),
            first_seen: self.first_seen,
            last_seen: self.last_seen,
            reported: match &self.reported {
                Some(t) => Some(copy_telemetry(t)),
                None => None,
            },
            probed: match &self.probed {
                Some(p) => Some(copy_probe(p)),
                None => None,
            },
            probe_failures_streak: self.probe_failures_streak,
            bandwidth_recent_kbps: self.bandwidth_recent_kbps,
            turn_urls: copy_strings(&self.turn_urls),
            relay_capable: self.relay_capable,
            probes_total: self.probes_total,
            probes_answered: self.probes_answered,
        }
    }
}

// ---------------------------------------------------------------------
// What each operation does to a record
// ---------------------------------------------------------------------

/// A known value is replaced only by a present one.
pub open spec fn merge_field(old: Option<Seq<char>>, new: Option<Seq<char>>) -> Option<Seq<char>> {
    match new {
        Some(v) => Some(v),
        None => old,
    }
}

/// A node seen for the first time at `now`.
pub open spec fn new_node(id: Seq<char>, now: i64, name: Option<Seq<char>>) -> NodeView {
    NodeView {
        node_id: id,
        name: name,
        region: None,
        signal_url: None,
        protocol_version: None,
        owner_contact: None,
        first_seen: now,
        last_seen: now,
        reported: None,
        probed: None,
        probe_failures_streak: 0,
        bandwidth_recent_kbps: None,
        turn_urls: Seq::empty(),
        relay_capable: None,
        probes_total: 0,
        probes_answered: 0,
    }
}

/// The record of `id` after a registration with `meta` at `now`: created
/// when unknown, touched, and every present metadata field taken over.
pub open spec fn registered(nodes: Map<Seq<char>, NodeView>, id: Seq<char>, meta: MetaView, now: i64) -> NodeView {
    let base = if nodes.contains_key(id) {
        nodes[id]
    } else {
        new_node(id, now, None)
    };
    NodeView {
        last_seen: now,
        name: merge_field(base.name, meta.name),
        region: merge_field(base.region, meta.region),
        signal_url: merge_field(base.signal_url, meta.signal_url),
        protocol_version: merge_field(base.protocol_version, meta.protocol_version),
        owner_contact: merge_field(base.owner_contact, meta.owner_contact),
        ..base
    }
}

/// The record of `id` after a telemetry report at `now`: created when
/// unknown (named after its id), touched, signal URL and protocol version
/// taken over when present, the report stored, and the reported TURN URLs
/// replacing the stored ones (a report without them clears them).
pub open spec fn reported(
    nodes: Map<Seq<char>, NodeView>,
    id: Seq<char>,
    meta: MetaView,
    uptime_s: u64,
    metrics: Map<String, u64>,
    turn_urls: Seq<Seq<char>>,
    now: i64,
) -> NodeView {
    let base = if nodes.contains_key(id) {
        nodes[id]
    } else {
        new_node(id, now, Some(id))
    };
    NodeView {
        last_seen: now,
        signal_url: merge_field(base.signal_url, meta.signal_url),
        protocol_version: merge_field(base.protocol_version, meta.protocol_version),
        reported: Some(TelemetryView { uptime_s, metrics, at: now }),
        turn_urls: turn_urls,
        ..base
    }
}

/// Consecutive failures after one more probe: reset by a success,
/// saturating at `u32::MAX` otherwise.
pub open spec fn next_streak(streak: u32, ok: bool) -> u32 {
    if ok {
        0
    } else if streak == u32::MAX {
        u32::MAX
    } else {
        (streak + 1) as u32
    }
}

/// `"up"` after a success or fewer than three consecutive failures,
/// `"down"` otherwise.
pub open spec fn probe_status(ok: bool, streak: u32) -> Seq<char> {
    if ok || streak < 3 {
        "up"@
    } else {
        "down"@
    }
}

/// `n + 1`, saturating at `u64::MAX`.
pub open spec fn count_up(n: u64) -> u64 {
    if n == u64::MAX {
        u64::MAX
    } else {
        (n + 1) as u64
    }
}

/// The record after a probe at `now`: one more probe counted, and one
/// more answered probe when it succeeded.
pub open spec fn probed(rec: NodeView, ok: bool, latency_ms: Option<u64>, status_code: Option<u16>, now: i64) -> NodeView {
    let streak = next_streak(rec.probe_failures_streak, ok);
    NodeView {
        probe_failures_streak: streak,
        probes_total: count_up(rec.probes_total),
        probes_answered: if ok {
            count_up(rec.probes_answered)
        } else {
            rec.probes_answered
        },
        probed: Some(
            ProbeView {
                status: probe_status(ok, streak),
                latency_ms: if ok {
                    latency_ms
                } else {
                    None
                },
                status_code: status_code,
                checked_at: now,
            },
        ),
        ..rec
    }
}

/// The record after a relay check: whether one of its TURN ports answered.
pub open spec fn with_relay_check(rec: NodeView, capable: bool) -> NodeView {
    NodeView { relay_capable: Some(capable), ..rec }
}

/// Share of recorded probes that the node answered, in percent rounded
/// up (so one answered probe shows at least 1); `None` before the first
/// probe. A saved record that counts more answers than probes counts as
/// all answered.
pub open spec fn availability(rec: NodeView) -> Option<u64> {
    if rec.probes_total == 0 {
        None
    } else {
        let answered: int = if rec.probes_answered <= rec.probes_total {
            rec.probes_answered as int
        } else {
            rec.probes_total as int
        };
        Some(((answered * 100 + rec.probes_total - 1) / (rec.probes_total as int)) as u64)
    }
}

/// The record after a bandwidth measurement.
pub open spec fn with_bandwidth(rec: NodeView, kbps: u64) -> NodeView {
    NodeView { bandwidth_recent_kbps: Some(kbps), ..rec }
}

/// The table built from `records` in order, a later record replacing an
/// earlier one with the same id.
pub open spec fn table_of(records: Seq<NodeView>) -> Map<Seq<char>, NodeView>
    decreases records.len(),
{
    if records.len() == 0 {
        Map::empty()
    } else {
        table_of(records.drop_last()).insert(records.last().node_id, records.last())
    }
}

// ---------------------------------------------------------------------
// The directory
// ---------------------------------------------------------------------

/// The node table, modelled as a map from node id to record.
pub struct Directory {
    ids: Vec<Vec<char>>,
    nodes: Vec<NodeRecord>,
}

impl View for Directory {
    type V = Map<Seq<char>, NodeView>;

    closed spec fn view(&self) -> Map<Seq<char>, NodeView> {
        Map::new(|k: Seq<char>| self.has_id(k), |k: Seq<char>| self.nodes@[self.index_of(k)]@)
    }
}

impl Directory {
    /// Ids are cached as characters, strictly increasing.
    pub closed spec fn wf(&self) -> bool {
        &&& self.ids@.len() == self.nodes@.len()
        &&& forall|i: int| 0 <= i < self.ids@.len() ==> #[trigger] self.ids@[i]@ == self.nodes@[i].node_id@
        &&& forall|i: int, j: int|
            0 <= i < j < self.ids@.len() ==> chars_lt(#[trigger] self.ids@[i]@, #[trigger] self.ids@[j]@)
    }

    spec fn has_id(&self, k: Seq<char>) -> bool {
        exists|i: int| 0 <= i < self.nodes@.len() && #[trigger] self.nodes@[i].node_id@ == k
    }

    spec fn index_of(&self, k: Seq<char>) -> int {
        choose|i: int| 0 <= i < self.nodes@.len() && #[trigger] self.nodes@[i].node_id@ == k
    }

    proof fn lemma_ids_distinct(&self, i: int, j: int)
        requires
            self.wf(),
            0 <= i < self.nodes@.len(),
            0 <= j < self.nodes@.len(),
            i != j,
        ensures
            self.nodes@[i].node_id@ != self.nodes@[j].node_id@,
    {
        assert(self.ids@[i]@ == self.nodes@[i].node_id@);
        assert(self.ids@[j]@ == self.nodes@[j].node_id@);
        if i < j {
            lemma_chars_lt_asymmetric(self.ids@[i]@, self.ids@[j]@);
        } else {
            lemma_chars_lt_asymmetric(self.ids@[j]@, self.ids@[i]@);
        }
    }

    proof fn lemma_view_at(&self, i: int)
        requires
            self.wf(),
            0 <= i < self.nodes@.len(),
        ensures
            self@.contains_key(self.nodes@[i].node_id@),
            self@[self.nodes@[i].node_id@] == self.nodes@[i]@,
    {
        let k = self.nodes@[i].node_id@;
        assert(self.has_id(k));
        let j = self.index_of(k);
        if j != i {
            self.lemma_ids_distinct(i, j);
        }
    }

    /// Every record of a well-formed directory is stored under its own id.
    pub proof fn lemma_keyed_by_id(&self)
        requires
            self.wf(),
        ensures
            keyed_by_id(self@),
    {
        assert forall|k: Seq<char>| #[trigger] self@.contains_key(k) implies self@[k].node_id == k by {
            let i = self.index_of(k);
            self.lemma_view_at(i);
        }
    }

    /// The model is `m` when the records are exactly `m`'s entries.
    proof fn lemma_view_is(&self, m: Map<Seq<char>, NodeView>)
        requires
            self.wf(),
            forall|i: int|
                0 <= i < self.nodes@.len() ==> #[trigger] m.contains_key(self.nodes@[i].node_id@)
                    && m[self.nodes@[i].node_id@] == self.nodes@[i]@,
            forall|k: Seq<char>| #[trigger] m.contains_key(k) ==> self.has_id(k),
        ensures
            self@ == m,
    {
        assert forall|k: Seq<char>| #[trigger] self@.contains_key(k) <==> m.contains_key(k) by {
            if self.has_id(k) {
                let i = self.index_of(k);
                assert(m.contains_key(self.nodes@[i].node_id@));
            }
        }
        assert forall|k: Seq<char>| #[trigger] self@.contains_key(k) implies self@[k] == m[k] by {
            let i = self.index_of(k);
            assert(m.contains_key(self.nodes@[i].node_id@));
        }
        assert(self@ =~= m);
    }

    /// Where `key` is, or would go, in the sorted table.
    fn find(&self, key: &Vec<char>) -> (r: (bool, usize))
        requires
            self.wf(),
        ensures
            r.1 <= self.nodes@.len(),
            forall|j: int| 0 <= j < r.1 ==> chars_lt(#[trigger] self.ids@[j]@, key@),
            r.1 < self.nodes@.len() && !r.0 ==> chars_lt(key@, self.ids@[r.1 as int]@),
            r.0 ==> r.1 < self.nodes@.len() && self.ids@[r.1 as int]@ == key@,
            r.0 ==> self@.contains_key(key@) && self@[key@] == self.nodes@[r.1 as int]@,
            !r.0 ==> !self@.contains_key(key@),
    {
        let n = self.ids.len();
        let mut i: usize = 0;
        while i < n
            invariant
                self.wf(),
                n == self.ids@.len(),
                i <= n,
                forall|j: int| 0 <= j < i ==> chars_lt(#[trigger] self.ids@[j]@, key@),
            decreases n - i,
        {
            match compare_chars(&self.ids[i], key) {
                Order::Less => {
                    i = i + 1;
                },
                Order::Equal => {
                    proof {
                        self.lemma_view_at(i as int);
                    }
                    return (true, i);
                },
                Order::Greater => {
                    proof {
                        self.lemma_absent(key@, i as int);
                    }
                    return (false, i);
                },
            }
        }
        proof {
            self.lemma_absent(key@, n as int);
        }
        (false, n)
    }

    proof fn lemma_absent(&self, key: Seq<char>, p: int)
        requires
            self.wf(),
            0 <= p <= self.nodes@.len(),
            forall|j: int| 0 <= j < p ==> chars_lt(#[trigger] self.ids@[j]@, key),
            p < self.nodes@.len() ==> chars_lt(key, self.ids@[p]@),
        ensures
            !self@.contains_key(key),
    {
        if self.has_id(key) {
            let i = self.index_of(key);
            assert(self.ids@[i]@ == key);
            if i < p {
                lemma_chars_lt_asymmetric(self.ids@[i]@, key);
            } else if i == p {
                lemma_chars_lt_asymmetric(key, self.ids@[i]@);
            } else {
                assert(chars_lt(self.ids@[p]@, self.ids@[i]@));
                lemma_chars_lt_transitive(key, self.ids@[p]@, self.ids@[i]@);
                lemma_chars_lt_asymmetric(key, self.ids@[i]@);
            }
        }
    }

    /// Stores `rec` under `key`, replacing the record at `p` or inserting
    /// it there, as `find` located it.
    fn store(&mut self, key: Vec<char>, rec: NodeRecord, found: bool, p: usize)
        requires
            old(self).wf(),
            key@ == rec.node_id@,
            p <= old(self).nodes@.len(),
            forall|j: int| 0 <= j < p ==> chars_lt(#[trigger] old(self).ids@[j]@, key@),
            p < old(self).nodes@.len() && !found ==> chars_lt(key@, old(self).ids@[p as int]@),
            found ==> p < old(self).nodes@.len() && old(self).ids@[p as int]@ == key@,
            !found ==> !old(self)@.contains_key(key@),
        ensures
            final(self).wf(),
            final(self)@ == old(self)@.insert(key@, rec@),
    {
        let ghost old_self = *self;
        let ghost k = key@;
        let ghost v = rec@;
        let ghost m = old_self@.insert(k, v);
        if found {
            self.ids.set(p, key);
            self.nodes.set(p, rec);
            assert forall|i: int| 0 <= i < self.ids@.len() implies #[trigger] self.ids@[i]@
                == self.nodes@[i].node_id@ by {
                if i != p {
                    assert(old_self.ids@[i]@ == old_self.nodes@[i].node_id@);
                }
            }
            assert forall|i: int, j: int|
                0 <= i < j < self.ids@.len() implies chars_lt(
                #[trigger] self.ids@[i]@,
                #[trigger] self.ids@[j]@,
            ) by {
                assert(chars_lt(old_self.ids@[i]@, old_self.ids@[j]@));
            }
            assert forall|i: int| 0 <= i < self.nodes@.len() implies #[trigger] m.contains_key(
                self.nodes@[i].node_id@,
            ) && m[self.nodes@[i].node_id@] == self.nodes@[i]@ by {
                if i != p {
                    old_self.lemma_view_at(i);
                    old_self.lemma_ids_distinct(i, p as int);
                }
            }
            assert forall|kk: Seq<char>| #[trigger] m.contains_key(kk) implies self.has_id(kk) by {
                if kk == k {
                    assert(self.nodes@[p as int].node_id@ == kk);
                } else {
                    let i = old_self.index_of(kk);
                    assert(self.nodes@[i].node_id@ == kk);
                }
            }
            proof {
                self.lemma_view_is(m);
            }
        } else {
            self.ids.insert(p, key);
            self.nodes.insert(p, rec);
            assert forall|i: int| 0 <= i < self.ids@.len() implies #[trigger] self.ids@[i]@
                == self.nodes@[i].node_id@ by {
                if i < p {
                    assert(old_self.ids@[i]@ == old_self.nodes@[i].node_id@);
                } else if i > p {
                    assert(old_self.ids@[i - 1]@ == old_self.nodes@[i - 1].node_id@);
                }
            }
            assert forall|i: int, j: int|
                0 <= i < j < self.ids@.len() implies chars_lt(
                #[trigger] self.ids@[i]@,
                #[trigger] self.ids@[j]@,
            ) by {
                if j < p {
                    assert(chars_lt(old_self.ids@[i]@, old_self.ids@[j]@));
                } else if j == p {
                    assert(chars_lt(old_self.ids@[i]@, k));
                } else if i > p {
                    assert(chars_lt(old_self.ids@[i - 1]@, old_self.ids@[j - 1]@));
                } else if i == p {
                    assert(chars_lt(k, old_self.ids@[p as int]@));
                    if j - 1 > p {
                        assert(chars_lt(old_self.ids@[p as int]@, old_self.ids@[j - 1]@));
                        lemma_chars_lt_transitive(k, old_self.ids@[p as int]@, old_self.ids@[j - 1]@);
                    }
                } else {
                    assert(chars_lt(old_self.ids@[i]@, k));
                    assert(chars_lt(k, old_self.ids@[p as int]@));
                    lemma_chars_lt_transitive(old_self.ids@[i]@, k, old_self.ids@[p as int]@);
                    if j - 1 > p {
                        assert(chars_lt(old_self.ids@[p as int]@, old_self.ids@[j - 1]@));
                        lemma_chars_lt_transitive(old_self.ids@[i]@, old_self.ids@[p as int]@, old_self.ids@[j - 1]@);
                    }
                }
            }
            assert forall|i: int| 0 <= i < self.nodes@.len() implies #[trigger] m.contains_key(
                self.nodes@[i].node_id@,
            ) && m[self.nodes@[i].node_id@] == self.nodes@[i]@ by {
                if i < p {
                    old_self.lemma_view_at(i);
                } else if i > p {
                    old_self.lemma_view_at(i - 1);
                }
            }
            assert forall|kk: Seq<char>| #[trigger] m.contains_key(kk) implies self.has_id(kk) by {
                if kk == k {
                    assert(self.nodes@[p as int].node_id@ == kk);
                } else {
                    let i = old_self.index_of(kk);
                    if i < p {
                        assert(self.nodes@[i].node_id@ == kk);
                    } else {
                        assert(self.nodes@[i + 1].node_id@ == kk);
                    }
                }
            }
            proof {
                self.lemma_view_is(m);
            }
        }
    }

    /// An empty directory.
    pub fn in_memory() -> (d: Directory)
        ensures
            d.wf(),
            d@ == Map::<Seq<char>, NodeView>::empty(),
    {
        let d = Directory { ids: Vec::new(), nodes: Vec::new() };
        assert(d@ =~= Map::<Seq<char>, NodeView>::empty());
        d
    }

    /// A directory holding `records`, a later record replacing an earlier
    /// one with the same id (as when a saved table is read back).
    pub fn restore(records: Vec<NodeRecord>) -> (d: Directory)
        ensures
            d.wf(),
            d@ == table_of(records@.map_values(|r: NodeRecord| r@)),
    {
        let mut d = Directory::in_memory();
        let ghost views = records@.map_values(|r: NodeRecord| r@);
        let n = records.len();
        let mut i: usize = 0;
        while i < n
            invariant
                d.wf(),
                n == records@.len(),
                i <= n,
                views == records@.map_values(|r: NodeRecord| r@),
                d@ == table_of(views.take(i as int)),
            decreases n - i,
        {
            let rec = records[i].snapshot();
            let key = chars_of(rec.node_id.as_str());
            let (found, p) = d.find(&key);
            d.store(key, rec, found, p);
            assert(views.take(i + 1).drop_last() =~= views.take(i as int));
            i = i + 1;
        }
        assert(views.take(n as int) =~= views);
        d
    }

    /// Registers or updates `node_id` with `meta` at time `now`, returning
    /// the stored record.
    pub fn upsert_at(&mut self, node_id: &str, meta: NodeMeta, now: i64) -> (r: NodeRecord)
        requires
            old(self).wf(),
        ensures
            final(self).wf(),
            r@ == registered(old(self)@, node_id@, meta@, now),
            final(self)@ == old(self)@.insert(node_id@, r@),
    {
        let key = chars_of(node_id);
        let (found, p) = self.find(&key);
        let base = if found {
            self.nodes[p].snapshot()
        } else {
            NodeRecord {
                node_id: node_id.to_owned(),
                name: None,
                region: None,
                signal_url: None,
                protocol_version: None,
                owner_contact: None,
                first_seen: now,
                last_seen: now,
                reported: None,
                probed: None,
                probe_failures_streak: 0,
                bandwidth_recent_kbps: None,
                turn_urls: Vec::new(),
                relay_capable: None,
                probes_total: 0,
                probes_answered: 0,
            }
        };
        assert(found || strings_view(base.turn_urls) =~= Seq::<Seq<char>>::empty());
        let rec = NodeRecord {
            last_seen: now,
            name: if meta.name.is_some() { meta.name } else { base.name },
            region: if meta.region.is_some() { meta.region } else { base.region },
            signal_url: if meta.signal_url.is_some() { meta.signal_url } else { base.signal_url },
            protocol_version: if meta.protocol_version.is_some() {
                meta.protocol_version
            } else {
                base.protocol_version
            },
            owner_contact: if meta.owner_contact.is_some() {
                meta.owner_contact
            } else {
                base.owner_contact
            },
            ..base
        };
        let out = rec.snapshot();
        self.store(key, rec, found, p);
        out
    }

    /// Registers or updates `node_id` with `meta`, stamped with the
    /// current time, returning the stored record.
    pub fn upsert(&mut self, node_id: &str, meta: NodeMeta) -> (r: NodeRecord)
        requires
            old(self).wf(),
        ensures
            final(self).wf(),
            r@ == registered(old(self)@, node_id@, meta@, r@.last_seen),
            final(self)@ == old(self)@.insert(node_id@, r@),
    {
        let now = now_secs();
        self.upsert_at(node_id, meta, now)
    }

    /// Records a telemetry report from `node_id` at time `now`,
    /// registering the node when it is unknown.
    pub fn apply_report_at(
        &mut self,
        node_id: &str,
        meta: NodeMeta,
        uptime_s: u64,
        metrics: HashMap<String, u64>,
        turn_urls: Vec<String>,
        now: i64,
    ) -> (r: NodeRecord)
        requires
            old(self).wf(),
        ensures
            final(self).wf(),
            r@ == reported(old(self)@, node_id@, meta@, uptime_s, metrics@, strings_view(turn_urls), now),
            !old(self)@.contains_key(node_id@) ==> r.probe_failures_streak == 0 && r.probed is None
                && r.first_seen == now && r.last_seen == now,
            final(self)@ == old(self)@.insert(node_id@, r@),
    {
        let key = chars_of(node_id);
        let (found, p) = self.find(&key);
        let base = if found {
            self.nodes[p].snapshot()
        } else {
            NodeRecord {
                node_id: node_id.to_owned(),
                name: Some(node_id.to_owned()),
                region: None,
                signal_url: None,
                protocol_version: None,
                owner_contact: None,
                first_seen: now,
                last_seen: now,
                reported: None,
                probed: None,
                probe_failures_streak: 0,
                bandwidth_recent_kbps: None,
                turn_urls: Vec::new(),
                relay_capable: None,
                probes_total: 0,
                probes_answered: 0,
            }
        };
        assert(found || strings_view(base.turn_urls) =~= Seq::<Seq<char>>::empty());
        let rec = NodeRecord {
            last_seen: now,
            signal_url: if meta.signal_url.is_some() { meta.signal_url } else { base.signal_url },
            protocol_version: if meta.protocol_version.is_some() {
                meta.protocol_version
            } else {
                base.protocol_version
            },
            reported: Some(TelemetrySnapshot { uptime_s, metrics, at: now }),
            turn_urls: turn_urls,
            ..base
        };
        let out = rec.snapshot();
        self.store(key, rec, found, p);
        out
    }

    /// Records a telemetry report from `node_id`, stamped with the
    /// current time, registering the node when it is unknown.
    pub fn apply_report(
        &mut self,
        node_id: &str,
        meta: NodeMeta,
        uptime_s: u64,
        metrics: HashMap<String, u64>,
        turn_urls: Vec<String>,
    ) -> (r: NodeRecord)
        requires
            old(self).wf(),
        ensures
            final(self).wf(),
            r@ == reported(
                old(self)@,
                node_id@,
                meta@,
                uptime_s,
                metrics@,
                strings_view(turn_urls),
                r@.last_seen,
            ),
            final(self)@ == old(self)@.insert(node_id@, r@),
    {
        let now = now_secs();
        self.apply_report_at(node_id, meta, uptime_s, metrics, turn_urls, now)
    }

    /// Records a probe of `node_id` at time `now`. Unknown nodes are left
    /// alone; the result tells whether the node was known.
    pub fn set_probe_at(
        &mut self,
        node_id: &str,
        ok: bool,
        latency_ms: Option<u64>,
        status_code: Option<u16>,
        now: i64,
    ) -> (recorded: bool)
        requires
            old(self).wf(),
        ensures
            final(self).wf(),
            recorded == old(self)@.contains_key(node_id@),
            recorded ==> final(self)@ == old(self)@.insert(
                node_id@,
                probed(old(self)@[node_id@], ok, latency_ms, status_code, now),
            ),
            !recorded ==> final(self)@ == old(self)@,
    {
        let key = chars_of(node_id);
        let (found, p) = self.find(&key);
        if !found {
            return false;
        }
        let base = self.nodes[p].snapshot();
        let streak = if ok {
            0
        } else {
            base.probe_failures_streak.saturating_add(1)
        };
        let status = if ok || streak < 3 {
            "up".to_owned()
        } else {
            "down".to_owned()
        };
        let probes_total = base.probes_total.saturating_add(1);
        let probes_answered = if ok {
            base.probes_answered.saturating_add(1)
        } else {
            base.probes_answered
        };
        let rec = NodeRecord {
            probe_failures_streak: streak,
            probes_total: probes_total,
            probes_answered: probes_answered,
            probed: Some(
                ProbeSnapshot {
                    status: status,
                    latency_ms: if ok {
                        latency_ms
                    } else {
                        None
                    },
                    status_code: status_code,
                    checked_at: now,
                },
            ),
            ..base
        };
        self.store(key, rec, found, p);
        true
    }

    /// Records a probe of `node_id`, stamped with the current time.
    /// Unknown nodes are left alone; the result tells whether the node
    /// was known.
    pub fn set_probe(
        &mut self,
        node_id: &str,
        ok: bool,
        latency_ms: Option<u64>,
        status_code: Option<u16>,
    ) -> (recorded: bool)
        requires
            old(self).wf(),
        ensures
            final(self).wf(),
            recorded == old(self)@.contains_key(node_id@),
            recorded ==> final(self)@ == old(self)@.insert(
                node_id@,
                probed(
                    old(self)@[node_id@],
                    ok,
                    latency_ms,
                    status_code,
                    final(self)@[node_id@].probed.unwrap().checked_at,
                ),
            ),
            !recorded ==> final(self)@ == old(self)@,
    {
        let now = now_secs();
        self.set_probe_at(node_id, ok, latency_ms, status_code, now)
    }

    /// Records a bandwidth measurement for `node_id`. Unknown nodes are
    /// left alone; the result tells whether the node was known.
    pub fn set_bandwidth(&mut self, node_id: &str, kbps: u64) -> (recorded: bool)
        requires
            old(self).wf(),
        ensures
            final(self).wf(),
            recorded == old(self)@.contains_key(node_id@),
            recorded ==> final(self)@ == old(self)@.insert(
                node_id@,
                with_bandwidth(old(self)@[node_id@], kbps),
            ),
            !recorded ==> final(self)@ == old(self)@,
    {
        let key = chars_of(node_id);
        let (found, p) = self.find(&key);
        if !found {
            return false;
        }
        let base = self.nodes[p].snapshot();
        let rec = NodeRecord { bandwidth_recent_kbps: Some(kbps), ..base };
        self.store(key, rec, found, p);
        true
    }

    /// Records the outcome of a relay check of `node_id`. Unknown nodes
    /// are left alone; the result tells whether the node was known.
    pub fn set_relay_capable(&mut self, node_id: &str, capable: bool) -> (recorded: bool)
        requires
            old(self).wf(),
        ensures
            final(self).wf(),
            recorded == old(self)@.contains_key(node_id@),
            recorded ==> final(self)@ == old(self)@.insert(
                node_id@,
                with_relay_check(old(self)@[node_id@], capable),
            ),
            !recorded ==> final(self)@ == old(self)@,
    {
        let key = chars_of(node_id);
        let (found, p) = self.find(&key);
        if !found {
            return false;
        }
        let base = self.nodes[p].snapshot();
        let rec = NodeRecord { relay_capable: Some(capable), ..base };
        self.store(key, rec, found, p);
        true
    }

    /// All records, sorted by node id.
    pub fn list(&self) -> (v: Vec<NodeRecord>)
        requires
            self.wf(),
        ensures
            forall|i: int, j: int|
                0 <= i < j < v@.len() ==> chars_lt(#[trigger] v@[i].node_id@, #[trigger] v@[j].node_id@),
            forall|i: int|
                0 <= i < v@.len() ==> self@.contains_key(#[trigger] v@[i].node_id@)
                    && self@[v@[i].node_id@] == v@[i]@,
            forall|k: Seq<char>|
                #[trigger] self@.contains_key(k) ==> exists|i: int|
                    0 <= i < v@.len() && #[trigger] v@[i].node_id@ == k,
    {
        let mut v: Vec<NodeRecord> = Vec::new();
        let n = self.nodes.len();
        let mut i: usize = 0;
        while i < n
            invariant
                self.wf(),
                n == self.nodes@.len(),
                i <= n,
                v@.len() == i,
                forall|j: int| 0 <= j < i ==> (#[trigger] v@[j])@ == self.nodes@[j]@,
            decreases n - i,
        {
            v.push(self.nodes[i].snapshot());
            i = i + 1;
        }
        assert forall|i: int, j: int|
            0 <= i < j < v@.len() implies chars_lt(#[trigger] v@[i].node_id@, #[trigger] v@[j].node_id@) by {
            assert(v@[i]@ == self.nodes@[i]@);
            assert(v@[j]@ == self.nodes@[j]@);
            assert(self.ids@[i]@ == self.nodes@[i].node_id@);
            assert(self.ids@[j]@ == self.nodes@[j].node_id@);
            assert(chars_lt(self.ids@[i]@, self.ids@[j]@));
        }
        assert forall|i: int| 0 <= i < v@.len() implies self@.contains_key(#[trigger] v@[i].node_id@)
            && self@[v@[i].node_id@] == v@[i]@ by {
            assert(v@[i]@ == self.nodes@[i]@);
            self.lemma_view_at(i);
        }
        assert forall|k: Seq<char>| #[trigger] self@.contains_key(k) implies exists|i: int|
            0 <= i < v@.len() && #[trigger] v@[i].node_id@ == k by {
            let i = self.index_of(k);
            assert(v@[i]@ == self.nodes@[i]@);
            assert(v@[i].node_id@ == k);
        }
        v
    }

    /// The record of `node_id`, if it is known.
    pub fn get(&self, node_id: &str) -> (r: Option<NodeRecord>)
        requires
            self.wf(),
        ensures
            match r {
                Some(rec) => self@.contains_key(node_id@) && rec@ == self@[node_id@],
                None => !self@.contains_key(node_id@),
            },
    {
        let key = chars_of(node_id);
        let (found, p) = self.find(&key);
        if found {
            Some(self.nodes[p].snapshot())
        } else {
            None
        }
    }
}

// ---------------------------------------------------------------------
// Laws
// ---------------------------------------------------------------------

/// A probed record's status agrees with its failure streak: `"down"`
/// exactly when at least three probes in a row failed, `"up"` otherwise.
pub open spec fn probe_consistent(rec: NodeView) -> bool {
    match rec.probed {
        Some(p) => {
            &&& (p.status == "up"@ || p.status == "down"@)
            &&& (p.status == "down"@ <==> rec.probe_failures_streak >= 3)
        },
        None => true,
    }
}

/// Every record of the table is [`probe_consistent`].
pub open spec fn table_consistent(m: Map<Seq<char>, NodeView>) -> bool {
    forall|k: Seq<char>| #[trigger] m.contains_key(k) ==> probe_consistent(m[k])
}

/// After any probe the status is `"up"` or `"down"`, `"down"` exactly when
/// the streak of consecutive failures has reached three; a failed probe
/// records no latency, a successful one records the measured latency.
pub proof fn lemma_probe_outcome(
    rec: NodeView,
    ok: bool,
    latency_ms: Option<u64>,
    status_code: Option<u16>,
    now: i64,
)
    ensures
        probe_consistent(probed(rec, ok, latency_ms, status_code, now)),
        probed(rec, ok, latency_ms, status_code, now).probed.unwrap().latency_ms == (if ok {
            latency_ms
        } else {
            None
        }),
        probed(rec, ok, latency_ms, status_code, now).probed.unwrap().status_code == status_code,
        ok ==> probed(rec, ok, latency_ms, status_code, now).probe_failures_streak == 0,
        ok ==> probed(rec, ok, latency_ms, status_code, now).probed.unwrap().status == "up"@,
{
    reveal_strlit("up");
    reveal_strlit("down");
    assert("up"@.len() != "down"@.len());
    let streak = next_streak(rec.probe_failures_streak, ok);
    if ok || streak < 3 {
        assert(probe_status(ok, streak) == "up"@);
    } else {
        assert(probe_status(ok, streak) == "down"@);
    }
}

/// Three failed probes in a row mark a node `"down"`, whatever came
/// before; starting from a success (or no probe), the first two failures
/// still leave it `"up"`. One successful probe brings it back `"up"`.
pub proof fn lemma_three_failures_mark_down(
    rec: NodeView,
    codes: (Option<u16>, Option<u16>, Option<u16>),
    latencies: (Option<u64>, Option<u64>, Option<u64>),
    times: (i64, i64, i64),
)
    ensures
        ({
            let r1 = probed(rec, false, latencies.0, codes.0, times.0);
            let r2 = probed(r1, false, latencies.1, codes.1, times.1);
            let r3 = probed(r2, false, latencies.2, codes.2, times.2);
            &&& r3.probed.unwrap().status == "down"@
            &&& r3.probe_failures_streak >= 3
            &&& rec.probe_failures_streak == 0 ==> r1.probed.unwrap().status == "up"@
                && r2.probed.unwrap().status == "up"@ && r3.probe_failures_streak == 3
            &&& probed(r3, true, latencies.0, codes.0, times.0).probed.unwrap().status == "up"@
        }),
{
    reveal_strlit("up");
    reveal_strlit("down");
}

/// The record after failed probes, one per element of `probes` (latency
/// reported, status code, time), applied in order.
pub open spec fn after_failures(rec: NodeView, probes: Seq<(Option<u64>, Option<u16>, i64)>) -> NodeView
    decreases probes.len(),
{
    if probes.len() == 0 {
        rec
    } else {
        let p = probes.last();
        probed(after_failures(rec, probes.drop_last()), false, p.0, p.1, p.2)
    }
}

/// After `k >= 1` failed probes in a row the streak is the earlier streak
/// plus `k`, capped at `u32::MAX`; the status is `"down"` exactly when that
/// reaches three, and no latency is recorded. From a streak of 0 (a new
/// node, or one whose last probe succeeded) the node is `"down"` exactly
/// from the third failure on.
pub proof fn lemma_consecutive_failures(rec: NodeView, probes: Seq<(Option<u64>, Option<u16>, i64)>)
    requires
        probes.len() >= 1,
    ensures
        ({
            let r = after_failures(rec, probes);
            let total = rec.probe_failures_streak + probes.len();
            let streak = if total <= u32::MAX { total } else { u32::MAX as int };
            &&& r.probe_failures_streak == streak
            &&& r.probed.unwrap().status == (if streak >= 3 { "down"@ } else { "up"@ })
            &&& r.probed.unwrap().latency_ms is None
            &&& r.probed.unwrap().status_code == probes.last().1
            &&& r.probed.unwrap().checked_at == probes.last().2
            &&& rec.probe_failures_streak == 0 ==> r.probe_failures_streak == (if probes.len() <= u32::MAX { probes.len() as int } else { u32::MAX as int })
                && r.probed.unwrap().status == (if probes.len() >= 3 { "down"@ } else { "up"@ })
        }),
    decreases probes.len(),
{
    let prev = after_failures(rec, probes.drop_last());
    let p = probes.last();
    assert(after_failures(rec, probes) == probed(prev, false, p.0, p.1, p.2));
    if probes.len() > 1 {
        lemma_consecutive_failures(rec, probes.drop_last());
    } else {
        assert(prev == rec);
    }
}

/// Availability is a percentage: absent before the first probe, at most
/// 100 once there is one. After a probe it is present; after an answered
/// probe it is above 0, and after a failed one of a node that never
/// answered it is 0.
pub proof fn lemma_availability(
    rec: NodeView,
    ok: bool,
    latency_ms: Option<u64>,
    status_code: Option<u16>,
    now: i64,
)
    ensures
        availability(rec) is None <==> rec.probes_total == 0,
        availability(rec) matches Some(p) ==> p <= 100,
        ({
            let r = probed(rec, ok, latency_ms, status_code, now);
            &&& availability(r) is Some
            &&& ok ==> availability(r).unwrap() > 0
            &&& !ok && rec.probes_answered == 0 ==> availability(r).unwrap() == 0
        }),
{
    let r = probed(rec, ok, latency_ms, status_code, now);
    if rec.probes_total > 0 {
        let t = rec.probes_total as int;
        let a: int = if rec.probes_answered <= rec.probes_total { rec.probes_answered as int } else { t };
        assert((a * 100 + t - 1) / t <= 100) by (nonlinear_arith)
            requires
                0 <= a <= t,
                t >= 1,
        ;
    }
    let t = r.probes_total as int;
    let a: int = if r.probes_answered <= r.probes_total { r.probes_answered as int } else { t };
    assert(t >= 1);
    assert(0 <= a <= t);
    assert(0 <= (a * 100 + t - 1) / t <= 100) by (nonlinear_arith)
        requires
            0 <= a <= t,
            t >= 1,
    ;
    assert(availability(r) == Some(((a * 100 + t - 1) / t) as u64));
    if ok {
        assert(a >= 1);
        assert((a * 100 + t - 1) / t >= 1) by (nonlinear_arith)
            requires
                1 <= a,
                t >= 1,
        ;
    } else if rec.probes_answered == 0 {
        assert(a == 0);
        assert((t - 1) / t == 0) by (nonlinear_arith)
            requires
                t >= 1,
        ;
    }
}

/// Registration, reports, probes, bandwidth measurements and relay checks keep every
/// record's probe status in agreement with its failure streak.
pub proof fn lemma_operations_keep_probes_consistent(
    m: Map<Seq<char>, NodeView>,
    id: Seq<char>,
    meta: MetaView,
    uptime_s: u64,
    metrics: Map<String, u64>,
    turn_urls: Seq<Seq<char>>,
    ok: bool,
    latency_ms: Option<u64>,
    status_code: Option<u16>,
    kbps: u64,
    capable: bool,
    now: i64,
)
    requires
        table_consistent(m),
    ensures
        table_consistent(m.insert(id, registered(m, id, meta, now))),
        table_consistent(m.insert(id, reported(m, id, meta, uptime_s, metrics, turn_urls, now))),
        m.contains_key(id) ==> table_consistent(
            m.insert(id, probed(m[id], ok, latency_ms, status_code, now)),
        ),
        m.contains_key(id) ==> table_consistent(m.insert(id, with_bandwidth(m[id], kbps))),
        m.contains_key(id) ==> table_consistent(m.insert(id, with_relay_check(m[id], capable))),
{
    lemma_probe_outcome(if m.contains_key(id) { m[id] } else { new_node(id, now, None) }, ok, latency_ms, status_code, now);
    assert(m.contains_key(id) ==> probe_consistent(m[id]));
}

/// Every record is stored under its own id.
pub open spec fn keyed_by_id(m: Map<Seq<char>, NodeView>) -> bool {
    forall|k: Seq<char>| #[trigger] m.contains_key(k) ==> m[k].node_id == k
}

/// Registering a known node keeps what the registration does not carry:
/// absent metadata fields, first sighting, the last report, probe state
/// and bandwidth. An unknown node starts with `first_seen == last_seen`.
pub proof fn lemma_registration_merges(m: Map<Seq<char>, NodeView>, id: Seq<char>, meta: MetaView, now: i64)
    requires
        keyed_by_id(m),
    ensures
        ({
            let r = registered(m, id, meta, now);
            &&& r.node_id == id
            &&& r.last_seen == now
            &&& meta.name is None && m.contains_key(id) ==> r.name == m[id].name
            &&& meta.region is None && m.contains_key(id) ==> r.region == m[id].region
            &&& meta.signal_url is None && m.contains_key(id) ==> r.signal_url == m[id].signal_url
            &&& meta.protocol_version is None && m.contains_key(id) ==> r.protocol_version
                == m[id].protocol_version
            &&& meta.owner_contact is None && m.contains_key(id) ==> r.owner_contact
                == m[id].owner_contact
            &&& meta.name is Some ==> r.name == meta.name
            &&& meta.region is Some ==> r.region == meta.region
            &&& meta.signal_url is Some ==> r.signal_url == meta.signal_url
            &&& meta.protocol_version is Some ==> r.protocol_version == meta.protocol_version
            &&& meta.owner_contact is Some ==> r.owner_contact == meta.owner_contact
            &&& m.contains_key(id) ==> {
                &&& r.first_seen == m[id].first_seen
                &&& r.reported == m[id].reported
                &&& r.probed == m[id].probed
                &&& r.probe_failures_streak == m[id].probe_failures_streak
                &&& r.bandwidth_recent_kbps == m[id].bandwidth_recent_kbps
                &&& r.turn_urls == m[id].turn_urls
                &&& r.relay_capable == m[id].relay_capable
                &&& r.probes_total == m[id].probes_total
                &&& r.probes_answered == m[id].probes_answered
            }
            &&& !m.contains_key(id) ==> r.first_seen == now && r.probed is None
                && r.reported is None && r.probe_failures_streak == 0
        }),
{
}

/// A report registers an unknown node under its own id as name; it
/// replaces the stored report and TURN URLs, merges signal URL and
/// protocol version as a registration does, and keeps everything else of
/// a known node (its probe state and relay check among them).
pub proof fn lemma_report_merges(
    m: Map<Seq<char>, NodeView>,
    id: Seq<char>,
    meta: MetaView,
    uptime_s: u64,
    metrics: Map<String, u64>,
    turn_urls: Seq<Seq<char>>,
    now: i64,
)
    requires
        keyed_by_id(m),
    ensures
        ({
            let r = reported(m, id, meta, uptime_s, metrics, turn_urls, now);
            &&& r.node_id == id
            &&& r.last_seen == now
            &&& r.reported == Some(TelemetryView { uptime_s, metrics, at: now })
            &&& r.turn_urls == turn_urls
            &&& r.signal_url == merge_field(if m.contains_key(id) { m[id].signal_url } else { None }, meta.signal_url)
            &&& r.protocol_version == merge_field(if m.contains_key(id) { m[id].protocol_version } else { None }, meta.protocol_version)
            &&& !m.contains_key(id) ==> r.name == Some(id) && r.first_seen == now
                && r.probed is None && r.probe_failures_streak == 0 && r.probes_total == 0
                && r.probes_answered == 0 && r.bandwidth_recent_kbps is None
                && r.region is None && r.owner_contact is None
            &&& m.contains_key(id) ==> {
                &&& r.name == m[id].name
                &&& r.region == m[id].region
                &&& r.owner_contact == m[id].owner_contact
                &&& r.first_seen == m[id].first_seen
                &&& r.probed == m[id].probed
                &&& r.probe_failures_streak == m[id].probe_failures_streak
                &&& r.bandwidth_recent_kbps == m[id].bandwidth_recent_kbps
                &&& r.relay_capable == m[id].relay_capable
                &&& r.probes_total == m[id].probes_total
                &&& r.probes_answered == m[id].probes_answered
            }
            &&& !m.contains_key(id) ==> r.relay_capable is None && r.probes_total == 0
        }),
{
}

/// A node first seen through a report starts with no failures: one
/// failed probe after it leaves the node `"up"` with a streak of 1, and it
/// takes three failed probes for it to be `"down"`, as for a node first
/// seen through a registration.
pub proof fn lemma_reported_node_starts_fresh(
    m: Map<Seq<char>, NodeView>,
    id: Seq<char>,
    meta: MetaView,
    uptime_s: u64,
    metrics: Map<String, u64>,
    turn_urls: Seq<Seq<char>>,
    now: i64,
    later: i64,
)
    requires
        !m.contains_key(id),
    ensures
        ({
            let r = reported(m, id, meta, uptime_s, metrics, turn_urls, now);
            let g = registered(m, id, meta, now);
            let f1 = probed(r, false, None, None, later);
            let f2 = probed(f1, false, None, None, later);
            let f3 = probed(f2, false, None, None, later);
            &&& r.probe_failures_streak == 0
            &&& r.probed is None
            &&& r.probe_failures_streak == g.probe_failures_streak
            &&& r.probed == g.probed
            &&& f1.probe_failures_streak == 1
            &&& f1.probed.unwrap().status == "up"@
            &&& f2.probed.unwrap().status == "up"@
            &&& f3.probed.unwrap().status == "down"@
        }),
{
    reveal_strlit("up");
    reveal_strlit("down");
}

/// Writing one node leaves every other node as it was, and reading the
/// written node gives back what was written.
pub proof fn lemma_write_touches_one_node(m: Map<Seq<char>, NodeView>, id: Seq<char>, rec: NodeView, other: Seq<char>)
    requires
        other != id,
    ensures
        m.insert(id, rec).contains_key(id),
        m.insert(id, rec)[id] == rec,
        m.insert(id, rec).contains_key(other) == m.contains_key(other),
        m.contains_key(other) ==> m.insert(id, rec)[other] == m[other],
{
}

/// Records with pairwise distinct ids, each as the table `m` holds it and
/// every id of `m` present, rebuild `m` whatever their order: a saved
/// table restores through [`Directory::restore`] to the same directory
/// whatever order its records are read back in.
pub proof fn lemma_restore_any_order(m: Map<Seq<char>, NodeView>, s: Seq<NodeView>)
    requires
        forall|i: int, j: int|
            0 <= i < s.len() && 0 <= j < s.len() && i != j ==> #[trigger] s[i].node_id
                != #[trigger] s[j].node_id,
        forall|i: int|
            0 <= i < s.len() ==> m.contains_key(#[trigger] s[i].node_id) && m[s[i].node_id] == s[i],
        forall|k: Seq<char>|
            #[trigger] m.contains_key(k) ==> exists|i: int| 0 <= i < s.len() && #[trigger] s[i].node_id == k,
    ensures
        table_of(s) == m,
    decreases s.len(),
{
    if s.len() == 0 {
        assert forall|k: Seq<char>| !#[trigger] m.contains_key(k) by {
            if m.contains_key(k) {
                let i = choose|i: int| 0 <= i < s.len() && #[trigger] s[i].node_id == k;
            }
        }
        assert(m =~= Map::empty());
    } else {
        let last = s.last();
        let t = s.drop_last();
        let m2 = m.remove(last.node_id);
        assert forall|i: int| 0 <= i < t.len() implies m2.contains_key(#[trigger] t[i].node_id)
            && m2[t[i].node_id] == t[i] by {
            assert(t[i] == s[i]);
            assert(s[i].node_id != s[s.len() - 1].node_id);
        }
        assert forall|k: Seq<char>| #[trigger] m2.contains_key(k) implies exists|i: int|
            0 <= i < t.len() && #[trigger] t[i].node_id == k by {
            let i = choose|i: int| 0 <= i < s.len() && #[trigger] s[i].node_id == k;
            assert(i != s.len() - 1);
            assert(t[i] == s[i]);
        }
        assert forall|i: int, j: int|
            0 <= i < t.len() && 0 <= j < t.len() && i != j implies #[trigger] t[i].node_id
                != #[trigger] t[j].node_id by {
            assert(t[i] == s[i]);
            assert(t[j] == s[j]);
        }
        lemma_restore_any_order(m2, t);
        assert(m.contains_key(s[s.len() - 1].node_id));
        assert(table_of(s) =~= m2.insert(last.node_id, last));
        assert(m2.insert(last.node_id, last) =~= m);
    }
}

/// Two orders of the same records with pairwise distinct ids restore to
/// the same table.
pub proof fn lemma_restore_order_irrelevant(s: Seq<NodeView>, t: Seq<NodeView>)
    requires
        forall|i: int, j: int|
            0 <= i < s.len() && 0 <= j < s.len() && i != j ==> #[trigger] s[i].node_id
                != #[trigger] s[j].node_id,
        s.to_multiset() == t.to_multiset(),
    ensures
        table_of(s) == table_of(t),
{
    broadcast use vstd::seq_lib::group_to_multiset_ensures;

    let m = table_of(s);
    lemma_table_of_distinct(s);
    vstd::seq_lib::to_multiset_len(s);
    vstd::seq_lib::to_multiset_len(t);
    assert(s.len() == t.len());
    assert(s.no_duplicates()) by {
        assert forall|i: int, j: int| 0 <= i < s.len() && 0 <= j < s.len() && i != j implies s[i]
            != s[j] by {
            assert(s[i].node_id != s[j].node_id);
        }
    }
    s.lemma_multiset_has_no_duplicates();
    t.lemma_multiset_has_no_duplicates_conv();
    assert forall|i: int, j: int|
        0 <= i < t.len() && 0 <= j < t.len() && i != j implies #[trigger] t[i].node_id
            != #[trigger] t[j].node_id by {
        assert(t[i] != t[j]);
        assert(t.contains(t[i]));
        assert(t.contains(t[j]));
        assert(s.to_multiset().count(t[i]) > 0);
        assert(s.to_multiset().count(t[j]) > 0);
        assert(s.contains(t[i]));
        assert(s.contains(t[j]));
        let a = choose|a: int| 0 <= a < s.len() && s[a] == t[i];
        let b = choose|b: int| 0 <= b < s.len() && s[b] == t[j];
        assert(a != b);
        assert(s[a].node_id != s[b].node_id);
    }
    assert forall|i: int| 0 <= i < t.len() implies m.contains_key(#[trigger] t[i].node_id)
        && m[t[i].node_id] == t[i] by {
        assert(t.contains(t[i]));
        assert(s.to_multiset().count(t[i]) > 0);
        assert(s.contains(t[i]));
        let a = choose|a: int| 0 <= a < s.len() && s[a] == t[i];
        assert(s[a].node_id == t[i].node_id);
    }
    assert forall|k: Seq<char>| #[trigger] m.contains_key(k) implies exists|i: int|
        0 <= i < t.len() && #[trigger] t[i].node_id == k by {
        let a = choose|a: int| 0 <= a < s.len() && #[trigger] s[a].node_id == k;
        assert(s.contains(s[a]));
        assert(t.to_multiset().count(s[a]) > 0);
        assert(t.contains(s[a]));
        let i = choose|i: int| 0 <= i < t.len() && t[i] == s[a];
        assert(t[i].node_id == k);
    }
    lemma_restore_any_order(m, t);
}

/// The table of records with distinct ids holds exactly those records.
proof fn lemma_table_of_distinct(s: Seq<NodeView>)
    requires
        forall|i: int, j: int|
            0 <= i < s.len() && 0 <= j < s.len() && i != j ==> #[trigger] s[i].node_id
                != #[trigger] s[j].node_id,
    ensures
        forall|i: int|
            0 <= i < s.len() ==> table_of(s).contains_key(#[trigger] s[i].node_id)
                && table_of(s)[s[i].node_id] == s[i],
        forall|k: Seq<char>|
            #[trigger] table_of(s).contains_key(k) ==> exists|i: int| 0 <= i < s.len() && #[trigger] s[i].node_id == k,
    decreases s.len(),
{
    if s.len() > 0 {
        let t = s.drop_last();
        assert forall|i: int, j: int|
            0 <= i < t.len() && 0 <= j < t.len() && i != j implies #[trigger] t[i].node_id
                != #[trigger] t[j].node_id by {
            assert(t[i] == s[i]);
            assert(t[j] == s[j]);
        }
        lemma_table_of_distinct(t);
        assert(table_of(s) == table_of(t).insert(s.last().node_id, s.last()));
        assert forall|i: int| 0 <= i < s.len() implies table_of(s).contains_key(#[trigger] s[i].node_id)
            && table_of(s)[s[i].node_id] == s[i] by {
            if i < s.len() - 1 {
                assert(t[i] == s[i]);
                assert(s[i].node_id != s[s.len() - 1].node_id);
            }
        }
        assert forall|k: Seq<char>| #[trigger] table_of(s).contains_key(k) implies exists|i: int|
            0 <= i < s.len() && #[trigger] s[i].node_id == k by {
            if k != s.last().node_id {
                let i = choose|i: int| 0 <= i < t.len() && #[trigger] t[i].node_id == k;
                assert(s[i] == t[i]);
            } else {
                assert(s[s.len() - 1].node_id == k);
            }
        }
    }
}

/// Reading back a listing (records in strictly increasing id order, each
/// as the table holds it, every id present) rebuilds the same table.
pub proof fn lemma_listing_restores(m: Map<Seq<char>, NodeView>, s: Seq<NodeView>)
    requires
        forall|i: int, j: int|
            0 <= i < j < s.len() ==> chars_lt(#[trigger] s[i].node_id, #[trigger] s[j].node_id),
        forall|i: int|
            0 <= i < s.len() ==> m.contains_key(#[trigger] s[i].node_id) && m[s[i].node_id] == s[i],
        forall|k: Seq<char>|
            #[trigger] m.contains_key(k) ==> exists|i: int| 0 <= i < s.len() && #[trigger] s[i].node_id == k,
    ensures
        table_of(s) == m,
{
    assert forall|i: int, j: int|
        0 <= i < s.len() && 0 <= j < s.len() && i != j implies #[trigger] s[i].node_id
            != #[trigger] s[j].node_id by {
        if i < j {
            lemma_chars_lt_asymmetric(s[i].node_id, s[j].node_id);
        } else {
            lemma_chars_lt_asymmetric(s[j].node_id, s[i].node_id);
        }
    }
    lemma_restore_any_order(m, s);
}

} // verus!
