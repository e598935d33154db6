//! What the active prober needs from the library: which nodes to probe
//! and the URLs it requests. The probing itself (HTTP requests, timing,
//! the periodic loop) runs in the server, which feeds the results back
//! through [`Directory::set_probe`](crate::state::Directory::set_probe)
//! and [`Directory::set_bandwidth`](crate::state::Directory::set_bandwidth).

use vstd::prelude::*;
use crate::state::{probed, strings_view, with_relay_check, Directory, NodeRecord, NodeView};
use crate::stun::{parse_turn_host_port, turn_host_port};
use crate::text::{concat, decimal, decimal_chars, string_from_chars, string_from_range, chars_of};

verus! {

broadcast use vstd::string::group_string_axioms;

/// Bytes fetched by one bandwidth measurement (2 MiB: enough for a
/// stable figure without loading the node for long).
pub const SPEEDTEST_BYTES: u64 = 2 * 1024 * 1024;

/// One node to probe: its id and its signal URL without trailing `/`.
#[derive(Clone, Debug)]
pub struct ProbeTarget {
    pub node_id: String,
    pub base_url: String,
}

/// `s` without the `/` characters at its end (`trim_end_matches('/')`).
pub open spec fn strip_trailing_slashes(s: Seq<char>) -> Seq<char>
    decreases s.len(),
{
    if s.len() > 0 && s.last() == '/' {
        strip_trailing_slashes(s.drop_last())
    } else {
        s
    }
}

/// The targets of a listing: every node with a signal URL, in order.
pub open spec fn targets_of(nodes: Seq<NodeView>) -> Seq<(Seq<char>, Seq<char>)>
    decreases nodes.len(),
{
    if nodes.len() == 0 {
        Seq::empty()
    } else {
        let rest = targets_of(nodes.drop_last());
        let n = nodes.last();
        match n.signal_url {
            Some(u) => rest.push((n.node_id, strip_trailing_slashes(u))),
            None => rest,
        }
    }
}

/// `e` is the target of a node of `nodes` that has a signal URL.
pub open spec fn comes_from_signal_url(nodes: Seq<NodeView>, e: (Seq<char>, Seq<char>)) -> bool {
    exists|i: int|
        0 <= i < nodes.len() && (#[trigger] nodes[i]).signal_url is Some && e == (
            nodes[i].node_id,
            strip_trailing_slashes(nodes[i].signal_url.unwrap()),
        )
}

/// Every node of a listing that has a signal URL is a probe target, with
/// that URL (trailing `/` removed), whatever its probe state; every target
/// is such a node; and the targets keep the listing's order.
pub proof fn lemma_every_signal_url_is_probed(nodes: Seq<NodeView>)
    ensures
        forall|i: int|
            0 <= i < nodes.len() && (#[trigger] nodes[i]).signal_url is Some ==> targets_of(
                nodes,
            ).contains((nodes[i].node_id, strip_trailing_slashes(nodes[i].signal_url.unwrap()))),
        forall|j: int|
            0 <= j < targets_of(nodes).len() ==> comes_from_signal_url(
                nodes,
                #[trigger] targets_of(nodes)[j],
            ),
        targets_of(nodes).len() <= nodes.len(),
        (forall|i: int| 0 <= i < nodes.len() ==> (#[trigger] nodes[i]).signal_url is Some)
            ==> targets_of(nodes).len() == nodes.len(),
    decreases nodes.len(),
{
    if nodes.len() > 0 {
        let prefix = nodes.drop_last();
        lemma_every_signal_url_is_probed(prefix);
        let rest = targets_of(prefix);
        let n = nodes.last();
        assert forall|i: int|
            0 <= i < nodes.len() && (#[trigger] nodes[i]).signal_url is Some implies targets_of(
                nodes,
            ).contains((nodes[i].node_id, strip_trailing_slashes(nodes[i].signal_url.unwrap()))) by {
            let e = (nodes[i].node_id, strip_trailing_slashes(nodes[i].signal_url.unwrap()));
            if i < nodes.len() - 1 {
                assert(prefix[i] == nodes[i]);
                assert(rest.contains(e));
                let k = choose|k: int| 0 <= k < rest.len() && rest[k] == e;
                assert(targets_of(nodes)[k] == e);
            } else {
                assert(targets_of(nodes)[rest.len() as int] == e);
            }
        }
        assert forall|j: int| 0 <= j < targets_of(nodes).len() implies comes_from_signal_url(
            nodes,
            #[trigger] targets_of(nodes)[j],
        ) by {
            if j < rest.len() {
                assert(targets_of(nodes)[j] == rest[j]);
                assert(comes_from_signal_url(prefix, rest[j]));
                let i = choose|i: int|
                    0 <= i < prefix.len() && (#[trigger] prefix[i]).signal_url is Some
                        && rest[j] == (
                        prefix[i].node_id,
                        strip_trailing_slashes(prefix[i].signal_url.unwrap()),
                    );
                assert(nodes[i] == prefix[i]);
            } else {
                assert(targets_of(nodes) == match n.signal_url {
                    Some(u) => rest.push((n.node_id, strip_trailing_slashes(u))),
                    None => rest,
                });
                assert(n.signal_url is Some);
                assert(nodes[nodes.len() - 1] == n);
                assert(targets_of(nodes)[j] == (n.node_id, strip_trailing_slashes(n.signal_url.unwrap())));
            }
        }
        if forall|i: int| 0 <= i < nodes.len() ==> (#[trigger] nodes[i]).signal_url is Some {
            assert forall|i: int| 0 <= i < prefix.len() implies (#[trigger] prefix[i]).signal_url is Some by {
                assert(prefix[i] == nodes[i]);
            }
            assert(nodes[nodes.len() - 1].signal_url is Some);
        }
    } else {
        assert(targets_of(nodes) =~= Seq::<(Seq<char>, Seq<char>)>::empty());
    }
}

/// The model of a list of targets.
pub open spec fn target_views(t: Seq<ProbeTarget>) -> Seq<(Seq<char>, Seq<char>)> {
    t.map_values(|x: ProbeTarget| (x.node_id@, x.base_url@))
}

proof fn lemma_strip_trailing_slashes(s: Seq<char>, k: int)
    requires
        0 <= k <= s.len(),
        forall|j: int| k <= j < s.len() ==> s[j] == '/',
        k == 0 || s[k - 1] != '/',
    ensures
        strip_trailing_slashes(s) == s.take(k),
    decreases s.len(),
{
    if s.len() > k {
        let t = s.drop_last();
        assert forall|j: int| k <= j < t.len() implies t[j] == '/' by {
            assert(t[j] == s[j]);
        }
        if k > 0 {
            assert(t[k - 1] == s[k - 1]);
        }
        lemma_strip_trailing_slashes(t, k);
        assert(t.take(k) =~= s.take(k));
    } else {
        assert(s.take(k) =~= s);
    }
}

/// `url` without its trailing `/` characters.
pub fn without_trailing_slashes(url: &str) -> (r: String)
    ensures
        r@ == strip_trailing_slashes(url@),
{
    let cs = chars_of(url);
    let mut k = cs.len();
    while k > 0 && cs[k - 1] == '/'
        invariant
            k <= cs@.len(),
            forall|j: int| k <= j < cs@.len() ==> cs@[j] == '/',
        decreases k,
    {
        k = k - 1;
    }
    proof {
        lemma_strip_trailing_slashes(cs@, k as int);
        assert(cs@.subrange(0, k as int) =~= cs@.take(k as int));
    }
    string_from_range(&cs, 0, k)
}

/// The nodes of `nodes` that have a signal URL, with that URL's trailing
/// `/` removed, in order.
pub fn probe_targets(nodes: &Vec<NodeRecord>) -> (t: Vec<ProbeTarget>)
    ensures
        target_views(t@) == targets_of(nodes@.map_values(|r: NodeRecord| r@)),
{
    let ghost views = nodes@.map_values(|r: NodeRecord| r@);
    let mut t: Vec<ProbeTarget> = Vec::new();
    let mut i: usize = 0;
    while i < nodes.len()
        invariant
            i <= nodes@.len(),
            views == nodes@.map_values(|r: NodeRecord| r@),
            target_views(t@) == targets_of(views.take(i as int)),
        decreases nodes@.len() - i,
    {
        let n = &nodes[i];
        assert(views.take(i + 1).drop_last() =~= views.take(i as int));
        assert(views.take(i + 1).last() == n@);
        match &n.signal_url {
            Some(u) => {
                let base = without_trailing_slashes(u.as_str());
                t.push(ProbeTarget { node_id: n.node_id.clone(), base_url: base });
                assert(target_views(t@) =~= targets_of(views.take(i as int)).push(
                    (n.node_id@, strip_trailing_slashes(u@)),
                ));
            },
            None => {},
        }
        i = i + 1;
    }
    assert(views.take(nodes@.len() as int) =~= views);
    t
}

/// The health-check URL of a node: `{base}/healthz`.
pub fn healthz_url(base: &str) -> (r: String)
    ensures
        r@ == base@ + "/healthz"@,
{
    concat(base, "/healthz")
}

/// The bandwidth-test URL of a node: `{base}/speedtest?bytes={SPEEDTEST_BYTES}`.
pub fn speedtest_url(base: &str) -> (r: String)
    ensures
        r@ == base@ + "/speedtest?bytes="@ + decimal(SPEEDTEST_BYTES as nat),
{
    let prefix = concat(base, "/speedtest?bytes=");
    let count = string_from_chars(&decimal_chars(SPEEDTEST_BYTES));
    concat(prefix.as_str(), count.as_str())
}

/// What one liveness probe of a node saw.
#[derive(Clone, Copy, Debug, PartialEq, Eq)]
pub enum ProbeOutcome {
    /// The node answered, after `latency_ms`, with HTTP `status_code`.
    Answered { latency_ms: u64, status_code: u16 },
    /// The request failed.
    Failed,
}

/// The latency a probe outcome records.
pub open spec fn outcome_latency(o: ProbeOutcome) -> Option<u64> {
    match o {
        ProbeOutcome::Answered { latency_ms, .. } => Some(latency_ms),
        ProbeOutcome::Failed => None,
    }
}

/// The status code a probe outcome records.
pub open spec fn outcome_status_code(o: ProbeOutcome) -> Option<u16> {
    match o {
        ProbeOutcome::Answered { status_code, .. } => Some(status_code),
        ProbeOutcome::Failed => None,
    }
}

/// What the prober does after recording an outcome.
#[derive(Clone, Copy, Debug, PartialEq, Eq)]
pub struct ProbeStep {
    /// The node was known and its record changed (so the table is saved).
    pub recorded: bool,
    /// Measure the node's bandwidth next: it answered.
    pub measure_bandwidth: bool,
}

/// Records one probe outcome of `node_id`, stamped with the current
/// time, and says what comes next: a node that answered is probed for
/// bandwidth, whether or not it is still in the table.
pub fn record_probe(dir: &mut Directory, node_id: &str, outcome: ProbeOutcome) -> (step: ProbeStep)
    requires
        old(dir).wf(),
    ensures
        final(dir).wf(),
        step.measure_bandwidth == (outcome is Answered),
        step.recorded == old(dir)@.contains_key(node_id@),
        step.recorded ==> final(dir)@ == old(dir)@.insert(
            node_id@,
            probed(
                old(dir)@[node_id@],
                outcome is Answered,
                outcome_latency(outcome),
                outcome_status_code(outcome),
                final(dir)@[node_id@].probed.unwrap().checked_at,
            ),
        ),
        !step.recorded ==> final(dir)@ == old(dir)@,
{
    match outcome {
        ProbeOutcome::Answered { latency_ms, status_code } => {
            let recorded = dir.set_probe(node_id, true, Some(latency_ms), Some(status_code));
            ProbeStep { recorded, measure_bandwidth: true }
        },
        ProbeOutcome::Failed => {
            let recorded = dir.set_probe(node_id, false, None, None);
            ProbeStep { recorded, measure_bandwidth: false }
        },
    }
}

/// One node to check for relaying: its id and the TURN endpoints that its
/// reported TURN URLs name.
#[derive(Clone, Debug)]
pub struct RelayTarget {
    pub node_id: String,
    pub endpoints: Vec<(String, u16)>,
}

/// The endpoints named by `urls`, in order; URLs that do not parse are
/// left out.
pub open spec fn endpoints_of(urls: Seq<Seq<char>>) -> Seq<(Seq<char>, u16)>
    decreases urls.len(),
{
    if urls.len() == 0 {
        Seq::empty()
    } else {
        let rest = endpoints_of(urls.drop_last());
        match turn_host_port(urls.last()) {
            Some(e) => rest.push(e),
            None => rest,
        }
    }
}

/// The relay checks of a listing: every node, with the endpoints of its
/// TURN URLs (none when it reported none).
pub open spec fn relay_targets_of(nodes: Seq<NodeView>) -> Seq<(Seq<char>, Seq<(Seq<char>, u16)>)> {
    nodes.map_values(|n: NodeView| (n.node_id, endpoints_of(n.turn_urls)))
}

/// The model of a list of endpoints.
pub open spec fn endpoints_view(v: Seq<(String, u16)>) -> Seq<(Seq<char>, u16)> {
    v.map_values(|e: (String, u16)| (e.0@, e.1))
}

/// The model of a list of relay checks.
pub open spec fn relay_target_views(t: Seq<RelayTarget>) -> Seq<(Seq<char>, Seq<(Seq<char>, u16)>)> {
    t.map_values(|x: RelayTarget| (x.node_id@, endpoints_view(x.endpoints@)))
}

/// The endpoints of the TURN URLs `urls`.
pub fn turn_endpoints(urls: &Vec<String>) -> (e: Vec<(String, u16)>)
    ensures
        endpoints_view(e@) == endpoints_of(strings_view(*urls)),
{
    let ghost views = strings_view(*urls);
    let mut e: Vec<(String, u16)> = Vec::new();
    let mut j: usize = 0;
    while j < urls.len()
        invariant
            j <= urls@.len(),
            views == strings_view(*urls),
            endpoints_view(e@) == endpoints_of(views.take(j as int)),
        decreases urls@.len() - j,
    {
        assert(views.take(j + 1).drop_last() =~= views.take(j as int));
        assert(views.take(j + 1).last() == urls@[j as int]@);
        let parsed = parse_turn_host_port(urls[j].as_str());
        match parsed {
            Some(hp) => {
                let ghost before = e@;
                e.push(hp);
                assert(endpoints_view(e@) =~= endpoints_view(before).push((hp.0@, hp.1)));
            },
            None => {},
        }
        j = j + 1;
    }
    assert(views.take(urls@.len() as int) =~= views);
    e
}

/// Every node of `nodes`, with the TURN endpoints to check, in order.
pub fn relay_targets(nodes: &Vec<NodeRecord>) -> (t: Vec<RelayTarget>)
    ensures
        relay_target_views(t@) == relay_targets_of(nodes@.map_values(|r: NodeRecord| r@)),
{
    let ghost views = nodes@.map_values(|r: NodeRecord| r@);
    let mut t: Vec<RelayTarget> = Vec::new();
    let mut i: usize = 0;
    while i < nodes.len()
        invariant
            i <= nodes@.len(),
            views == nodes@.map_values(|r: NodeRecord| r@),
            t@.len() == i,
            forall|k: int| 0 <= k < i ==> (#[trigger] relay_target_views(t@)[k]) == relay_targets_of(views)[k],
        decreases nodes@.len() - i,
    {
        let n = &nodes[i];
        let endpoints = turn_endpoints(&n.turn_urls);
        let ghost before = t@;
        t.push(RelayTarget { node_id: n.node_id.clone(), endpoints });
        assert forall|k: int| 0 <= k < i + 1 implies (#[trigger] relay_target_views(t@)[k])
            == relay_targets_of(views)[k] by {
            if k < i {
                assert(t@[k] == before[k]);
                assert(relay_target_views(before)[k] == relay_targets_of(views)[k]);
            }
        }
        i = i + 1;
    }
    assert(relay_target_views(t@) =~= relay_targets_of(views));
    t
}

/// Records a relay check of `node_id` whose endpoints answered as
/// `answers` says: the node can relay when at least one answered (so a
/// node with no usable TURN URL cannot).
pub fn record_relay_check(dir: &mut Directory, node_id: &str, answers: &Vec<bool>) -> (recorded: bool)
    requires
        old(dir).wf(),
    ensures
        final(dir).wf(),
        recorded == old(dir)@.contains_key(node_id@),
        recorded ==> final(dir)@ == old(dir)@.insert(
            node_id@,
            with_relay_check(old(dir)@[node_id@], answers@.contains(true)),
        ),
        !recorded ==> final(dir)@ == old(dir)@,
{
    let mut any = false;
    let mut i: usize = 0;
    while i < answers.len()
        invariant
            i <= answers@.len(),
            any == (exists|k: int| 0 <= k < i && #[trigger] answers@[k] == true),
        decreases answers@.len() - i,
    {
        if answers[i] {
            any = true;
        }
        i = i + 1;
    }
    assert(any == answers@.contains(true));
    dir.set_relay_capable(node_id, any)
}

} // verus!
