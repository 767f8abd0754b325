//! Correlation of listeners, firewall signals and Docker mappings into one
//! finding per port.
use vstd::prelude::*;
use crate::model::{
    DockerMapping, ExposureStatus, FindingView, FirewallDecision, FirewallSignal, FirewallSource,
    Listener, ListenerView, MappingView, PortFinding, Protocol, SignalView, first_where,
    findings_view, listeners_view, mappings_view, opt_view, signals_view, strings_view,
};
use crate::strset::{
    insert_sorted, lemma_sorted_set_is, same_elems, sorted_set, sorted_strict, str_views,
};
use crate::text::{
    chars_eq_str, chars_of, index_of, index_of_from, join, push_str, slice_of, starts_with,
    starts_with_str, string_from_chars,
};

verus! {

// ---------------------------------------------------------------------------
// The meaning of an analysis
// ---------------------------------------------------------------------------

/// The bind address, without a `%interface` scope, is `localhost`, `::1` or
/// in `127.0.0.0/8` written as `127.`.
pub open spec fn spec_is_loopback_bind(address: Seq<char>) -> bool {
    let a = address.take(index_of(address, '%'));
    a == "localhost"@ || a == "::1"@ || starts_with(a, "127."@)
}

pub open spec fn is_wildcard(address: Seq<char>) -> bool {
    address == "0.0.0.0"@ || address == "::"@ || address == "*"@
}

/// The signal names the port and, if it names a protocol, the same one.
pub open spec fn signal_matches(s: SignalView, port: u16, protocol: Protocol) -> bool {
    s.port == Some(port) && (s.protocol is None || s.protocol == Some(protocol))
}

pub open spec fn is_blocking(s: SignalView) -> bool {
    s.decision == FirewallDecision::Drop || s.decision == FirewallDecision::Reject
}

/// A block that only applies to some sources.
pub open spec fn is_guard_block(s: SignalView) -> bool {
    s.guard is Some || s.conditional
}

pub open spec fn blocking_pred(port: u16, protocol: Protocol) -> spec_fn(SignalView) -> bool {
    |s: SignalView| is_blocking(s) && signal_matches(s, port, protocol)
}

pub open spec fn accept_pred(port: u16, protocol: Protocol) -> spec_fn(SignalView) -> bool {
    |s: SignalView| s.decision == FirewallDecision::Accept && signal_matches(s, port, protocol)
}

pub open spec fn docker_pred(port: u16, protocol: Protocol) -> spec_fn(MappingView) -> bool {
    |m: MappingView| m.host_port == Some(port) && m.protocol == protocol
}

/// The guard of a signal that concerns every port, or this one.
pub open spec fn guard_of(s: SignalView, port: u16, protocol: Protocol) -> Option<Seq<char>> {
    if s.guard is Some && (s.port is None || signal_matches(s, port, protocol)) {
        s.guard
    } else {
        None
    }
}

pub open spec fn guard_fn(port: u16, protocol: Protocol) -> spec_fn(SignalView) -> Option<
    Seq<char>,
> {
    |s: SignalView| guard_of(s, port, protocol)
}

/// The guards that concern the port, once each, in increasing order.
pub open spec fn spec_guards(signals: Seq<SignalView>, port: u16, protocol: Protocol) -> Seq<
    Seq<char>,
> {
    sorted_set(signals.filter_map(guard_fn(port, protocol)))
}

/// The `Debug` form of a source.
pub open spec fn source_name(s: FirewallSource) -> Seq<char> {
    match s {
        FirewallSource::Nftables => "Nftables"@,
        FirewallSource::Iptables => "Iptables"@,
        FirewallSource::Ufw => "Ufw"@,
    }
}

pub open spec fn conflicting_sources(accept: SignalView, block: SignalView) -> Seq<char> {
    if accept.source == block.source {
        source_name(accept.source)
    } else {
        source_name(accept.source) + "+"@ + source_name(block.source)
    }
}

pub open spec fn present_source(s: SignalView) -> Option<Seq<char>> {
    if s.decision == FirewallDecision::Present {
        Some(source_name(s.source))
    } else {
        None
    }
}

/// The sources known to be present, joined by `+`, or `unknown`.
pub open spec fn spec_firewall_summary(signals: Seq<SignalView>) -> Seq<char> {
    let available = signals.filter_map(|s: SignalView| present_source(s));
    if available.len() == 0 {
        "unknown"@
    } else {
        join(available, "+"@)
    }
}

/// Adds the note that firewall rules were not interpreted when the firewall
/// column is `unknown`.
pub open spec fn with_unknown_note(firewall: Seq<char>, evidence: Seq<Seq<char>>) -> Seq<
    Seq<char>,
> {
    if firewall == "unknown"@ {
        evidence.push("firewall rules were not conclusively parsed yet"@)
    } else {
        evidence
    }
}

/// Status, firewall column and evidence of a listener.
pub open spec fn listener_verdict(
    l: ListenerView,
    signals: Seq<SignalView>,
    mappings: Seq<MappingView>,
) -> (ExposureStatus, Seq<char>, Seq<Seq<char>>) {
    let docker = first_where(mappings, docker_pred(l.port, l.protocol));
    let block = first_where(signals, blocking_pred(l.port, l.protocol));
    let accept = first_where(signals, accept_pred(l.port, l.protocol));
    let guards = spec_guards(signals, l.port, l.protocol);
    if spec_is_loopback_bind(l.local_address) {
        (
            ExposureStatus::LocalOnly,
            "N/A"@,
            seq!["bind address "@ + l.local_address + " is loopback"@],
        )
    } else if accept is Some && block is Some && is_guard_block(block->0) {
        (
            ExposureStatus::Guarded,
            conflicting_sources(accept->0, block->0),
            seq![
                "accept signal: "@ + (accept->0).detail,
                "guard signal: "@ + (block->0).detail,
                "port is accepted, with conditional source blocking detected"@,
            ],
        )
    } else if accept is Some && block is Some {
        (
            ExposureStatus::NeedsReview,
            conflicting_sources(accept->0, block->0),
            seq![
                "accept signal: "@ + (accept->0).detail,
                "blocking signal: "@ + (block->0).detail,
                "conflicting firewall signals require rule-order interpretation"@,
            ],
        )
    } else if accept is Some && guards.len() > 0 {
        (
            ExposureStatus::Guarded,
            source_name((accept->0).source),
            seq![
                (accept->0).detail,
                "global guard chain detected before or alongside input firewall rules"@,
            ],
        )
    } else if block is Some {
        (ExposureStatus::Firewalled, source_name((block->0).source), seq![(block->0).detail])
    } else if docker is Some {
        (ExposureStatus::DockerPublished, spec_firewall_summary(signals), seq!["published by Docker"@])
    } else if accept is Some {
        (ExposureStatus::Exposed, source_name((accept->0).source), seq![(accept->0).detail])
    } else if is_wildcard(l.local_address) {
        (
            ExposureStatus::NeedsReview,
            spec_firewall_summary(signals),
            seq!["wildcard bind requires firewall interpretation"@],
        )
    } else {
        (
            ExposureStatus::Exposed,
            spec_firewall_summary(signals),
            seq!["bind address "@ + l.local_address + " is non-loopback"@],
        )
    }
}

/// The finding for a listener.
pub open spec fn spec_analyze_listener(
    l: ListenerView,
    signals: Seq<SignalView>,
    mappings: Seq<MappingView>,
) -> FindingView {
    let v = listener_verdict(l, signals, mappings);
    FindingView {
        protocol: l.protocol,
        port: l.port,
        process: l.process,
        pid: l.pid,
        listen: l.local_address,
        firewall: v.1,
        docker: first_where(mappings, docker_pred(l.port, l.protocol)),
        status: v.0,
        guards: spec_guards(signals, l.port, l.protocol),
        evidence: with_unknown_note(v.1, v.2),
    }
}

/// The host address Docker publishes on, `*` when it names none.
pub open spec fn published_address(m: MappingView) -> Seq<char> {
    match m.host_ip {
        Some(ip) => ip,
        None => "*"@,
    }
}

pub open spec fn publishes_line(m: MappingView) -> Seq<char> {
    "Docker publishes host port for container "@ + m.container
}

/// Status, firewall column and evidence of a published port that no
/// listener reported.
pub open spec fn docker_verdict(m: MappingView, host_port: u16, signals: Seq<SignalView>) -> (
    ExposureStatus,
    Seq<char>,
    Seq<Seq<char>>,
) {
    let address = published_address(m);
    let block = first_where(signals, blocking_pred(host_port, m.protocol));
    let accept = first_where(signals, accept_pred(host_port, m.protocol));
    if spec_is_loopback_bind(address) {
        (
            ExposureStatus::LocalOnly,
            "N/A"@,
            seq!["Docker publishes host port on loopback address "@ + address],
        )
    } else if accept is Some && block is Some && is_guard_block(block->0) {
        (
            ExposureStatus::Guarded,
            conflicting_sources(accept->0, block->0),
            seq![
                publishes_line(m),
                "accept signal: "@ + (accept->0).detail,
                "guard signal: "@ + (block->0).detail,
                "port is accepted, with conditional source blocking detected"@,
            ],
        )
    } else if accept is Some && block is Some {
        (
            ExposureStatus::NeedsReview,
            conflicting_sources(accept->0, block->0),
            seq![
                publishes_line(m),
                "accept signal: "@ + (accept->0).detail,
                "blocking signal: "@ + (block->0).detail,
                "conflicting firewall signals require rule-order interpretation"@,
            ],
        )
    } else if block is Some {
        (
            ExposureStatus::Firewalled,
            source_name((block->0).source),
            seq![publishes_line(m), (block->0).detail],
        )
    } else {
        (
            ExposureStatus::DockerPublished,
            spec_firewall_summary(signals),
            seq![publishes_line(m) + "; no matching ss listener was found"@],
        )
    }
}

/// The finding for a port that Docker publishes on `host_port`.
pub open spec fn spec_analyze_docker_mapping(
    m: MappingView,
    host_port: u16,
    signals: Seq<SignalView>,
) -> FindingView {
    let v = docker_verdict(m, host_port, signals);
    FindingView {
        protocol: m.protocol,
        port: host_port,
        process: Some("docker"@),
        pid: None,
        listen: published_address(m),
        firewall: v.1,
        docker: Some(m),
        status: v.0,
        guards: spec_guards(signals, host_port, m.protocol),
        evidence: with_unknown_note(v.1, v.2),
    }
}

/// The finding for a container port that Docker does not publish.
pub open spec fn spec_analyze_container_only(m: MappingView) -> FindingView {
    FindingView {
        protocol: m.protocol,
        port: m.container_port,
        process: Some("docker"@),
        pid: None,
        listen: "container"@,
        firewall: "N/A"@,
        docker: Some(m),
        status: ExposureStatus::ContainerOnly,
        guards: seq![],
        evidence: seq![
            "container "@ + m.container
                + " exposes this port internally but Docker does not publish it on the host"@,
        ],
    }
}

/// Some finding is for this port and protocol.
pub open spec fn reported(findings: Seq<FindingView>, port: u16, protocol: Protocol) -> bool {
    exists|i: int|
        0 <= i < findings.len() && #[trigger] findings[i].port == port && findings[i].protocol
            == protocol
}

/// Adds the findings of the mappings, in order, to `findings`: each
/// unpublished port, and each published port not yet reported.
pub open spec fn add_mappings(
    findings: Seq<FindingView>,
    mappings: Seq<MappingView>,
    signals: Seq<SignalView>,
) -> Seq<FindingView>
    decreases mappings.len(),
{
    if mappings.len() == 0 {
        findings
    } else {
        let m = mappings[0];
        let next = match m.host_port {
            None => findings.push(spec_analyze_container_only(m)),
            Some(hp) => if reported(findings, hp, m.protocol) {
                findings
            } else {
                findings.push(spec_analyze_docker_mapping(m, hp, signals))
            },
        };
        add_mappings(next, mappings.drop_first(), signals)
    }
}

/// The findings before ordering: one per listener, then the mappings'.
pub open spec fn spec_findings(
    listeners: Seq<ListenerView>,
    signals: Seq<SignalView>,
    mappings: Seq<MappingView>,
) -> Seq<FindingView> {
    add_mappings(
        listeners.map_values(|l: ListenerView| spec_analyze_listener(l, signals, mappings)),
        mappings,
        signals,
    )
}

/// The order of findings: by port, then TCP before UDP.
pub open spec fn finding_key(f: FindingView) -> int {
    f.port * 2 + if f.protocol == Protocol::Tcp {
        0int
    } else {
        1int
    }
}

pub open spec fn key_is(k: int) -> spec_fn(FindingView) -> bool {
    |f: FindingView| finding_key(f) == k
}

pub open spec fn sorted_by_key(r: Seq<FindingView>) -> bool {
    forall|i: int, j: int| 0 <= i < j < r.len() ==> finding_key(r[i]) <= finding_key(r[j])
}

/// `r` is `u` ordered by key, findings with equal keys in their order in
/// `u` (a stable sort).
pub open spec fn is_stable_sort_of(u: Seq<FindingView>, r: Seq<FindingView>) -> bool {
    &&& sorted_by_key(r)
    &&& forall|k: int| #[trigger] r.filter(key_is(k)) == u.filter(key_is(k))
}

pub proof fn lemma_filter_last(r: Seq<FindingView>, k: int)
    requires
        r.len() > 0,
    ensures
        r.filter(key_is(k)) == if finding_key(r.last()) == k {
            r.drop_last().filter(key_is(k)).push(r.last())
        } else {
            r.drop_last().filter(key_is(k))
        },
{
    r.drop_last().lemma_filter_push(r.last(), key_is(k));
    assert(r.drop_last().push(r.last()) =~= r);
}

/// A stable sort has one result: two orderings of the same findings that
/// are both sorted by key and keep the order within each key are equal.
pub proof fn lemma_stable_sort_unique(u: Seq<FindingView>, r1: Seq<FindingView>, r2: Seq<FindingView>)
    requires
        is_stable_sort_of(u, r1),
        is_stable_sort_of(u, r2),
    ensures
        r1 == r2,
    decreases r1.len() + r2.len(),
{
    assert forall|k: int| #[trigger] r1.filter(key_is(k)) == r2.filter(key_is(k)) by {
        assert(r1.filter(key_is(k)) == u.filter(key_is(k)));
        assert(r2.filter(key_is(k)) == u.filter(key_is(k)));
    }
    lemma_sorted_filters_unique(r1, r2);
}

/// Two sequences sorted by key with the same findings under each key are
/// equal.
pub proof fn lemma_sorted_filters_unique(r1: Seq<FindingView>, r2: Seq<FindingView>)
    requires
        sorted_by_key(r1),
        sorted_by_key(r2),
        forall|k: int| #[trigger] r1.filter(key_is(k)) == r2.filter(key_is(k)),
    ensures
        r1 == r2,
    decreases r1.len() + r2.len(),
{
    if r1.len() == 0 && r2.len() == 0 {
        assert(r1 =~= r2);
    } else if r1.len() == 0 || r2.len() == 0 {
        let (a, b) = if r1.len() == 0 {
            (r2, r1)
        } else {
            (r1, r2)
        };
        let k = finding_key(a.last());
        lemma_filter_last(a, k);
        lemma_filter_none(b, k);
        assert(a.filter(key_is(k)).len() > 0);
        assert(a.filter(key_is(k)) == b.filter(key_is(k)));
    } else {
        let x = r1.last();
        let y = r2.last();
        let kx = finding_key(x);
        let ky = finding_key(y);
        lemma_filter_last(r1, kx);
        lemma_filter_last(r2, ky);
        if kx != ky {
            let (a, b, ka) = if kx < ky {
                (r2, r1, ky)
            } else {
                (r1, r2, kx)
            };
            assert(a.filter(key_is(ka)).len() > 0);
            assert(forall|i: int| 0 <= i < b.len() ==> finding_key(#[trigger] b[i]) <= finding_key(
                b.last(),
            ));
            lemma_filter_none(b, ka);
            assert(a.filter(key_is(ka)) == b.filter(key_is(ka)));
        }
        assert(x == r1.filter(key_is(kx)).last());
        assert(y == r2.filter(key_is(kx)).last());
        assert(x == y);
        let d1 = r1.drop_last();
        let d2 = r2.drop_last();
        assert forall|k: int| #[trigger] d1.filter(key_is(k)) == d2.filter(key_is(k)) by {
            lemma_filter_last(r1, k);
            lemma_filter_last(r2, k);
            if k == kx {
                assert(d1.filter(key_is(k)) =~= r1.filter(key_is(k)).drop_last());
                assert(d2.filter(key_is(k)) =~= r2.filter(key_is(k)).drop_last());
            }
        }
        lemma_sorted_filters_unique(d1, d2);
        assert(r1 =~= d1.push(x));
        assert(r2 =~= d2.push(y));
    }
}

/// The analysis: the findings of `spec_findings`, stably ordered by port and
/// protocol.
pub open spec fn spec_analyze(
    listeners: Seq<ListenerView>,
    signals: Seq<SignalView>,
    mappings: Seq<MappingView>,
) -> Seq<FindingView> {
    choose|r: Seq<FindingView>| is_stable_sort_of(spec_findings(listeners, signals, mappings), r)
}

/// `spec_analyze` is a stable sort of `spec_findings`.
pub proof fn lemma_spec_analyze_sorts(
    listeners: Seq<ListenerView>,
    signals: Seq<SignalView>,
    mappings: Seq<MappingView>,
)
    ensures
        is_stable_sort_of(
            spec_findings(listeners, signals, mappings),
            spec_analyze(listeners, signals, mappings),
        ),
{
    let u = spec_findings(listeners, signals, mappings);
    let r = stable_sort_witness(u);
    assert(is_stable_sort_of(u, r));
}

/// A stable sort of `u`, built by insertion.
proof fn stable_sort_witness(u: Seq<FindingView>) -> (r: Seq<FindingView>)
    ensures
        is_stable_sort_of(u, r),
    decreases u.len(),
{
    if u.len() == 0 {
        assert forall|k: int| #[trigger] u.filter(key_is(k)) == u.filter(key_is(k)) by {}
        u
    } else {
        let prev = stable_sort_witness(u.drop_last());
        let f = u.last();
        let p = insertion_point(prev, f, 0);
        lemma_insert_keeps_stable(u.drop_last(), prev, f, p);
        assert(u.drop_last().push(f) =~= u);
        prev.insert(p, f)
    }
}

/// The first index from `from` on whose key exceeds `f`'s, in a sorted
/// sequence whose keys before `from` do not.
proof fn insertion_point(r: Seq<FindingView>, f: FindingView, from: int) -> (p: int)
    requires
        sorted_by_key(r),
        0 <= from <= r.len(),
        forall|i: int| 0 <= i < from ==> finding_key(#[trigger] r[i]) <= finding_key(f),
    ensures
        from <= p <= r.len(),
        forall|i: int| 0 <= i < p ==> finding_key(#[trigger] r[i]) <= finding_key(f),
        forall|i: int| p <= i < r.len() ==> finding_key(#[trigger] r[i]) > finding_key(f),
    decreases r.len() - from,
{
    if from == r.len() {
        from
    } else if finding_key(r[from]) > finding_key(f) {
        assert forall|i: int| from <= i < r.len() implies finding_key(#[trigger] r[i]) > finding_key(
            f,
        ) by {
            if i > from {
                assert(finding_key(r[from]) <= finding_key(r[i]));
            }
        }
        from
    } else {
        insertion_point(r, f, from + 1)
    }
}

// ---------------------------------------------------------------------------
// Executable pieces
// ---------------------------------------------------------------------------

fn cat2(a: &str, b: &str) -> (r: String)
    ensures
        r@ == a@ + b@,
{
    let mut v = chars_of(a);
    push_str(&mut v, b);
    string_from_chars(v.as_slice())
}

fn cat3(a: &str, b: &str, c: &str) -> (r: String)
    ensures
        r@ == a@ + b@ + c@,
{
    let mut v = chars_of(a);
    push_str(&mut v, b);
    push_str(&mut v, c);
    string_from_chars(v.as_slice())
}

/// Whether a bind address, read up to any `%interface` scope, is loopback.
pub fn is_loopback_bind(address: &str) -> (r: bool)
    ensures
        r == spec_is_loopback_bind(address@),
{
    let chars = chars_of(address);
    let end = index_of_from(&chars, '%', 0);
    assert(chars@.skip(0) =~= chars@);
    let a = slice_of(&chars, 0, end);
    assert(a@ =~= address@.take(index_of(address@, '%')));
    chars_eq_str(&a, "localhost") || chars_eq_str(&a, "::1") || starts_with_str(&a, "127.")
}

fn is_wildcard_address(address: &String) -> (r: bool)
    ensures
        r == is_wildcard(address@),
{
    let chars = chars_of(address.as_str());
    chars_eq_str(&chars, "0.0.0.0") || chars_eq_str(&chars, "::") || chars_eq_str(&chars, "*")
}

fn signal_matches_exec(s: &FirewallSignal, port: u16, protocol: Protocol) -> (r: bool)
    ensures
        r == signal_matches(s@, port, protocol),
{
    s.port == Some(port) && match s.protocol {
        Some(p) => p == protocol,
        None => true,
    }
}

fn is_blocking_exec(s: &FirewallSignal) -> (r: bool)
    ensures
        r == is_blocking(s@),
{
    match s.decision {
        FirewallDecision::Drop | FirewallDecision::Reject => true,
        _ => false,
    }
}

fn is_guard_block_exec(s: &FirewallSignal) -> (r: bool)
    ensures
        r == is_guard_block(s@),
{
    s.guard.is_some() || s.conditional
}

/// Index of the first signal that blocks (`blocking`) or accepts the port.
fn find_signal(signals: &[FirewallSignal], port: u16, protocol: Protocol, blocking: bool) -> (r:
    Option<usize>)
    ensures
        ({
            let p = if blocking {
                blocking_pred(port, protocol)
            } else {
                accept_pred(port, protocol)
            };
            match r {
                Some(i) => i < signals.len() && first_where(signals_view(signals@), p) == Some(
                    signals@[i as int]@,
                ),
                None => first_where(signals_view(signals@), p) is None,
            }
        }),
{
    let ghost sv = signals_view(signals@);
    let ghost p = if blocking {
        blocking_pred(port, protocol)
    } else {
        accept_pred(port, protocol)
    };
    let mut i: usize = 0;
    assert(sv.skip(0) =~= sv);
    while i < signals.len()
        invariant
            i <= signals.len(),
            sv == signals_view(signals@),
            p == (if blocking {
                blocking_pred(port, protocol)
            } else {
                accept_pred(port, protocol)
            }),
            first_where(sv, p) == first_where(sv.skip(i as int), p),
        decreases signals.len() - i,
    {
        let s = &signals[i];
        assert(sv.skip(i as int)[0] == s@);
        let hit = if blocking {
            is_blocking_exec(s) && signal_matches_exec(s, port, protocol)
        } else {
            s.decision == FirewallDecision::Accept && signal_matches_exec(s, port, protocol)
        };
        if hit {
            return Some(i);
        }
        assert(sv.skip(i as int).drop_first() =~= sv.skip(i + 1));
        i += 1;
    }
    None
}

/// Index of the first mapping that publishes the port for the protocol.
fn find_docker(mappings: &[DockerMapping], port: u16, protocol: Protocol) -> (r: Option<usize>)
    ensures
        match r {
            Some(i) => i < mappings.len() && first_where(
                mappings_view(mappings@),
                docker_pred(port, protocol),
            ) == Some(mappings@[i as int]@),
            None => first_where(mappings_view(mappings@), docker_pred(port, protocol)) is None,
        },
{
    let ghost mv = mappings_view(mappings@);
    let ghost p = docker_pred(port, protocol);
    let mut i: usize = 0;
    assert(mv.skip(0) =~= mv);
    while i < mappings.len()
        invariant
            i <= mappings.len(),
            mv == mappings_view(mappings@),
            p == docker_pred(port, protocol),
            first_where(mv, p) == first_where(mv.skip(i as int), p),
        decreases mappings.len() - i,
    {
        let m = &mappings[i];
        assert(mv.skip(i as int)[0] == m@);
        if m.host_port == Some(port) && m.protocol == protocol {
            return Some(i);
        }
        assert(mv.skip(i as int).drop_first() =~= mv.skip(i + 1));
        i += 1;
    }
    None
}

/// The guards that concern the port, sorted, each once.
fn guards_for(signals: &[FirewallSignal], port: u16, protocol: Protocol) -> (r: Vec<String>)
    ensures
        str_views(r@) == spec_guards(signals_view(signals@), port, protocol),
{
    let ghost sv = signals_view(signals@);
    let ghost g = guard_fn(port, protocol);
    let mut guards: Vec<String> = Vec::new();
    let mut i: usize = 0;
    assert(sv.take(0) =~= Seq::<SignalView>::empty());
    while i < signals.len()
        invariant
            i <= signals.len(),
            sv == signals_view(signals@),
            g == guard_fn(port, protocol),
            sorted_strict(str_views(guards@)),
            same_elems(str_views(guards@), sv.take(i as int).filter_map(g)),
        decreases signals.len() - i,
    {
        let s = &signals[i];
        proof {
            sv.lemma_filter_map_take_succ(g, i as int);
            assert(sv[i as int] == s@);
        }
        let ghost before = sv.take(i as int).filter_map(g);
        let ghost after = sv.take(i + 1).filter_map(g);
        match &s.guard {
            Some(name) => {
                if s.port.is_none() || signal_matches_exec(s, port, protocol) {
                    insert_sorted(&mut guards, name.clone());
                    assert(after == before + seq![name@]);
                    assert forall|t: Seq<char>| str_views(guards@).contains(t) <==> after.contains(
                        t,
                    ) by {
                        if t == name@ {
                            assert(after[before.len() as int] == t);
                        }
                        if after.contains(t) {
                            let k = choose|k: int| 0 <= k < after.len() && after[k] == t;
                            if k < before.len() {
                                assert(before[k] == t);
                            }
                        }
                        if before.contains(t) {
                            let k = choose|k: int| 0 <= k < before.len() && before[k] == t;
                            assert(after[k] == t);
                        }
                    }
                } else {
                    assert(after =~= before);
                }
            },
            None => {
                assert(after =~= before);
            },
        }
        i += 1;
    }
    assert(sv.take(signals.len() as int) =~= sv);
    proof {
        lemma_sorted_set_is(str_views(guards@), sv.filter_map(g));
    }
    guards
}

fn source_label(s: FirewallSource) -> (r: &'static str)
    ensures
        r@ == source_name(s),
{
    match s {
        FirewallSource::Nftables => "Nftables",
        FirewallSource::Iptables => "Iptables",
        FirewallSource::Ufw => "Ufw",
    }
}

fn format_conflicting_sources(accept: &FirewallSignal, block: &FirewallSignal) -> (r: String)
    ensures
        r@ == conflicting_sources(accept@, block@),
{
    if accept.source == block.source {
        source_label(accept.source).to_owned()
    } else {
        cat3(source_label(accept.source), "+", source_label(block.source))
    }
}

fn firewall_summary(signals: &[FirewallSignal]) -> (r: String)
    ensures
        r@ == spec_firewall_summary(signals_view(signals@)),
{
    let ghost sv = signals_view(signals@);
    let ghost g = |s: SignalView| present_source(s);
    let mut out: Vec<char> = Vec::new();
    let mut count: usize = 0;
    let mut i: usize = 0;
    assert(sv.take(0) =~= Seq::<SignalView>::empty());
    while i < signals.len()
        invariant
            i <= signals.len(),
            sv == signals_view(signals@),
            g == (|s: SignalView| present_source(s)),
            count == sv.take(i as int).filter_map(g).len(),
            count <= i,
            out@ == join(sv.take(i as int).filter_map(g), "+"@),
        decreases signals.len() - i,
    {
        let s = &signals[i];
        proof {
            sv.lemma_filter_map_take_succ(g, i as int);
            assert(sv[i as int] == s@);
        }
        let ghost before = sv.take(i as int).filter_map(g);
        if s.decision == FirewallDecision::Present {
            let name = source_label(s.source);
            let ghost after = before.push(name@);
            assert(after.drop_last() =~= before);
            if count > 0 {
                push_str(&mut out, "+");
            } else {
                assert(before.len() == 0);
                assert(out@ =~= Seq::<char>::empty());
            }
            push_str(&mut out, name);
            count += 1;
            assert(sv.take(i + 1).filter_map(g) =~= after);
        } else {
            assert(sv.take(i + 1).filter_map(g) =~= before);
        }
        i += 1;
    }
    assert(sv.take(signals.len() as int) =~= sv);
    if count == 0 {
        "unknown".to_owned()
    } else {
        string_from_chars(out.as_slice())
    }
}

/// Adds the unknown-firewall note when `firewall` is `unknown`.
fn add_unknown_note(firewall: &String, evidence: &mut Vec<String>)
    ensures
        strings_view(final(evidence)@) == with_unknown_note(firewall@, strings_view(old(evidence)@)),
{
    let f = chars_of(firewall.as_str());
    if chars_eq_str(&f, "unknown") {
        let ghost before = strings_view(evidence@);
        evidence.push("firewall rules were not conclusively parsed yet".to_owned());
        assert(strings_view(evidence@) =~= before.push(
            "firewall rules were not conclusively parsed yet"@,
        ));
    }
}

fn one(a: String) -> (r: Vec<String>)
    ensures
        strings_view(r@) == seq![a@],
{
    let mut v: Vec<String> = Vec::new();
    v.push(a);
    assert(strings_view(v@) =~= seq![a@]);
    v
}

fn two(a: String, b: String) -> (r: Vec<String>)
    ensures
        strings_view(r@) == seq![a@, b@],
{
    let mut v: Vec<String> = Vec::new();
    v.push(a);
    v.push(b);
    assert(strings_view(v@) =~= seq![a@, b@]);
    v
}

fn three(a: String, b: String, c: String) -> (r: Vec<String>)
    ensures
        strings_view(r@) == seq![a@, b@, c@],
{
    let mut v: Vec<String> = Vec::new();
    v.push(a);
    v.push(b);
    v.push(c);
    assert(strings_view(v@) =~= seq![a@, b@, c@]);
    v
}

fn four(a: String, b: String, c: String, d: String) -> (r: Vec<String>)
    ensures
        strings_view(r@) == seq![a@, b@, c@, d@],
{
    let mut v: Vec<String> = Vec::new();
    v.push(a);
    v.push(b);
    v.push(c);
    v.push(d);
    assert(strings_view(v@) =~= seq![a@, b@, c@, d@]);
    v
}

fn analyze_listener(
    listener: Listener,
    signals: &[FirewallSignal],
    mappings: &[DockerMapping],
) -> (r: PortFinding)
    ensures
        r@ == spec_analyze_listener(listener@, signals_view(signals@), mappings_view(mappings@)),
{
    let ghost lv = listener@;
    let ghost sv = signals_view(signals@);
    let ghost mv = mappings_view(mappings@);
    let port = listener.port;
    let protocol = listener.protocol;
    let docker_idx = find_docker(mappings, port, protocol);
    let block_idx = find_signal(signals, port, protocol, true);
    let accept_idx = find_signal(signals, port, protocol, false);
    let guards = guards_for(signals, port, protocol);
    let ghost v = listener_verdict(lv, sv, mv);
    let (status, firewall, evidence): (ExposureStatus, String, Vec<String>) = if is_loopback_bind(
        listener.local_address.as_str(),
    ) {
        (
            ExposureStatus::LocalOnly,
            "N/A".to_owned(),
            one(cat3("bind address ", listener.local_address.as_str(), " is loopback")),
        )
    } else if accept_idx.is_some() && block_idx.is_some() && is_guard_block_exec(
        &signals[block_idx.unwrap()],
    ) {
        let a = &signals[accept_idx.unwrap()];
        let b = &signals[block_idx.unwrap()];
        (
            ExposureStatus::Guarded,
            format_conflicting_sources(a, b),
            three(
                cat2("accept signal: ", a.detail.as_str()),
                cat2("guard signal: ", b.detail.as_str()),
                "port is accepted, with conditional source blocking detected".to_owned(),
            ),
        )
    } else if accept_idx.is_some() && block_idx.is_some() {
        let a = &signals[accept_idx.unwrap()];
        let b = &signals[block_idx.unwrap()];
        (
            ExposureStatus::NeedsReview,
            format_conflicting_sources(a, b),
            three(
                cat2("accept signal: ", a.detail.as_str()),
                cat2("blocking signal: ", b.detail.as_str()),
                "conflicting firewall signals require rule-order interpretation".to_owned(),
            ),
        )
    } else if accept_idx.is_some() && guards.len() > 0 {
        let a = &signals[accept_idx.unwrap()];
        (
            ExposureStatus::Guarded,
            source_label(a.source).to_owned(),
            two(
                a.detail.clone(),
                "global guard chain detected before or alongside input firewall rules".to_owned(),
            ),
        )
    } else if block_idx.is_some() {
        let b = &signals[block_idx.unwrap()];
        (ExposureStatus::Firewalled, source_label(b.source).to_owned(), one(b.detail.clone()))
    } else if docker_idx.is_some() {
        (
            ExposureStatus::DockerPublished,
            firewall_summary(signals),
            one("published by Docker".to_owned()),
        )
    } else if accept_idx.is_some() {
        let a = &signals[accept_idx.unwrap()];
        (ExposureStatus::Exposed, source_label(a.source).to_owned(), one(a.detail.clone()))
    } else if is_wildcard_address(&listener.local_address) {
        (
            ExposureStatus::NeedsReview,
            firewall_summary(signals),
            one("wildcard bind requires firewall interpretation".to_owned()),
        )
    } else {
        (
            ExposureStatus::Exposed,
            firewall_summary(signals),
            one(cat3("bind address ", listener.local_address.as_str(), " is non-loopback")),
        )
    };
    assert(status == v.0);
    assert(firewall@ == v.1);
    assert(strings_view(evidence@) == v.2);
    let mut evidence = evidence;
    add_unknown_note(&firewall, &mut evidence);
    let docker = match docker_idx {
        Some(i) => Some(mappings[i].duplicate()),
        None => None,
    };
    let r = PortFinding {
        protocol,
        port,
        process: listener.process,
        pid: listener.pid,
        listen: listener.local_address,
        firewall,
        docker,
        status,
        guards,
        evidence,
    };
    assert(r@ =~= spec_analyze_listener(lv, sv, mv));
    r
}

fn analyze_docker_mapping(mapping: DockerMapping, host_port: u16, signals: &[FirewallSignal]) -> (r:
    PortFinding)
    requires
        mapping.host_port == Some(host_port),
    ensures
        r@ == spec_analyze_docker_mapping(mapping@, host_port, signals_view(signals@)),
{
    let ghost mv = mapping@;
    let ghost sv = signals_view(signals@);
    let protocol = mapping.protocol;
    let address = match &mapping.host_ip {
        Some(ip) => ip.clone(),
        None => "*".to_owned(),
    };
    assert(address@ == published_address(mv));
    let block_idx = find_signal(signals, host_port, protocol, true);
    let accept_idx = find_signal(signals, host_port, protocol, false);
    let guards = guards_for(signals, host_port, protocol);
    let ghost v = docker_verdict(mv, host_port, sv);
    let (status, firewall, evidence): (ExposureStatus, String, Vec<String>) = if is_loopback_bind(
        address.as_str(),
    ) {
        (
            ExposureStatus::LocalOnly,
            "N/A".to_owned(),
            one(cat2("Docker publishes host port on loopback address ", address.as_str())),
        )
    } else if accept_idx.is_some() && block_idx.is_some() && is_guard_block_exec(
        &signals[block_idx.unwrap()],
    ) {
        let a = &signals[accept_idx.unwrap()];
        let b = &signals[block_idx.unwrap()];
        (
            ExposureStatus::Guarded,
            format_conflicting_sources(a, b),
            four(
                cat2("Docker publishes host port for container ", mapping.container.as_str()),
                cat2("accept signal: ", a.detail.as_str()),
                cat2("guard signal: ", b.detail.as_str()),
                "port is accepted, with conditional source blocking detected".to_owned(),
            ),
        )
    } else if accept_idx.is_some() && block_idx.is_some() {
        let a = &signals[accept_idx.unwrap()];
        let b = &signals[block_idx.unwrap()];
        (
            ExposureStatus::NeedsReview,
            format_conflicting_sources(a, b),
            four(
                cat2("Docker publishes host port for container ", mapping.container.as_str()),
                cat2("accept signal: ", a.detail.as_str()),
                cat2("blocking signal: ", b.detail.as_str()),
                "conflicting firewall signals require rule-order interpretation".to_owned(),
            ),
        )
    } else if block_idx.is_some() {
        let b = &signals[block_idx.unwrap()];
        (
            ExposureStatus::Firewalled,
            source_label(b.source).to_owned(),
            two(
                cat2("Docker publishes host port for container ", mapping.container.as_str()),
                b.detail.clone(),
            ),
        )
    } else {
        (
            ExposureStatus::DockerPublished,
            firewall_summary(signals),
            one(
                cat3(
                    "Docker publishes host port for container ",
                    mapping.container.as_str(),
                    "; no matching ss listener was found",
                ),
            ),
        )
    };
    assert(status == v.0);
    assert(firewall@ == v.1);
    assert(strings_view(evidence@) == v.2);
    let mut evidence = evidence;
    add_unknown_note(&firewall, &mut evidence);
    let r = PortFinding {
        protocol,
        port: host_port,
        process: Some("docker".to_owned()),
        pid: None,
        listen: address,
        firewall,
        docker: Some(mapping),
        status,
        guards,
        evidence,
    };
    assert(r@ =~= spec_analyze_docker_mapping(mv, host_port, sv));
    r
}

fn analyze_container_only_mapping(mapping: DockerMapping) -> (r: PortFinding)
    ensures
        r@ == spec_analyze_container_only(mapping@),
{
    let ghost mv = mapping@;
    let evidence = one(
        cat3(
            "container ",
            mapping.container.as_str(),
            " exposes this port internally but Docker does not publish it on the host",
        ),
    );
    let r = PortFinding {
        protocol: mapping.protocol,
        port: mapping.container_port,
        process: Some("docker".to_owned()),
        pid: None,
        listen: "container".to_owned(),
        firewall: "N/A".to_owned(),
        docker: Some(mapping),
        status: ExposureStatus::ContainerOnly,
        guards: Vec::new(),
        evidence,
    };
    assert(r@ =~= spec_analyze_container_only(mv));
    r
}

// ---------------------------------------------------------------------------
// Ordering
// ---------------------------------------------------------------------------

proof fn lemma_filter_none(s: Seq<FindingView>, k: int)
    requires
        forall|i: int| 0 <= i < s.len() ==> finding_key(#[trigger] s[i]) != k,
    ensures
        s.filter(key_is(k)) == Seq::<FindingView>::empty(),
{
    assert(s.all(|x: FindingView| !key_is(k)(x))) by {
        assert forall|i: int| 0 <= i < s.len() implies !key_is(k)(#[trigger] s[i]) by {}
    }
    s.lemma_all_neg_filter_empty(key_is(k));
    assert(s.filter(key_is(k)) =~= Seq::<FindingView>::empty());
}

proof fn lemma_insert_keeps_stable(
    u: Seq<FindingView>,
    r: Seq<FindingView>,
    f: FindingView,
    p: int,
)
    requires
        is_stable_sort_of(u, r),
        0 <= p <= r.len(),
        forall|i: int| 0 <= i < p ==> finding_key(#[trigger] r[i]) <= finding_key(f),
        forall|i: int| p <= i < r.len() ==> finding_key(#[trigger] r[i]) > finding_key(f),
    ensures
        is_stable_sort_of(u.push(f), r.insert(p, f)),
{
    let r2 = r.insert(p, f);
    assert(r2 =~= r.take(p) + seq![f] + r.skip(p));
    assert(r =~= r.take(p) + r.skip(p));
    assert forall|i: int, j: int| 0 <= i < j < r2.len() implies finding_key(r2[i]) <= finding_key(
        r2[j],
    ) by {
        if j < p {
            assert(r2[i] == r[i] && r2[j] == r[j]);
        } else if j == p {
            assert(r2[i] == r[i]);
        } else if i < p {
            assert(r2[i] == r[i] && r2[j] == r[j - 1]);
        } else if i == p {
            assert(r2[j] == r[j - 1]);
        } else {
            assert(r2[i] == r[i - 1] && r2[j] == r[j - 1]);
        }
    }
    assert forall|k: int| #[trigger] r2.filter(key_is(k)) == u.push(f).filter(key_is(k)) by {
        let pr = key_is(k);
        Seq::filter_distributes_over_add(r.take(p) + seq![f], r.skip(p), pr);
        Seq::filter_distributes_over_add(r.take(p), seq![f], pr);
        Seq::filter_distributes_over_add(r.take(p), r.skip(p), pr);
        u.lemma_filter_push(f, pr);
        Seq::<FindingView>::empty().lemma_filter_push(f, pr);
        assert(Seq::<FindingView>::empty().push(f) =~= seq![f]);
        assert(Seq::<FindingView>::empty().filter(pr) =~= Seq::<FindingView>::empty()) by {
            reveal(Seq::filter);
        }
        assert(r.filter(pr) == u.filter(pr));
        if k == finding_key(f) {
            lemma_filter_none(r.skip(p), k);
            assert(r2.filter(pr) =~= r.filter(pr).push(f));
        } else {
            assert(seq![f].filter(pr) =~= Seq::<FindingView>::empty());
            assert(r2.filter(pr) =~= r.filter(pr));
        }
    }
}

fn finding_sort_key(f: &PortFinding) -> (k: u32)
    ensures
        k == finding_key(f@),
{
    let rank: u32 = match f.protocol {
        Protocol::Tcp => 0,
        Protocol::Udp => 1,
    };
    (f.port as u32) * 2 + rank
}

/// Orders findings by port, TCP before UDP, keeping the order of findings
/// with the same port and protocol.
fn sort_findings(u: Vec<PortFinding>) -> (r: Vec<PortFinding>)
    ensures
        is_stable_sort_of(findings_view(u@), findings_view(r@)),
{
    let ghost uv = findings_view(u@);
    assert(uv.len() == u.len());
    let mut rest = u;
    let mut r: Vec<PortFinding> = Vec::new();
    let mut i: usize = 0;
    proof {
        assert(uv.take(0) =~= Seq::<FindingView>::empty());
        assert(findings_view(r@) =~= Seq::<FindingView>::empty());
        assert forall|k: int| #[trigger] findings_view(r@).filter(key_is(k)) == uv.take(0).filter(
            key_is(k),
        ) by {
            reveal(Seq::filter);
        }
        assert(findings_view(rest@) =~= uv.skip(0));
    }
    while rest.len() > 0
        invariant
            i <= uv.len(),
            uv.len() <= usize::MAX,
            findings_view(rest@) == uv.skip(i as int),
            is_stable_sort_of(uv.take(i as int), findings_view(r@)),
        decreases rest.len(),
    {
        let ghost rv = findings_view(r@);
        let ghost old_rest = rest@;
        assert(findings_view(old_rest).len() == old_rest.len());
        assert(findings_view(old_rest)[0] == old_rest[0]@);
        assert(uv.skip(i as int)[0] == uv[i as int]);
        let f = rest.remove(0);
        assert(f@ == uv[i as int]);
        assert(i < uv.len());
        assert(rest@ =~= old_rest.drop_first());
        assert(findings_view(rest@) =~= findings_view(old_rest).drop_first());
        assert(uv.skip(i as int).drop_first() =~= uv.skip(i + 1));
        assert(findings_view(rest@) =~= uv.skip(i + 1));
        let key = finding_sort_key(&f);
        let mut p: usize = 0;
        while p < r.len() && finding_sort_key(&r[p]) <= key
            invariant
                p <= r.len(),
                rv == findings_view(r@),
                key == finding_key(f@),
                forall|q: int| 0 <= q < p ==> finding_key(#[trigger] rv[q]) <= key,
            decreases r.len() - p,
        {
            assert(rv[p as int] == r@[p as int]@);
            p += 1;
        }
        proof {
            assert forall|q: int| p <= q < rv.len() implies finding_key(#[trigger] rv[q]) > key by {
                if p < rv.len() {
                    assert(rv[p as int] == r@[p as int]@);
                    assert(finding_key(rv[p as int]) > key);
                    if q > p {
                        assert(finding_key(rv[p as int]) <= finding_key(rv[q]));
                    }
                }
            }
            lemma_insert_keeps_stable(uv.take(i as int), rv, f@, p as int);
            assert(uv.take(i as int).push(f@) =~= uv.take(i + 1));
        }
        r.insert(p, f);
        assert(findings_view(r@) =~= rv.insert(p as int, uv[i as int]));
        i += 1;
    }
    proof {
        assert(uv.skip(i as int).len() == 0);
        assert(uv.take(i as int) =~= uv);
    }
    r
}

// ---------------------------------------------------------------------------
// The analysis
// ---------------------------------------------------------------------------

fn already_reported(findings: &Vec<PortFinding>, port: u16, protocol: Protocol) -> (r: bool)
    ensures
        r == reported(findings_view(findings@), port, protocol),
{
    let ghost fv = findings_view(findings@);
    let mut i: usize = 0;
    while i < findings.len()
        invariant
            i <= findings.len(),
            fv == findings_view(findings@),
            forall|j: int| 0 <= j < i ==> !(#[trigger] fv[j].port == port && fv[j].protocol == protocol),
        decreases findings.len() - i,
    {
        assert(fv[i as int] == findings@[i as int]@);
        if findings[i].port == port && findings[i].protocol == protocol {
            assert(fv[i as int].port == port && fv[i as int].protocol == protocol);
            return true;
        }
        i += 1;
    }
    false
}

/// Correlates listeners, firewall signals and Docker mappings: a finding per
/// listener, one per unpublished container port, one per published port that
/// no earlier finding reports; ordered by port, TCP before UDP, stably.
pub fn analyze(
    listeners: Vec<Listener>,
    firewall_signals: Vec<FirewallSignal>,
    docker_mappings: Vec<DockerMapping>,
) -> (r: Vec<PortFinding>)
    ensures
        findings_view(r@) == spec_analyze(
            listeners_view(listeners@),
            signals_view(firewall_signals@),
            mappings_view(docker_mappings@),
        ),
        is_stable_sort_of(
            spec_findings(
                listeners_view(listeners@),
                signals_view(firewall_signals@),
                mappings_view(docker_mappings@),
            ),
            findings_view(r@),
        ),
{
    let ghost lv = listeners_view(listeners@);
    let ghost sv = signals_view(firewall_signals@);
    let ghost mv = mappings_view(docker_mappings@);
    let ghost fl = |l: ListenerView| spec_analyze_listener(l, sv, mv);
    let mut findings: Vec<PortFinding> = Vec::new();
    assert(lv.len() == listeners.len());
    assert(mv.len() == docker_mappings.len());
    let mut rest = listeners;
    let mut i: usize = 0;
    assert(lv.skip(0) =~= lv);
    assert(findings_view(findings@) =~= lv.take(0).map_values(fl));
    while rest.len() > 0
        invariant
            i <= lv.len(),
            lv.len() <= usize::MAX,
            sv == signals_view(firewall_signals@),
            mv == mappings_view(docker_mappings@),
            fl == (|l: ListenerView| spec_analyze_listener(l, sv, mv)),
            listeners_view(rest@) == lv.skip(i as int),
            findings_view(findings@) == lv.take(i as int).map_values(fl),
        decreases rest.len(),
    {
        let ghost old_rest = rest@;
        assert(listeners_view(old_rest).len() == old_rest.len());
        assert(listeners_view(old_rest)[0] == old_rest[0]@);
        assert(lv.skip(i as int)[0] == lv[i as int]);
        let l = rest.remove(0);
        assert(l@ == lv[i as int]);
        assert(i < lv.len());
        assert(rest@ =~= old_rest.drop_first());
        assert(listeners_view(rest@) =~= listeners_view(old_rest).drop_first());
        assert(lv.skip(i as int).drop_first() =~= lv.skip(i + 1));
        assert(listeners_view(rest@) =~= lv.skip(i + 1));
        let f = analyze_listener(l, firewall_signals.as_slice(), docker_mappings.as_slice());
        assert(f@ == fl(lv[i as int]));
        let ghost fb = findings@;
        findings.push(f);
        assert(findings_view(findings@) =~= findings_view(fb).push(fl(lv[i as int])));
        assert(lv.take(i + 1).map_values(fl) =~= lv.take(i as int).map_values(fl).push(
            fl(lv[i as int]),
        ));
        assert(findings_view(findings@) =~= lv.take(i + 1).map_values(fl));
        i += 1;
    }
    assert(lv.take(i as int) =~= lv);
    let mut maps = docker_mappings;
    let mut j: usize = 0;
    assert(mv.skip(0) =~= mv);
    while maps.len() > 0
        invariant
            j <= mv.len(),
            mv.len() <= usize::MAX,
            sv == signals_view(firewall_signals@),
            mappings_view(maps@) == mv.skip(j as int),
            add_mappings(findings_view(findings@), mv.skip(j as int), sv) == spec_findings(
                lv,
                sv,
                mv,
            ),
        decreases maps.len(),
    {
        let ghost old_maps = maps@;
        assert(mappings_view(old_maps).len() == old_maps.len());
        assert(mappings_view(old_maps)[0] == old_maps[0]@);
        let m = maps.remove(0);
        let ghost rest_m = mv.skip(j as int);
        assert(j < mv.len());
        assert(m@ == rest_m[0]);
        assert(rest_m.drop_first() =~= mv.skip(j + 1));
        assert(maps@ =~= old_maps.drop_first());
        assert(mappings_view(maps@) =~= mappings_view(old_maps).drop_first());
        assert(mappings_view(maps@) =~= mv.skip(j + 1));
        let ghost before = findings_view(findings@);
        match m.host_port {
            None => {
                findings.push(analyze_container_only_mapping(m));
                assert(findings_view(findings@) =~= before.push(spec_analyze_container_only(m@)));
            },
            Some(hp) => {
                if !already_reported(&findings, hp, m.protocol) {
                    let ghost mm = m@;
                    findings.push(analyze_docker_mapping(m, hp, firewall_signals.as_slice()));
                    assert(findings_view(findings@) =~= before.push(
                        spec_analyze_docker_mapping(mm, hp, sv),
                    ));
                }
            },
        }
        j += 1;
    }
    assert(mv.skip(j as int) =~= Seq::<MappingView>::empty());
    let r = sort_findings(findings);
    proof {
        let u = spec_findings(lv, sv, mv);
        let c = spec_analyze(lv, sv, mv);
        assert(is_stable_sort_of(u, c));
        lemma_stable_sort_unique(u, c, findings_view(r@));
    }
    r
}

pub open spec fn host_visible(f: FindingView) -> bool {
    f.status != ExposureStatus::ContainerOnly
}

/// The analysis, without container-only findings when `host_only`.
pub open spec fn spec_collect_findings(
    listeners: Seq<ListenerView>,
    signals: Seq<SignalView>,
    mappings: Seq<MappingView>,
    host_only: bool,
) -> Seq<FindingView> {
    let all = spec_analyze(listeners, signals, mappings);
    if host_only {
        all.filter(|f: FindingView| host_visible(f))
    } else {
        all
    }
}

/// Analyzes the collected listeners, signals and mappings; with `host_only`,
/// container-only findings are left out.
pub fn collect_findings(
    listeners: Vec<Listener>,
    firewall_signals: Vec<FirewallSignal>,
    docker_mappings: Vec<DockerMapping>,
    host_only: bool,
) -> (r: Vec<PortFinding>)
    ensures
        findings_view(r@) == spec_collect_findings(
            listeners_view(listeners@),
            signals_view(firewall_signals@),
            mappings_view(docker_mappings@),
            host_only,
        ),
{
    let findings = analyze(listeners, firewall_signals, docker_mappings);
    if !host_only {
        return findings;
    }
    let ghost fv = findings_view(findings@);
    let ghost p = |f: FindingView| host_visible(f);
    let mut kept: Vec<PortFinding> = Vec::new();
    let mut rest = findings;
    let mut i: usize = 0;
    assert(fv.skip(0) =~= fv);
    assert(findings_view(kept@) =~= fv.take(0).filter(p)) by {
        reveal(Seq::filter);
    }
    assert(fv.len() == rest.len());
    while rest.len() > 0
        invariant
            i <= fv.len(),
            fv.len() <= usize::MAX,
            p == (|f: FindingView| host_visible(f)),
            findings_view(rest@) == fv.skip(i as int),
            findings_view(kept@) == fv.take(i as int).filter(p),
        decreases rest.len(),
    {
        let ghost old_rest = rest@;
        assert(findings_view(old_rest).len() == old_rest.len());
        assert(findings_view(old_rest)[0] == old_rest[0]@);
        assert(fv.skip(i as int)[0] == fv[i as int]);
        let f = rest.remove(0);
        assert(i < fv.len());
        assert(rest@ =~= old_rest.drop_first());
        assert(findings_view(rest@) =~= findings_view(old_rest).drop_first());
        assert(fv.skip(i as int).drop_first() =~= fv.skip(i + 1));
        proof {
            fv.take(i as int).lemma_filter_push(fv[i as int], p);
            assert(fv.take(i as int).push(fv[i as int]) =~= fv.take(i + 1));
        }
        let ghost before = kept@;
        if f.status != ExposureStatus::ContainerOnly {
            kept.push(f);
            assert(findings_view(kept@) =~= findings_view(before).push(fv[i as int]));
        }
        i += 1;
    }
    assert(fv.take(i as int) =~= fv);
    kept
}

} // verus!
