//! Properties of the library as a whole, each proved from the contracts'
//! spec functions.
use vstd::prelude::*;
use crate::analyzer::{
    accept_pred, add_mappings, blocking_pred, docker_pred, host_visible, is_guard_block,
    is_stable_sort_of, is_wildcard, key_is, reported, sorted_by_key, spec_analyze,
    spec_analyze_container_only, spec_analyze_docker_mapping, spec_analyze_listener, spec_collect_findings, spec_findings,
    spec_is_loopback_bind, signal_matches,
};
use crate::firewall::{
    iptables_line, is_input_rule, nft_line_signal, nft_signals, next_context, rule_concerns,
    rule_pred, spec_matching_listener_port, spec_parse_iptables_save, spec_parse_nftables_ruleset,
    spec_parse_rule_line, spec_parse_ufw_line, spec_parse_ufw_status, spec_parse_protocol,
    spec_contains_port_token,
};
use crate::display::{
    DisplayView, ViewState, KeyInput, LoopAction, group_keys, in_group, key_lt_fn, last_row,
    lemma_key_lt_strict_total, shown_fn, spec_display_findings, spec_display_from,
    spec_display_group, spec_handle_key, spec_includes, spec_mode_label, spec_next_mode,
    spec_status_rank, spec_worst_status, status_fold, ViewMode,
};
use crate::docker::{container_name, ports_text, spec_parse_docker_line, spec_parse_port_mapping};
use crate::order::{lemma_ordered_set, ordered_set};
use crate::text::{
    all_digits, decimal, digits_value, index_of, lemma_index_of_unique, lemma_lines_join,
    lemma_lines_join_crlf,
    lemma_trim_strip_cr, parse_unsigned, starts_with, strip_cr, trim, contains, ends_with, lower,
    occurs_at,
};
use crate::model::{
    ExposureStatus, FindingView, FirewallDecision, FirewallSource, ListenerView, MappingView,
    Protocol,
    SignalView, any_where, first_where,
    lemma_first_where,
};

verus! {

// ---------------------------------------------------------------------------
// Status of a listener
// ---------------------------------------------------------------------------

/// A listener is `local only` exactly when it binds to a loopback address,
/// whatever the firewall and Docker say.
pub proof fn law_local_only_iff_loopback(
    l: ListenerView,
    signals: Seq<SignalView>,
    mappings: Seq<MappingView>,
)
    ensures
        (spec_analyze_listener(l, signals, mappings).status == ExposureStatus::LocalOnly)
            <==> spec_is_loopback_bind(l.local_address),
{
}

/// An `%interface` scope does not change whether an address is loopback: an
/// address without `'%'` is loopback exactly when it is `localhost`, `::1`
/// or starts with `127.`, with or without a scope after it.
pub proof fn law_loopback_ignores_scope(address: Seq<char>, scope: Seq<char>)
    requires
        !address.contains('%'),
    ensures
        spec_is_loopback_bind(address + seq!['%'] + scope) == spec_is_loopback_bind(address),
        spec_is_loopback_bind(address) == (address == "localhost"@ || address == "::1"@
            || starts_with(address, "127."@)),
{
    let scoped = address + seq!['%'] + scope;
    assert forall|j: int| 0 <= j < address.len() implies scoped[j] != '%' by {
        assert(scoped[j] == address[j]);
        assert(address[j] != '%');
    }
    lemma_index_of_unique(scoped, '%', address.len() as int);
    assert forall|j: int| 0 <= j < address.len() implies address[j] != '%' by {
        assert(address[j] != '%');
    }
    lemma_index_of_unique(address, '%', address.len() as int);
    assert(scoped.take(address.len() as int) =~= address);
    assert(address.take(address.len() as int) =~= address);
}

/// A listener that does not bind to loopback is `firewalled` exactly when a
/// firewall rule drops or rejects its port and no rule accepts it.
pub proof fn law_firewalled_iff_only_blocked(
    l: ListenerView,
    signals: Seq<SignalView>,
    mappings: Seq<MappingView>,
)
    requires
        !spec_is_loopback_bind(l.local_address),
    ensures
        (spec_analyze_listener(l, signals, mappings).status == ExposureStatus::Firewalled) <==> (
        any_where(signals, blocking_pred(l.port, l.protocol)) && !any_where(
            signals,
            accept_pred(l.port, l.protocol),
        )),
{
    lemma_first_where(signals, blocking_pred(l.port, l.protocol));
    lemma_first_where(signals, accept_pred(l.port, l.protocol));
}

/// A port counts as protected only on evidence: a listener is `firewalled`
/// only when some parsed rule drops or rejects its port.
pub proof fn law_firewalled_needs_blocking_rule(
    l: ListenerView,
    signals: Seq<SignalView>,
    mappings: Seq<MappingView>,
)
    requires
        spec_analyze_listener(l, signals, mappings).status == ExposureStatus::Firewalled,
    ensures
        exists|i: int|
            0 <= i < signals.len() && #[trigger] blocking_pred(l.port, l.protocol)(signals[i]),
{
    lemma_first_where(signals, blocking_pred(l.port, l.protocol));
}

/// Conservative reading: a listener on a wildcard address with no rule that
/// accepts or blocks its port and no Docker mapping for it `needs review`.
pub proof fn law_unknown_wildcard_needs_review(
    l: ListenerView,
    signals: Seq<SignalView>,
    mappings: Seq<MappingView>,
)
    requires
        is_wildcard(l.local_address),
        !any_where(signals, blocking_pred(l.port, l.protocol)),
        !any_where(signals, accept_pred(l.port, l.protocol)),
        !any_where(mappings, docker_pred(l.port, l.protocol)),
    ensures
        spec_analyze_listener(l, signals, mappings).status == ExposureStatus::NeedsReview,
{
    lemma_first_where(signals, blocking_pred(l.port, l.protocol));
    lemma_first_where(signals, accept_pred(l.port, l.protocol));
    lemma_first_where(mappings, docker_pred(l.port, l.protocol));
    assert(!spec_is_loopback_bind(l.local_address)) by {
        reveal_strlit("0.0.0.0");
        reveal_strlit("::");
        reveal_strlit("*");
        reveal_strlit("localhost");
        reveal_strlit("::1");
        reveal_strlit("127.");
        let a = l.local_address;
        crate::text::lemma_index_of(a, '%');
        let t = a.take(crate::text::index_of(a, '%'));
        assert(t =~= a);
    }
}

/// Rules that both accept and unconditionally block a non-loopback port
/// conflict: the listener `needs review`.
pub proof fn law_conflicting_rules_need_review(
    l: ListenerView,
    signals: Seq<SignalView>,
    mappings: Seq<MappingView>,
)
    requires
        !spec_is_loopback_bind(l.local_address),
        any_where(signals, accept_pred(l.port, l.protocol)),
        any_where(signals, blocking_pred(l.port, l.protocol)),
        !is_guard_block(first_where(signals, blocking_pred(l.port, l.protocol))->0),
    ensures
        spec_analyze_listener(l, signals, mappings).status == ExposureStatus::NeedsReview,
{
    lemma_first_where(signals, blocking_pred(l.port, l.protocol));
    lemma_first_where(signals, accept_pred(l.port, l.protocol));
}

/// An accepted non-loopback port whose first blocking rule applies only to
/// some sources (a guard such as fail2ban) is `guarded`.
pub proof fn law_accept_with_conditional_block_is_guarded(
    l: ListenerView,
    signals: Seq<SignalView>,
    mappings: Seq<MappingView>,
)
    requires
        !spec_is_loopback_bind(l.local_address),
        any_where(signals, accept_pred(l.port, l.protocol)),
        any_where(signals, blocking_pred(l.port, l.protocol)),
        is_guard_block(first_where(signals, blocking_pred(l.port, l.protocol))->0),
    ensures
        spec_analyze_listener(l, signals, mappings).status == ExposureStatus::Guarded,
{
    lemma_first_where(signals, blocking_pred(l.port, l.protocol));
    lemma_first_where(signals, accept_pred(l.port, l.protocol));
}

/// A listener is `docker published` only when a Docker mapping publishes
/// its port and protocol.
pub proof fn law_docker_published_needs_mapping(
    l: ListenerView,
    signals: Seq<SignalView>,
    mappings: Seq<MappingView>,
)
    requires
        spec_analyze_listener(l, signals, mappings).status == ExposureStatus::DockerPublished,
    ensures
        any_where(mappings, docker_pred(l.port, l.protocol)),
{
    lemma_first_where(mappings, docker_pred(l.port, l.protocol));
}

/// A listener is `exposed` only when a rule accepts its port or it binds to
/// a specific non-loopback address.
pub proof fn law_exposed_needs_accept_or_specific_bind(
    l: ListenerView,
    signals: Seq<SignalView>,
    mappings: Seq<MappingView>,
)
    requires
        spec_analyze_listener(l, signals, mappings).status == ExposureStatus::Exposed,
    ensures
        any_where(signals, accept_pred(l.port, l.protocol)) || (!is_wildcard(l.local_address)
            && !spec_is_loopback_bind(l.local_address)),
{
    lemma_first_where(signals, accept_pred(l.port, l.protocol));
}

/// A port that Docker publishes with no listener behind it is `local only`
/// exactly when it is published on a loopback address.
pub proof fn law_docker_local_only_iff_loopback(
    m: MappingView,
    host_port: u16,
    signals: Seq<SignalView>,
)
    ensures
        (spec_analyze_docker_mapping(m, host_port, signals).status == ExposureStatus::LocalOnly)
            <==> spec_is_loopback_bind(spec_analyze_docker_mapping(m, host_port, signals).listen),
{
}

/// A port that Docker publishes on a non-loopback address, with no listener
/// behind it, is `firewalled` exactly when a rule drops or rejects it and no
/// rule accepts it.
pub proof fn law_docker_firewalled_iff_only_blocked(
    m: MappingView,
    host_port: u16,
    signals: Seq<SignalView>,
)
    requires
        !spec_is_loopback_bind(spec_analyze_docker_mapping(m, host_port, signals).listen),
    ensures
        (spec_analyze_docker_mapping(m, host_port, signals).status == ExposureStatus::Firewalled)
            <==> (any_where(signals, blocking_pred(host_port, m.protocol)) && !any_where(
            signals,
            accept_pred(host_port, m.protocol),
        )),
{
    lemma_first_where(signals, blocking_pred(host_port, m.protocol));
    lemma_first_where(signals, accept_pred(host_port, m.protocol));
}

/// Rules that both accept and unconditionally block a port that Docker
/// publishes on a non-loopback address conflict: it `needs review`.
pub proof fn law_docker_conflicting_rules_need_review(
    m: MappingView,
    host_port: u16,
    signals: Seq<SignalView>,
)
    requires
        !spec_is_loopback_bind(spec_analyze_docker_mapping(m, host_port, signals).listen),
        any_where(signals, accept_pred(host_port, m.protocol)),
        any_where(signals, blocking_pred(host_port, m.protocol)),
        !is_guard_block(first_where(signals, blocking_pred(host_port, m.protocol))->0),
    ensures
        spec_analyze_docker_mapping(m, host_port, signals).status == ExposureStatus::NeedsReview,
{
    lemma_first_where(signals, blocking_pred(host_port, m.protocol));
    lemma_first_where(signals, accept_pred(host_port, m.protocol));
}

/// A published port that a rule accepts and whose first blocking rule
/// applies only to some sources is `guarded`.
pub proof fn law_docker_accept_with_conditional_block_is_guarded(
    m: MappingView,
    host_port: u16,
    signals: Seq<SignalView>,
)
    requires
        !spec_is_loopback_bind(spec_analyze_docker_mapping(m, host_port, signals).listen),
        any_where(signals, accept_pred(host_port, m.protocol)),
        any_where(signals, blocking_pred(host_port, m.protocol)),
        is_guard_block(first_where(signals, blocking_pred(host_port, m.protocol))->0),
    ensures
        spec_analyze_docker_mapping(m, host_port, signals).status == ExposureStatus::Guarded,
{
    lemma_first_where(signals, blocking_pred(host_port, m.protocol));
    lemma_first_where(signals, accept_pred(host_port, m.protocol));
}

/// A port that Docker publishes on a non-loopback address, that no rule
/// blocks, is `docker published`, whether or not a rule accepts it.
pub proof fn law_docker_unblocked_is_published(
    m: MappingView,
    host_port: u16,
    signals: Seq<SignalView>,
)
    requires
        !spec_is_loopback_bind(spec_analyze_docker_mapping(m, host_port, signals).listen),
        !any_where(signals, blocking_pred(host_port, m.protocol)),
    ensures
        spec_analyze_docker_mapping(m, host_port, signals).status
            == ExposureStatus::DockerPublished,
{
    lemma_first_where(signals, blocking_pred(host_port, m.protocol));
    lemma_first_where(signals, accept_pred(host_port, m.protocol));
}

/// The finding of a published port with no listener behind it keeps the
/// mapping's port, protocol and address.
pub proof fn law_docker_finding_keeps_mapping(m: MappingView, host_port: u16, signals: Seq<SignalView>)
    ensures
        spec_analyze_docker_mapping(m, host_port, signals).port == host_port,
        spec_analyze_docker_mapping(m, host_port, signals).protocol == m.protocol,
        spec_analyze_docker_mapping(m, host_port, signals).docker == Some(m),
        m.host_ip is Some ==> spec_analyze_docker_mapping(m, host_port, signals).listen
            == m.host_ip->0,
{
}

// ---------------------------------------------------------------------------
// The whole analysis
// ---------------------------------------------------------------------------

proof fn lemma_add_mappings_keeps(
    findings: Seq<FindingView>,
    mappings: Seq<MappingView>,
    signals: Seq<SignalView>,
    i: int,
)
    requires
        0 <= i < findings.len(),
    ensures
        i < add_mappings(findings, mappings, signals).len(),
        add_mappings(findings, mappings, signals)[i] == findings[i],
    decreases mappings.len(),
{
    if mappings.len() > 0 {
        let m = mappings[0];
        let next = match m.host_port {
            None => findings.push(spec_analyze_container_only(m)),
            Some(hp) => if reported(findings, hp, m.protocol) {
                findings
            } else {
                findings.push(crate::analyzer::spec_analyze_docker_mapping(m, hp, signals))
            },
        };
        assert(next[i] == findings[i]);
        lemma_add_mappings_keeps(next, mappings.drop_first(), signals, i);
    }
}

proof fn lemma_add_mappings_container_only(
    findings: Seq<FindingView>,
    mappings: Seq<MappingView>,
    signals: Seq<SignalView>,
    j: int,
)
    requires
        0 <= j < mappings.len(),
        mappings[j].host_port is None,
    ensures
        add_mappings(findings, mappings, signals).contains(spec_analyze_container_only(mappings[j])),
    decreases mappings.len(),
{
    let m = mappings[0];
    let next = match m.host_port {
        None => findings.push(spec_analyze_container_only(m)),
        Some(hp) => if reported(findings, hp, m.protocol) {
            findings
        } else {
            findings.push(crate::analyzer::spec_analyze_docker_mapping(m, hp, signals))
        },
    };
    if j == 0 {
        lemma_add_mappings_keeps(next, mappings.drop_first(), signals, findings.len() as int);
        let r = add_mappings(next, mappings.drop_first(), signals);
        assert(r[findings.len() as int] == spec_analyze_container_only(m));
    } else {
        assert(mappings.drop_first()[j - 1] == mappings[j]);
        lemma_add_mappings_container_only(next, mappings.drop_first(), signals, j - 1);
    }
}

/// What a stable sort holds is what it was given.
proof fn lemma_stable_sort_contains(u: Seq<FindingView>, r: Seq<FindingView>, x: FindingView)
    requires
        is_stable_sort_of(u, r),
        u.contains(x),
    ensures
        r.contains(x),
{
    let k = crate::analyzer::finding_key(x);
    let i = choose|i: int| 0 <= i < u.len() && u[i] == x;
    u.lemma_filter_contains(key_is(k), i);
    assert(r.filter(key_is(k)) == u.filter(key_is(k)));
    r.lemma_filter_contains_rev(key_is(k), x);
}

/// Every listener is reported: the analysis holds the finding of each.
pub proof fn law_every_listener_reported(
    listeners: Seq<ListenerView>,
    signals: Seq<SignalView>,
    mappings: Seq<MappingView>,
    i: int,
)
    requires
        0 <= i < listeners.len(),
    ensures
        spec_analyze(listeners, signals, mappings).contains(
            spec_analyze_listener(listeners[i], signals, mappings),
        ),
{
    let base = listeners.map_values(
        |l: ListenerView| spec_analyze_listener(l, signals, mappings),
    );
    lemma_add_mappings_keeps(base, mappings, signals, i);
    let u = spec_findings(listeners, signals, mappings);
    assert(u[i] == spec_analyze_listener(listeners[i], signals, mappings));
    assert(u.contains(u[i]));
    crate::analyzer::lemma_spec_analyze_sorts(listeners, signals, mappings);
    lemma_stable_sort_contains(u, spec_analyze(listeners, signals, mappings), u[i]);
}

/// Every container port that Docker does not publish is reported as
/// `container only`.
pub proof fn law_unpublished_port_reported(
    listeners: Seq<ListenerView>,
    signals: Seq<SignalView>,
    mappings: Seq<MappingView>,
    j: int,
)
    requires
        0 <= j < mappings.len(),
        mappings[j].host_port is None,
    ensures
        spec_analyze(listeners, signals, mappings).contains(spec_analyze_container_only(mappings[j])),
{
    let base = listeners.map_values(
        |l: ListenerView| spec_analyze_listener(l, signals, mappings),
    );
    lemma_add_mappings_container_only(base, mappings, signals, j);
    crate::analyzer::lemma_spec_analyze_sorts(listeners, signals, mappings);
    lemma_stable_sort_contains(
        spec_findings(listeners, signals, mappings),
        spec_analyze(listeners, signals, mappings),
        spec_analyze_container_only(mappings[j]),
    );
}

/// Findings come ordered by port, TCP before UDP on the same port.
pub proof fn law_findings_ordered(
    listeners: Seq<ListenerView>,
    signals: Seq<SignalView>,
    mappings: Seq<MappingView>,
)
    ensures
        sorted_by_key(spec_analyze(listeners, signals, mappings)),
{
    crate::analyzer::lemma_spec_analyze_sorts(listeners, signals, mappings);
}

/// With `host_only`, no container-only finding is left, and every other
/// finding of the analysis is kept.
pub proof fn law_host_only_drops_container_only(
    listeners: Seq<ListenerView>,
    signals: Seq<SignalView>,
    mappings: Seq<MappingView>,
    f: FindingView,
)
    ensures
        spec_collect_findings(listeners, signals, mappings, true).contains(f) <==> (spec_analyze(
            listeners,
            signals,
            mappings,
        ).contains(f) && f.status != ExposureStatus::ContainerOnly),
{
    let all = spec_analyze(listeners, signals, mappings);
    let p = |g: FindingView| host_visible(g);
    if all.filter(p).contains(f) {
        all.lemma_filter_contains_rev(p, f);
        let k = choose|k: int| 0 <= k < all.filter(p).len() && all.filter(p)[k] == f;
        all.lemma_filter_pred(p, k);
    }
    if all.contains(f) && f.status != ExposureStatus::ContainerOnly {
        let i = choose|i: int| 0 <= i < all.len() && all[i] == f;
        all.lemma_filter_contains(p, i);
    }
}

// ---------------------------------------------------------------------------
// Firewall parsing
// ---------------------------------------------------------------------------

/// A port signal concerns a listener: its port is the listener's, and its
/// protocol, when it names one, too.
pub open spec fn concerns_some_listener(s: SignalView, listeners: Seq<ListenerView>) -> bool {
    exists|l: ListenerView|
        #[trigger] listeners.contains(l) && s.port == Some(l.port) && (s.protocol is None
            || s.protocol == Some(l.protocol))
}

proof fn lemma_matching_port(line: Seq<char>, listeners: Seq<ListenerView>)
    ensures
        ({
            let protocol = spec_parse_protocol(line);
            match spec_matching_listener_port(line, protocol, listeners) {
                Some(p) => exists|l: ListenerView|
                    #[trigger] listeners.contains(l) && p == l.port && (protocol is None
                        || protocol == Some(l.protocol)),
                None => true,
            }
        }),
{
    let protocol = spec_parse_protocol(line);
    lemma_first_where(listeners, rule_pred(line, protocol));
    if let Some(l) = first_where(listeners, rule_pred(line, protocol)) {
        assert(rule_concerns(line, protocol, l));
        assert(listeners.contains(l));
    }
}

proof fn lemma_rule_line_concerns(
    source: crate::model::FirewallSource,
    line: Seq<char>,
    listeners: Seq<ListenerView>,
)
    ensures
        spec_parse_rule_line(source, line, listeners) is Some ==> concerns_some_listener(
            spec_parse_rule_line(source, line, listeners)->0,
            listeners,
        ),
        spec_parse_ufw_line(line, listeners) is Some ==> concerns_some_listener(
            spec_parse_ufw_line(line, listeners)->0,
            listeners,
        ),
{
    lemma_matching_port(line, listeners);
}

/// Every signal parsed from `iptables-save` output concerns a listener and
/// comes from a rule of the `INPUT` or `DOCKER-USER` chain.
pub proof fn law_iptables_signals_concern_listeners(
    rules: Seq<char>,
    listeners: Seq<ListenerView>,
    s: SignalView,
)
    requires
        spec_parse_iptables_save(rules, listeners).contains(s),
    ensures
        concerns_some_listener(s, listeners),
        is_input_rule(s.detail),
{
    let f = |line: Seq<char>| iptables_line(line, listeners);
    crate::text::lines(rules).lemma_filter_map_contains(f, s);
    let line = choose|t: Seq<char>| #[trigger] crate::text::lines(rules).contains(t) && f(t)
        == Some(s);
    lemma_rule_line_concerns(crate::model::FirewallSource::Iptables, line, listeners);
}

/// Every signal parsed from `ufw status` output is a UFW allow, deny or
/// reject for no guard, and concerns a listener.
pub proof fn law_ufw_signals_concern_listeners(
    status: Seq<char>,
    listeners: Seq<ListenerView>,
    s: SignalView,
)
    requires
        spec_parse_ufw_status(status, listeners).contains(s),
    ensures
        s.source == FirewallSource::Ufw,
        s.decision == FirewallDecision::Accept || s.decision == FirewallDecision::Drop
            || s.decision == FirewallDecision::Reject,
        s.guard is None,
        concerns_some_listener(s, listeners),
{
    let f = |line: Seq<char>| spec_parse_ufw_line(trim(line), listeners);
    crate::text::lines(status).lemma_filter_map_contains(f, s);
    let line = choose|t: Seq<char>| #[trigger] crate::text::lines(status).contains(t) && f(t)
        == Some(s);
    assert(spec_parse_ufw_line(trim(line), listeners) == Some(s));
    lemma_rule_line_concerns(FirewallSource::Ufw, trim(line), listeners);
}

/// Parsing two `iptables-save` texts joined by a newline gives the signals
/// of the first, read without a `'\r'` that ends it (the newline makes it
/// part of a line ending), then those of the second; without such a `'\r'`,
/// the signals of the first, then those of the second.
pub proof fn law_iptables_save_join(a: Seq<char>, b: Seq<char>, listeners: Seq<ListenerView>)
    ensures
        spec_parse_iptables_save(a + seq!['\n'] + b, listeners) == spec_parse_iptables_save(
            strip_cr(a),
            listeners,
        ) + spec_parse_iptables_save(b, listeners),
        !(a.len() > 0 && a.last() == '\r') ==> spec_parse_iptables_save(
            a + seq!['\n'] + b,
            listeners,
        ) == spec_parse_iptables_save(a, listeners) + spec_parse_iptables_save(b, listeners),
{
    reveal_strlit("-A INPUT");
    reveal_strlit("-A DOCKER-USER");
    let f = |line: Seq<char>| iptables_line(line, listeners);
    assert(!is_input_rule(Seq::<char>::empty()));
    if a.len() > 0 && a.last() == '\r' {
        let a2 = a.drop_last();
        assert(a + seq!['\n'] + b =~= a2 + seq!['\r', '\n'] + b);
        lemma_lines_join_crlf(a2, b, f);
    } else {
        lemma_lines_join(a, b, f);
    }
}

/// Parsing two `ufw status` texts joined by a newline gives the signals of
/// the first, then those of the second.
pub proof fn law_ufw_status_join(a: Seq<char>, b: Seq<char>, listeners: Seq<ListenerView>)
    ensures
        spec_parse_ufw_status(a + seq!['\n'] + b, listeners) == spec_parse_ufw_status(
            a,
            listeners,
        ) + spec_parse_ufw_status(b, listeners),
{
    reveal_strlit(" ALLOW ");
    reveal_strlit(" DENY ");
    reveal_strlit(" REJECT ");
    let f = |line: Seq<char>| spec_parse_ufw_line(trim(line), listeners);
    let e = Seq::<char>::empty();
    assert(trim(e) =~= e);
    assert(!crate::text::contains(e, " ALLOW "@));
    assert(!crate::text::contains(e, " DENY "@));
    assert(!crate::text::contains(e, " REJECT "@));
    assert forall|x: Seq<char>| #[trigger] f(strip_cr(x)) == f(x) by {
        lemma_trim_strip_cr(x);
    }
    lemma_lines_join(a, b, f);
}

/// An accepting rule: a jump to `ACCEPT`, or `accept` as a word at the end
/// of the line or inside it.
pub open spec fn says_accept(line: Seq<char>) -> bool {
    contains(line, " -j ACCEPT"@) || ends_with(line, " accept"@) || contains(line, " accept "@)
}

/// A dropping rule: a jump to `DROP`, or `drop` as a word.
pub open spec fn says_drop(line: Seq<char>) -> bool {
    contains(line, " -j DROP"@) || ends_with(line, " drop"@) || contains(line, " drop "@)
}

/// A rejecting rule: a jump to `REJECT`, or `reject` as a word.
pub open spec fn says_reject(line: Seq<char>) -> bool {
    contains(line, " -j REJECT"@) || ends_with(line, " reject"@) || contains(line, " reject "@)
}

/// The line names TCP: the word `tcp`, `-p tcp` or a `/tcp` port suffix.
pub open spec fn says_tcp(line: Seq<char>) -> bool {
    contains(line, " tcp "@) || contains(line, " -p tcp"@) || contains(line, "/tcp"@)
}

/// The line names UDP: the word `udp`, `-p udp` or a `/udp` port suffix.
pub open spec fn says_udp(line: Seq<char>) -> bool {
    contains(line, " udp "@) || contains(line, " -p udp"@) || contains(line, "/udp"@)
}

/// The signal's verdict is the one its rule line names, accept taking
/// precedence over drop, and drop over reject.
pub open spec fn verdict_as_named(s: SignalView) -> bool {
    &&& (s.decision == FirewallDecision::Accept) == says_accept(s.detail)
    &&& (s.decision == FirewallDecision::Drop) == (!says_accept(s.detail) && says_drop(s.detail))
    &&& (s.decision == FirewallDecision::Reject) == (!says_accept(s.detail) && !says_drop(
        s.detail,
    ) && says_reject(s.detail))
}

/// The signal's protocol is the one its rule line names, TCP taking
/// precedence, and none when the line names neither.
pub open spec fn protocol_as_named(s: SignalView) -> bool {
    &&& (s.protocol == Some(Protocol::Tcp)) == says_tcp(s.detail)
    &&& (s.protocol == Some(Protocol::Udp)) == (!says_tcp(s.detail) && says_udp(s.detail))
    &&& (s.protocol is None) == (!says_tcp(s.detail) && !says_udp(s.detail))
}

/// The protocol the line names, if any, is the listener's.
pub open spec fn protocol_fits(line: Seq<char>, l: ListenerView) -> bool {
    ||| says_tcp(line) && l.protocol == Protocol::Tcp
    ||| !says_tcp(line) && says_udp(line) && l.protocol == Protocol::Udp
    ||| !says_tcp(line) && !says_udp(line)
}

/// A rule line that names a verdict and whose port token and protocol fit
/// a listener yields a signal.
pub open spec fn rule_fits(line: Seq<char>, listeners: Seq<ListenerView>, l: ListenerView) -> bool {
    &&& listeners.contains(l)
    &&& spec_contains_port_token(line, l.port)
    &&& protocol_fits(line, l)
}

proof fn lemma_rule_line_reads(
    source: FirewallSource,
    line: Seq<char>,
    listeners: Seq<ListenerView>,
    l: ListenerView,
)
    ensures
        spec_parse_rule_line(source, line, listeners) is Some ==> {
            let s = spec_parse_rule_line(source, line, listeners)->0;
            &&& s.source == source
            &&& s.detail == line
            &&& s.port is Some
            &&& s.guard is None
            &&& verdict_as_named(s)
            &&& protocol_as_named(s)
        },
        (says_accept(line) || says_drop(line) || says_reject(line)) && rule_fits(
            line,
            listeners,
            l,
        ) ==> spec_parse_rule_line(source, line, listeners) is Some,
{
    let protocol = spec_parse_protocol(line);
    lemma_first_where(listeners, rule_pred(line, protocol));
    if rule_fits(line, listeners, l) {
        let i = choose|i: int| 0 <= i < listeners.len() && listeners[i] == l;
        assert(rule_pred(line, protocol)(listeners[i]));
    }
}

proof fn lemma_ufw_line_reads(line: Seq<char>, listeners: Seq<ListenerView>, l: ListenerView)
    ensures
        spec_parse_ufw_line(line, listeners) is Some ==> {
            let s = spec_parse_ufw_line(line, listeners)->0;
            &&& s.source == FirewallSource::Ufw
            &&& s.detail == line
            &&& s.port is Some
            &&& s.guard is None
            &&& (s.decision == FirewallDecision::Accept) == contains(line, " ALLOW "@)
            &&& (s.decision == FirewallDecision::Drop) == (!contains(line, " ALLOW "@) && contains(
                line,
                " DENY "@,
            ))
            &&& (s.decision == FirewallDecision::Reject) == (!contains(line, " ALLOW "@)
                && !contains(line, " DENY "@) && contains(line, " REJECT "@))
            &&& protocol_as_named(s)
        },
        (contains(line, " ALLOW "@) || contains(line, " DENY "@) || contains(line, " REJECT "@))
            && rule_fits(line, listeners, l) ==> spec_parse_ufw_line(line, listeners) is Some,
{
    let protocol = spec_parse_protocol(line);
    lemma_first_where(listeners, rule_pred(line, protocol));
    if rule_fits(line, listeners, l) {
        let i = choose|i: int| 0 <= i < listeners.len() && listeners[i] == l;
        assert(rule_pred(line, protocol)(listeners[i]));
    }
}

proof fn lemma_filter_map_has<A, B>(xs: Seq<A>, f: spec_fn(A) -> Option<B>, i: int)
    requires
        0 <= i < xs.len(),
        f(xs[i]) is Some,
    ensures
        xs.filter_map(f).contains(f(xs[i])->0),
    decreases xs.len(),
{
    let v = f(xs[i])->0;
    let r = xs.drop_last().filter_map(f);
    if i == xs.len() - 1 {
        assert((r + seq![v])[r.len() as int] == v);
    } else {
        assert(xs.drop_last()[i] == xs[i]);
        lemma_filter_map_has(xs.drop_last(), f, i);
        let k = choose|k: int| 0 <= k < r.len() && r[k] == v;
        match f(xs.last()) {
            Some(w) => {
                assert((r + seq![w])[k] == v);
            },
            None => {},
        }
    }
}

/// Every signal parsed from `iptables-save` output carries the verdict and
/// protocol that its rule line names, and that line is a line of the output.
pub proof fn law_iptables_signals_read_their_rules(
    rules: Seq<char>,
    listeners: Seq<ListenerView>,
    s: SignalView,
)
    requires
        spec_parse_iptables_save(rules, listeners).contains(s),
    ensures
        s.source == FirewallSource::Iptables,
        verdict_as_named(s),
        protocol_as_named(s),
        crate::text::lines(rules).contains(s.detail),
{
    let f = |line: Seq<char>| iptables_line(line, listeners);
    crate::text::lines(rules).lemma_filter_map_contains(f, s);
    let line = choose|t: Seq<char>| #[trigger] crate::text::lines(rules).contains(t) && f(t)
        == Some(s);
    lemma_rule_line_reads(FirewallSource::Iptables, line, listeners, listeners[0]);
}

/// Every `INPUT` or `DOCKER-USER` rule of `iptables-save` output that names
/// a verdict and whose port and protocol fit a listener yields a signal for
/// that line, with the verdict and protocol the line names.
pub proof fn law_iptables_rules_yield_signals(
    rules: Seq<char>,
    listeners: Seq<ListenerView>,
    i: int,
    l: ListenerView,
)
    requires
        0 <= i < crate::text::lines(rules).len(),
        starts_with(crate::text::lines(rules)[i], "-A INPUT"@) || starts_with(
            crate::text::lines(rules)[i],
            "-A DOCKER-USER"@,
        ),
        says_accept(crate::text::lines(rules)[i]) || says_drop(crate::text::lines(rules)[i])
            || says_reject(crate::text::lines(rules)[i]),
        rule_fits(crate::text::lines(rules)[i], listeners, l),
    ensures
        exists|s: SignalView|
            #[trigger] spec_parse_iptables_save(rules, listeners).contains(s) && s.detail
                == crate::text::lines(rules)[i] && verdict_as_named(s) && protocol_as_named(s),
{
    let ls = crate::text::lines(rules);
    let line = ls[i];
    let f = |t: Seq<char>| iptables_line(t, listeners);
    lemma_rule_line_reads(FirewallSource::Iptables, line, listeners, l);
    assert(f(line) is Some);
    lemma_filter_map_has(ls, f, i);
    let s = f(line)->0;
    assert(spec_parse_iptables_save(rules, listeners).contains(s));
}

/// Every signal parsed from `ufw status` output carries the verdict its line
/// names (`ALLOW`, then `DENY`, then `REJECT`) and the protocol it names; a
/// rule that names UDP and not TCP never concerns a TCP listener.
pub proof fn law_ufw_signals_read_their_rules(
    status: Seq<char>,
    listeners: Seq<ListenerView>,
    s: SignalView,
)
    requires
        spec_parse_ufw_status(status, listeners).contains(s),
    ensures
        (s.decision == FirewallDecision::Accept) == contains(s.detail, " ALLOW "@),
        (s.decision == FirewallDecision::Drop) == (!contains(s.detail, " ALLOW "@) && contains(
            s.detail,
            " DENY "@,
        )),
        (s.decision == FirewallDecision::Reject) == (!contains(s.detail, " ALLOW "@) && !contains(
            s.detail,
            " DENY "@,
        ) && contains(s.detail, " REJECT "@)),
        protocol_as_named(s),
        says_udp(s.detail) && !says_tcp(s.detail) ==> forall|port: u16|
            !#[trigger] signal_matches(s, port, Protocol::Tcp),
{
    let f = |line: Seq<char>| spec_parse_ufw_line(trim(line), listeners);
    crate::text::lines(status).lemma_filter_map_contains(f, s);
    let line = choose|t: Seq<char>| #[trigger] crate::text::lines(status).contains(t) && f(t)
        == Some(s);
    lemma_ufw_line_reads(trim(line), listeners, listeners[0]);
}

/// Every line of `ufw status` output that, trimmed, names `ALLOW`, `DENY` or
/// `REJECT` and whose port and protocol fit a listener yields a signal for
/// that line, with the protocol it names.
pub proof fn law_ufw_rules_yield_signals(
    status: Seq<char>,
    listeners: Seq<ListenerView>,
    i: int,
    l: ListenerView,
)
    requires
        0 <= i < crate::text::lines(status).len(),
        contains(trim(crate::text::lines(status)[i]), " ALLOW "@) || contains(
            trim(crate::text::lines(status)[i]),
            " DENY "@,
        ) || contains(trim(crate::text::lines(status)[i]), " REJECT "@),
        rule_fits(trim(crate::text::lines(status)[i]), listeners, l),
    ensures
        exists|s: SignalView|
            #[trigger] spec_parse_ufw_status(status, listeners).contains(s) && s.detail == trim(
                crate::text::lines(status)[i],
            ) && protocol_as_named(s),
{
    let ls = crate::text::lines(status);
    let line = trim(ls[i]);
    let f = |t: Seq<char>| spec_parse_ufw_line(trim(t), listeners);
    lemma_ufw_line_reads(line, listeners, l);
    assert(f(ls[i]) is Some);
    lemma_filter_map_has(ls, f, i);
    let s = f(ls[i])->0;
    assert(spec_parse_ufw_status(status, listeners).contains(s));
}

proof fn lemma_nft_signals(
    raw_lines: Seq<Seq<char>>,
    context: Seq<char>,
    listeners: Seq<ListenerView>,
    s: SignalView,
)
    requires
        nft_signals(raw_lines, context, listeners).contains(s),
    ensures
        s.guard is Some ==> s.conditional,
        s.port is Some ==> concerns_some_listener(s, listeners),
        s.port is None ==> s.guard == Some("crowdsec"@),
        s.port is Some ==> s.source == FirewallSource::Nftables && verdict_as_named(s)
            && protocol_as_named(s),
    decreases raw_lines.len(),
{
    let line = crate::text::trim(raw_lines[0]);
    let ctx = next_context(context, line);
    let here = match nft_line_signal(ctx, line, listeners) {
        Some(x) => seq![x],
        None => seq![],
    };
    let rest = nft_signals(raw_lines.drop_first(), ctx, listeners);
    assert(nft_signals(raw_lines, context, listeners) == here + rest);
    let k = choose|k: int| 0 <= k < (here + rest).len() && (here + rest)[k] == s;
    if k < here.len() {
        lemma_rule_line_concerns(crate::model::FirewallSource::Nftables, line, listeners);
        lemma_rule_line_reads(FirewallSource::Nftables, line, listeners, listeners[0]);
    } else {
        assert(rest[k - here.len()] == s);
        lemma_nft_signals(raw_lines.drop_first(), ctx, listeners, s);
    }
}

/// Every signal parsed from `nft list ruleset` output is either a CrowdSec
/// guard for no port in particular or a port signal that concerns a
/// listener; every guard signal applies only to some sources.
pub proof fn law_nftables_signals(ruleset: Seq<char>, listeners: Seq<ListenerView>, s: SignalView)
    requires
        spec_parse_nftables_ruleset(ruleset, listeners).contains(s),
    ensures
        s.guard is Some ==> is_guard_block(s),
        s.port is Some ==> concerns_some_listener(s, listeners),
        s.port is None ==> s.guard == Some("crowdsec"@),
{
    lemma_nft_signals(crate::text::lines(ruleset), seq![], listeners, s);
}

/// An nftables verdict word: `accept`, `drop` or `reject` at the end of the
/// line or followed by options.
pub open spec fn says_nft_verdict(line: Seq<char>) -> bool {
    ||| ends_with(line, " accept"@) || contains(line, " accept "@)
    ||| ends_with(line, " drop"@) || contains(line, " drop "@)
    ||| ends_with(line, " reject"@) || contains(line, " reject "@)
}

proof fn lemma_word_contains(line: Seq<char>, w: Seq<char>, ws: Seq<char>)
    requires
        ws == w.push(' '),
        ends_with(line, w) || contains(line, ws),
    ensures
        contains(line, w),
{
    if ends_with(line, w) {
        let i = line.len() - w.len();
        assert(line.subrange(i, i + w.len()) =~= line.skip(i));
        assert(occurs_at(line, w, i));
    } else {
        let i = choose|i: int| occurs_at(line, ws, i);
        assert(line.subrange(i, i + w.len()) =~= line.subrange(i, i + ws.len()).take(
            w.len() as int,
        ));
        assert(ws.take(w.len() as int) =~= w);
        assert(occurs_at(line, w, i));
    }
}

proof fn lemma_nft_line_yields(
    context: Seq<char>,
    line: Seq<char>,
    listeners: Seq<ListenerView>,
    l: ListenerView,
)
    requires
        !contains(lower(context), "crowdsec"@),
        contains(line, " dport "@),
        says_nft_verdict(line),
        rule_fits(line, listeners, l),
    ensures
        nft_line_signal(context, line, listeners) is Some,
        ({
            let s = nft_line_signal(context, line, listeners)->0;
            &&& s.source == FirewallSource::Nftables
            &&& s.detail == line
            &&& s.port is Some
            &&& verdict_as_named(s)
            &&& protocol_as_named(s)
        }),
{
    reveal_strlit(" accept");
    reveal_strlit(" accept ");
    reveal_strlit(" drop");
    reveal_strlit(" drop ");
    reveal_strlit(" reject");
    reveal_strlit(" reject ");
    assert(" accept "@ =~= " accept"@.push(' '));
    assert(" drop "@ =~= " drop"@.push(' '));
    assert(" reject "@ =~= " reject"@.push(' '));
    if ends_with(line, " accept"@) || contains(line, " accept "@) {
        lemma_word_contains(line, " accept"@, " accept "@);
    } else if ends_with(line, " drop"@) || contains(line, " drop "@) {
        lemma_word_contains(line, " drop"@, " drop "@);
    } else {
        lemma_word_contains(line, " reject"@, " reject "@);
    }
    lemma_rule_line_reads(FirewallSource::Nftables, line, listeners, l);
}

proof fn lemma_nft_signals_yield(
    raw_lines: Seq<Seq<char>>,
    context: Seq<char>,
    listeners: Seq<ListenerView>,
    i: int,
    l: ListenerView,
)
    requires
        0 <= i < raw_lines.len(),
        !contains(lower(context), "crowdsec"@),
        forall|j: int|
            0 <= j < raw_lines.len() ==> !contains(lower(trim(#[trigger] raw_lines[j])), "crowdsec"@),
        contains(trim(raw_lines[i]), " dport "@),
        says_nft_verdict(trim(raw_lines[i])),
        rule_fits(trim(raw_lines[i]), listeners, l),
    ensures
        exists|s: SignalView|
            #[trigger] nft_signals(raw_lines, context, listeners).contains(s) && s.detail == trim(
                raw_lines[i],
            ) && s.source == FirewallSource::Nftables && s.port is Some && verdict_as_named(s)
                && protocol_as_named(s),
    decreases i,
{
    let line = trim(raw_lines[0]);
    let ctx = next_context(context, line);
    assert(!contains(lower(line), "crowdsec"@));
    let here = match nft_line_signal(ctx, line, listeners) {
        Some(x) => seq![x],
        None => seq![],
    };
    let rest = nft_signals(raw_lines.drop_first(), ctx, listeners);
    assert(nft_signals(raw_lines, context, listeners) == here + rest);
    if i == 0 {
        lemma_nft_line_yields(ctx, line, listeners, l);
        let s = nft_line_signal(ctx, line, listeners)->0;
        assert((here + rest)[0] == s);
        assert(nft_signals(raw_lines, context, listeners).contains(s));
    } else {
        let d = raw_lines.drop_first();
        assert forall|j: int| 0 <= j < d.len() implies !contains(
            lower(trim(#[trigger] d[j])),
            "crowdsec"@,
        ) by {
            assert(d[j] == raw_lines[j + 1]);
        }
        assert(d[i - 1] == raw_lines[i]);
        lemma_nft_signals_yield(d, ctx, listeners, i - 1, l);
        let s = choose|s: SignalView|
            #[trigger] rest.contains(s) && s.detail == trim(d[i - 1]) && s.source
                == FirewallSource::Nftables && s.port is Some && verdict_as_named(s)
                && protocol_as_named(s);
        let k = choose|k: int| 0 <= k < rest.len() && rest[k] == s;
        assert((here + rest)[here.len() + k] == s);
        assert(nft_signals(raw_lines, context, listeners).contains(s));
    }
}

/// In `nft list ruleset` output without CrowdSec tables or chains, every
/// `dport` rule that names a verdict word and whose port and protocol fit a
/// listener yields a signal for that line, with the verdict and protocol
/// the line names.
pub proof fn law_nftables_rules_yield_signals(
    ruleset: Seq<char>,
    listeners: Seq<ListenerView>,
    i: int,
    l: ListenerView,
)
    requires
        0 <= i < crate::text::lines(ruleset).len(),
        forall|j: int|
            0 <= j < crate::text::lines(ruleset).len() ==> !contains(
                lower(trim(#[trigger] crate::text::lines(ruleset)[j])),
                "crowdsec"@,
            ),
        contains(trim(crate::text::lines(ruleset)[i]), " dport "@),
        says_nft_verdict(trim(crate::text::lines(ruleset)[i])),
        rule_fits(trim(crate::text::lines(ruleset)[i]), listeners, l),
    ensures
        exists|s: SignalView|
            #[trigger] spec_parse_nftables_ruleset(ruleset, listeners).contains(s) && s.detail
                == trim(crate::text::lines(ruleset)[i]) && s.source == FirewallSource::Nftables
                && s.port is Some && verdict_as_named(s) && protocol_as_named(s),
{
    reveal_strlit("crowdsec");
    assert(lower(Seq::<char>::empty()) =~= Seq::<char>::empty());
    assert(!contains(lower(Seq::<char>::empty()), "crowdsec"@));
    let ls = crate::text::lines(ruleset);
    lemma_nft_signals_yield(ls, seq![], listeners, i, l);
    let s = choose|s: SignalView|
        #[trigger] nft_signals(ls, seq![], listeners).contains(s) && s.detail == trim(ls[i])
            && s.source == FirewallSource::Nftables && s.port is Some && verdict_as_named(s)
            && protocol_as_named(s);
    assert(spec_parse_nftables_ruleset(ruleset, listeners) == nft_signals(ls, seq![], listeners));
    assert(spec_parse_nftables_ruleset(ruleset, listeners).contains(s));
}

/// Every port signal parsed from `nft list ruleset` output carries the
/// verdict and protocol that its rule line names.
pub proof fn law_nftables_port_signals_read_their_rules(
    ruleset: Seq<char>,
    listeners: Seq<ListenerView>,
    s: SignalView,
)
    requires
        spec_parse_nftables_ruleset(ruleset, listeners).contains(s),
        s.port is Some,
    ensures
        s.source == FirewallSource::Nftables,
        verdict_as_named(s),
        protocol_as_named(s),
{
    lemma_nft_signals(crate::text::lines(ruleset), seq![], listeners, s);
}

// ---------------------------------------------------------------------------
// The table
// ---------------------------------------------------------------------------

/// Pressing `m` four times comes back to the same mode, through four modes
/// with four different names.
pub proof fn law_modes_cycle(m: ViewMode)
    ensures
        spec_next_mode(spec_next_mode(spec_next_mode(spec_next_mode(m)))) == m,
        spec_next_mode(m) != m,
        spec_next_mode(spec_next_mode(m)) != m,
        spec_next_mode(spec_next_mode(spec_next_mode(m))) != m,
        spec_mode_label(m) != spec_mode_label(spec_next_mode(m)),
{
    reveal_strlit("global");
    reveal_strlit("all");
    reveal_strlit("local");
    reveal_strlit("container");
    match m {
        ViewMode::Global => assert("global"@.len() != "all"@.len()),
        ViewMode::All => assert("all"@.len() != "local"@.len()),
        ViewMode::Local => assert("local"@.len() != "container"@.len()),
        ViewMode::Container => assert("container"@.len() != "global"@.len()),
    }
}

/// The worst of two statuses has the higher rank of the two.
pub proof fn law_worst_status_is_max(a: ExposureStatus, b: ExposureStatus)
    ensures
        spec_status_rank(spec_worst_status(a, b)) == if spec_status_rank(a) >= spec_status_rank(b) {
            spec_status_rank(a)
        } else {
            spec_status_rank(b)
        },
        spec_worst_status(a, b) == a || spec_worst_status(a, b) == b,
{
}

proof fn lemma_status_fold_at_least(g: Seq<FindingView>, bound: int)
    requires
        g.len() > 0,
        forall|i: int| 0 <= i < g.len() ==> spec_status_rank(#[trigger] g[i].status) >= bound,
    ensures
        spec_status_rank(status_fold(g)) >= bound,
    decreases g.len(),
{
    if g.len() > 1 {
        lemma_status_fold_at_least(g.drop_last(), bound);
    }
    assert(spec_status_rank(g[g.len() - 1].status) >= bound);
}

/// A group row's status is at least as serious as each of its findings'.
pub proof fn law_group_status_is_worst(g: Seq<FindingView>, i: int)
    requires
        0 <= i < g.len(),
    ensures
        spec_status_rank(spec_display_group(g).status) >= spec_status_rank(g[i].status),
    decreases g.len(),
{
    if i < g.len() - 1 {
        law_group_status_is_worst(g.drop_last(), i);
    }
}

/// The `global` view hides loopback-only and container-only ports: none
/// of its rows, grouped or not, has either status.
pub proof fn law_global_view_hides_local_and_container(
    findings: Seq<FindingView>,
    full: bool,
    row: DisplayView,
)
    requires
        spec_display_findings(findings, full, ViewMode::Global).contains(row),
    ensures
        row.status != ExposureStatus::LocalOnly,
        row.status != ExposureStatus::ContainerOnly,
{
    let shown = findings.filter(shown_fn(ViewMode::Global));
    let rows = spec_display_findings(findings, full, ViewMode::Global);
    let k = choose|k: int| 0 <= k < rows.len() && rows[k] == row;
    if full {
        assert(row == spec_display_from(shown[k]));
        findings.lemma_filter_pred(shown_fn(ViewMode::Global), k);
    } else {
        lemma_key_lt_strict_total();
        lemma_ordered_set(group_keys(shown), key_lt_fn());
        let keys = ordered_set(group_keys(shown), key_lt_fn());
        let key = keys[k];
        assert(keys.contains(key));
        assert(group_keys(shown).contains(key));
        let q = choose|q: int| 0 <= q < group_keys(shown).len() && group_keys(shown)[q] == key;
        let g = shown.filter(in_group(key));
        shown.lemma_filter_contains(in_group(key), q);
        assert(g.len() > 0);
        assert(row == spec_display_group(g));
        assert forall|i: int| 0 <= i < g.len() implies spec_status_rank(#[trigger] g[i].status)
            >= 2 by {
            shown.lemma_filter_pred(in_group(key), i);
            shown.lemma_filter_contains_rev(in_group(key), g[i]);
            let j = choose|j: int| 0 <= j < shown.len() && shown[j] == g[i];
            findings.lemma_filter_pred(shown_fn(ViewMode::Global), j);
        }
        lemma_status_fold_at_least(g, 2);
    }
}

/// Without grouping the table has one row per shown finding.
pub proof fn law_full_view_one_row_per_finding(findings: Seq<FindingView>, m: ViewMode)
    ensures
        spec_display_findings(findings, true, m).len() == findings.filter(shown_fn(m)).len(),
{
}

proof fn lemma_fold_uniform(g: Seq<FindingView>, x: ExposureStatus)
    requires
        g.len() > 0,
        forall|i: int| 0 <= i < g.len() ==> #[trigger] g[i].status == x,
    ensures
        status_fold(g) == x,
    decreases g.len(),
{
    assert(g[g.len() - 1].status == x);
    if g.len() > 1 {
        assert forall|i: int| 0 <= i < g.drop_last().len() implies #[trigger] g.drop_last()[i].status
            == x by {
            assert(g.drop_last()[i] == g[i]);
        }
        lemma_fold_uniform(g.drop_last(), x);
    } else {
        assert(status_fold(g.drop_last()) == ExposureStatus::LocalOnly);
    }
    assert(status_fold(g) == spec_worst_status(status_fold(g.drop_last()), g.last().status));
}

/// Each row of a view carries the status of a finding the view shows, or,
/// grouped, the worst status of a non-empty group of them.
proof fn lemma_row_status(findings: Seq<FindingView>, full: bool, m: ViewMode, row: DisplayView)
    requires
        spec_display_findings(findings, full, m).contains(row),
    ensures
        full ==> exists|f: FindingView|
            #[trigger] findings.filter(shown_fn(m)).contains(f) && row.status == f.status,
        !full ==> exists|g: Seq<FindingView>|
            g.len() > 0 && row.status == status_fold(g) && (forall|i: int|
                0 <= i < g.len() ==> #[trigger] findings.filter(shown_fn(m)).contains(g[i])),
{
    let shown = findings.filter(shown_fn(m));
    let rows = spec_display_findings(findings, full, m);
    let k = choose|k: int| 0 <= k < rows.len() && rows[k] == row;
    if full {
        assert(row == spec_display_from(shown[k]));
        assert(shown.contains(shown[k]));
    } else {
        lemma_key_lt_strict_total();
        lemma_ordered_set(group_keys(shown), key_lt_fn());
        let keys = ordered_set(group_keys(shown), key_lt_fn());
        let key = keys[k];
        assert(keys.contains(key));
        assert(group_keys(shown).contains(key));
        let q = choose|q: int| 0 <= q < group_keys(shown).len() && group_keys(shown)[q] == key;
        let g = shown.filter(in_group(key));
        shown.lemma_filter_contains(in_group(key), q);
        assert(g.len() > 0);
        assert(row == spec_display_group(g));
        assert forall|i: int| 0 <= i < g.len() implies #[trigger] shown.contains(g[i]) by {
            shown.lemma_filter_pred(in_group(key), i);
            shown.lemma_filter_contains_rev(in_group(key), g[i]);
        }
    }
}

proof fn lemma_shown_status(findings: Seq<FindingView>, m: ViewMode, f: FindingView)
    requires
        findings.filter(shown_fn(m)).contains(f),
    ensures
        spec_includes(m, f.status),
{
    let shown = findings.filter(shown_fn(m));
    let j = choose|j: int| 0 <= j < shown.len() && shown[j] == f;
    findings.lemma_filter_pred(shown_fn(m), j);
}

/// The `local` view lists loopback-only ports only: every row of it,
/// grouped or not, is `local only`.
pub proof fn law_local_view_shows_only_local(findings: Seq<FindingView>, full: bool, row: DisplayView)
    requires
        spec_display_findings(findings, full, ViewMode::Local).contains(row),
    ensures
        row.status == ExposureStatus::LocalOnly,
{
    lemma_row_status(findings, full, ViewMode::Local, row);
    let shown = findings.filter(shown_fn(ViewMode::Local));
    if full {
        let f = choose|f: FindingView| #[trigger] shown.contains(f) && row.status == f.status;
        lemma_shown_status(findings, ViewMode::Local, f);
    } else {
        let g = choose|g: Seq<FindingView>|
            g.len() > 0 && row.status == status_fold(g) && (forall|i: int|
                0 <= i < g.len() ==> #[trigger] shown.contains(g[i]));
        assert forall|i: int| 0 <= i < g.len() implies #[trigger] g[i].status
            == ExposureStatus::LocalOnly by {
            lemma_shown_status(findings, ViewMode::Local, g[i]);
        }
        lemma_fold_uniform(g, ExposureStatus::LocalOnly);
    }
}

/// The `container` view lists container-only ports only: every row of it,
/// grouped or not, is `container only`.
pub proof fn law_container_view_shows_only_container(
    findings: Seq<FindingView>,
    full: bool,
    row: DisplayView,
)
    requires
        spec_display_findings(findings, full, ViewMode::Container).contains(row),
    ensures
        row.status == ExposureStatus::ContainerOnly,
{
    lemma_row_status(findings, full, ViewMode::Container, row);
    let shown = findings.filter(shown_fn(ViewMode::Container));
    if full {
        let f = choose|f: FindingView| #[trigger] shown.contains(f) && row.status == f.status;
        lemma_shown_status(findings, ViewMode::Container, f);
    } else {
        let g = choose|g: Seq<FindingView>|
            g.len() > 0 && row.status == status_fold(g) && (forall|i: int|
                0 <= i < g.len() ==> #[trigger] shown.contains(g[i]));
        assert forall|i: int| 0 <= i < g.len() implies #[trigger] g[i].status
            == ExposureStatus::ContainerOnly by {
            lemma_shown_status(findings, ViewMode::Container, g[i]);
        }
        lemma_fold_uniform(g, ExposureStatus::ContainerOnly);
    }
}

/// Without grouping, each view lists exactly the findings of its kind, in
/// order, one row each: `local` the loopback-only ones, `container` the
/// container-only ones, `global` all others, `all` every finding.
pub proof fn law_full_views_list_their_findings(findings: Seq<FindingView>)
    ensures
        spec_display_findings(findings, true, ViewMode::Local) == findings.filter(
            |f: FindingView| f.status == ExposureStatus::LocalOnly,
        ).map_values(|f: FindingView| spec_display_from(f)),
        spec_display_findings(findings, true, ViewMode::Container) == findings.filter(
            |f: FindingView| f.status == ExposureStatus::ContainerOnly,
        ).map_values(|f: FindingView| spec_display_from(f)),
        spec_display_findings(findings, true, ViewMode::Global) == findings.filter(
            |f: FindingView|
                f.status != ExposureStatus::LocalOnly && f.status != ExposureStatus::ContainerOnly,
        ).map_values(|f: FindingView| spec_display_from(f)),
        spec_display_findings(findings, true, ViewMode::All) == findings.map_values(
            |f: FindingView| spec_display_from(f),
        ),
{
    let show = |f: FindingView| spec_display_from(f);
    assert(crate::display::display_from_fn() =~= show);
    assert(shown_fn(ViewMode::Local) =~= (|f: FindingView| f.status == ExposureStatus::LocalOnly));
    assert(shown_fn(ViewMode::Container) =~= (|f: FindingView| f.status
        == ExposureStatus::ContainerOnly));
    assert(shown_fn(ViewMode::Global) =~= (|f: FindingView| f.status != ExposureStatus::LocalOnly
        && f.status != ExposureStatus::ContainerOnly));
    lemma_filter_all(findings, shown_fn(ViewMode::All));
}

proof fn lemma_filter_all(s: Seq<FindingView>, p: spec_fn(FindingView) -> bool)
    requires
        forall|f: FindingView| #[trigger] p(f),
    ensures
        s.filter(p) == s,
    decreases s.len(),
{
    reveal(Seq::filter);
    if s.len() > 0 {
        lemma_filter_all(s.drop_last(), p);
        assert(p(s.last()));
        assert(s.drop_last().push(s.last()) =~= s);
    } else {
        assert(s.filter(p) =~= s);
    }
}

/// Key handling keeps the selection on the rows: from a selected row, every
/// key leaves a selected row.
pub proof fn law_selection_stays_on_rows(state: ViewState, key: KeyInput, rows: usize)
    requires
        state.selected < rows,
    ensures
        spec_handle_key(state, key, rows).0.selected < rows,
{
}

/// Moving down then up returns to the same row when the row below exists.
pub proof fn law_down_then_up(state: ViewState, rows: usize)
    requires
        state.selected + 1 < last_row(rows),
    ensures
        spec_handle_key(spec_handle_key(state, KeyInput::Down, rows).0, KeyInput::Up, rows).0
            == state,
{
}

/// `q` ends the loop, `r` reloads, and neither changes the view.
pub proof fn law_quit_and_reload(state: ViewState, rows: usize)
    ensures
        spec_handle_key(state, KeyInput::Quit, rows) == (state, LoopAction::Quit),
        spec_handle_key(state, KeyInput::Refresh, rows) == (state, LoopAction::Reload),
{
}

// ---------------------------------------------------------------------------
// Docker and numbers
// ---------------------------------------------------------------------------

/// Every mapping parsed from a `docker ps` line names that line's
/// container, and has a host address exactly when it has a host port.
pub proof fn law_docker_mappings_of_line(line: Seq<char>, m: MappingView)
    requires
        spec_parse_docker_line(line).contains(m),
    ensures
        m.container == container_name(line),
        m.host_ip is Some <==> m.host_port is Some,
{
    let container = container_name(line);
    let f = |entry: Seq<char>| spec_parse_port_mapping(crate::text::trim(entry), container);
    crate::text::split_char(ports_text(line), ',').lemma_filter_map_contains(f, m);
}

/// The decimal form of a number is a sequence of digits whose value is the
/// number.
pub proof fn lemma_decimal(n: nat)
    ensures
        decimal(n).len() > 0,
        all_digits(decimal(n)),
        digits_value(decimal(n)) == n,
    decreases n,
{
    if n >= 10 {
        lemma_decimal(n / 10);
        let d = decimal(n / 10);
        let c = crate::text::digit_char((n % 10) as int);
        assert(decimal(n) == d.push(c));
        assert(d.push(c).drop_last() =~= d);
        assert((c as int) == (n % 10) + 0x30);
        assert(crate::text::digit_value(c) == n % 10);
        assert((n / 10) * 10 + n % 10 == n);
        assert(digits_value(d.push(c)) == digits_value(d) * 10 + crate::text::digit_value(c));
        assert(digits_value(d) * 10 == (n / 10) * 10);
        assert forall|i: int| 0 <= i < d.push(c).len() implies crate::text::is_digit(
            #[trigger] d.push(c)[i],
        ) by {
            if i < d.len() {
                assert(d.push(c)[i] == d[i]);
            }
        }
    } else {
        assert forall|i: int| 0 <= i < decimal(n).len() implies crate::text::is_digit(
            #[trigger] decimal(n)[i],
        ) by {}
        assert(decimal(n).drop_last() =~= Seq::<char>::empty());
        let c = crate::text::digit_char(n as int);
        assert((c as int) == n + 0x30);
        assert(decimal(n).last() == c);
        assert(digits_value(Seq::<char>::empty()) == 0);
        assert(digits_value(decimal(n)) == digits_value(decimal(n).drop_last()) * 10
            + crate::text::digit_value(c));
    }
}

/// Reading back the decimal form of a port gives the port: what a rule line
/// spells as a port token is what `parse` turns into that port.
pub proof fn law_port_decimal_roundtrip(port: u16)
    ensures
        parse_unsigned(decimal(port as nat), u16::MAX as int) == Some(port as int),
{
    lemma_decimal(port as nat);
    let d = decimal(port as nat);
    assert(crate::text::is_digit(d[0]));
}

} // verus!
