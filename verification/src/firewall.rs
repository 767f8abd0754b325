//! Firewall signals from `iptables-save`, `nft list ruleset` and
//! `ufw status verbose` output.
use vstd::prelude::*;
use crate::model::{
    CommandOutcome, FirewallDecision, FirewallSignal, FirewallSource, Listener, ListenerView, Protocol,
    SignalView, first_where, listeners_view, signals_view,
};
use crate::text::{
    chars_of, contains, contains_str, decimal, decimal_of, ends_with, ends_with_str,
    is_alnum, is_ascii_alphanumeric, lemma_views_push, lines, lines_of, lower, lower_exec,
    occurs_at, occurs_at_exec, starts_with, starts_with_str, string_from_chars, trim,
    trim_chars, views,
};

verus! {

// ---------------------------------------------------------------------------
// Classifying one rule line
// ---------------------------------------------------------------------------

/// The verdict a rule line carries, checked in the order accept, drop,
/// reject.
pub open spec fn spec_parse_decision(line: Seq<char>) -> Option<FirewallDecision> {
    if contains(line, " -j ACCEPT"@) || ends_with(line, " accept"@) || contains(
        line,
        " accept "@,
    ) {
        Some(FirewallDecision::Accept)
    } else if contains(line, " -j DROP"@) || ends_with(line, " drop"@) || contains(
        line,
        " drop "@,
    ) {
        Some(FirewallDecision::Drop)
    } else if contains(line, " -j REJECT"@) || ends_with(line, " reject"@) || contains(
        line,
        " reject "@,
    ) {
        Some(FirewallDecision::Reject)
    } else {
        None
    }
}

/// The protocol a rule line names, TCP first.
pub open spec fn spec_parse_protocol(line: Seq<char>) -> Option<Protocol> {
    if contains(line, " tcp "@) || contains(line, " -p tcp"@) || contains(line, "/tcp"@) {
        Some(Protocol::Tcp)
    } else if contains(line, " udp "@) || contains(line, " -p udp"@) || contains(
        line,
        "/udp"@,
    ) {
        Some(Protocol::Udp)
    } else {
        None
    }
}

/// The decimal form of `port` is one of the pieces of `line` between
/// characters that are not ASCII alphanumeric.
pub open spec fn spec_contains_port_token(line: Seq<char>, port: u16) -> bool {
    exists|i: int| port_token_at(line, port, i)
}

/// The decimal form of `port` stands in `line` at `i`, between characters
/// that are not ASCII alphanumeric (or the ends of the line).
pub open spec fn port_token_at(line: Seq<char>, port: u16, i: int) -> bool {
    let d = decimal(port as nat);
    occurs_at(line, d, i) && (i == 0 || !is_alnum(line[i - 1])) && (i + d.len() == line.len()
        || !is_alnum(line[i + d.len()]))
}

/// Whether a rule for `protocol` mentioning `line`'s tokens concerns `l`.
pub open spec fn rule_concerns(line: Seq<char>, protocol: Option<Protocol>, l: ListenerView) -> bool {
    (protocol is None || protocol == Some(l.protocol)) && spec_contains_port_token(line, l.port)
}

pub open spec fn rule_pred(line: Seq<char>, protocol: Option<Protocol>) -> spec_fn(
    ListenerView,
) -> bool {
    |l: ListenerView| rule_concerns(line, protocol, l)
}

/// The port of the first listener that the rule concerns.
pub open spec fn spec_matching_listener_port(
    line: Seq<char>,
    protocol: Option<Protocol>,
    listeners: Seq<ListenerView>,
) -> Option<u16> {
    match first_where(listeners, rule_pred(line, protocol)) {
        Some(l) => Some(l.port),
        None => None,
    }
}

/// Source-address matches, sets and rate limits make a rule conditional.
pub open spec fn spec_is_conditional_rule(line: Seq<char>) -> bool {
    contains(line, " ip saddr "@) || contains(line, " ip6 saddr "@) || contains(line, " @"@)
        || contains(line, " match \"set\""@) || contains(line, " limit rate "@)
}

pub open spec fn spec_has_verdict(line: Seq<char>) -> bool {
    contains(line, " accept"@) || contains(line, " drop"@) || contains(line, " reject"@)
}

/// A signal for a rule line with a verdict that concerns a listener.
pub open spec fn spec_parse_rule_line(
    source: FirewallSource,
    line: Seq<char>,
    listeners: Seq<ListenerView>,
) -> Option<SignalView> {
    match spec_parse_decision(line) {
        Some(decision) => {
            let protocol = spec_parse_protocol(line);
            match spec_matching_listener_port(line, protocol, listeners) {
                Some(port) => Some(
                    SignalView {
                        source,
                        decision,
                        protocol,
                        port: Some(port),
                        guard: None,
                        conditional: spec_is_conditional_rule(line),
                        detail: line,
                    },
                ),
                None => None,
            }
        },
        None => None,
    }
}

/// A signal for a `ufw status` line with `ALLOW`, `DENY` or `REJECT` that
/// concerns a listener.
pub open spec fn spec_parse_ufw_line(line: Seq<char>, listeners: Seq<ListenerView>) -> Option<
    SignalView,
> {
    let decision = if contains(line, " ALLOW "@) {
        Some(FirewallDecision::Accept)
    } else if contains(line, " DENY "@) {
        Some(FirewallDecision::Drop)
    } else if contains(line, " REJECT "@) {
        Some(FirewallDecision::Reject)
    } else {
        None
    };
    match decision {
        Some(decision) => {
            let protocol = spec_parse_protocol(line);
            match spec_matching_listener_port(line, protocol, listeners) {
                Some(port) => Some(
                    SignalView {
                        source: FirewallSource::Ufw,
                        decision,
                        protocol,
                        port: Some(port),
                        guard: None,
                        conditional: spec_is_conditional_rule(line),
                        detail: line,
                    },
                ),
                None => None,
            }
        },
        None => None,
    }
}

// ---------------------------------------------------------------------------
// Whole outputs
// ---------------------------------------------------------------------------

pub open spec fn is_input_rule(line: Seq<char>) -> bool {
    starts_with(line, "-A INPUT"@) || starts_with(line, "-A DOCKER-USER"@)
}

pub open spec fn iptables_line(line: Seq<char>, listeners: Seq<ListenerView>) -> Option<
    SignalView,
> {
    if is_input_rule(line) {
        spec_parse_rule_line(FirewallSource::Iptables, line, listeners)
    } else {
        None
    }
}

/// Signals from the `INPUT` and `DOCKER-USER` rules of `iptables-save`
/// output, in order.
pub open spec fn spec_parse_iptables_save(rules: Seq<char>, listeners: Seq<ListenerView>) -> Seq<
    SignalView,
> {
    lines(rules).filter_map(|line: Seq<char>| iptables_line(line, listeners))
}

/// Signals from the lines of `ufw status` output, each trimmed, in order.
pub open spec fn spec_parse_ufw_status(status: Seq<char>, listeners: Seq<ListenerView>) -> Seq<
    SignalView,
> {
    lines(status).filter_map(|line: Seq<char>| spec_parse_ufw_line(trim(line), listeners))
}

/// A guard chain's drop signal, for no port in particular.
pub open spec fn spec_guard_signal(guard: Seq<char>, detail: Seq<char>) -> SignalView {
    SignalView {
        source: FirewallSource::Nftables,
        decision: FirewallDecision::Drop,
        protocol: None,
        port: None,
        guard: Some(guard),
        conditional: true,
        detail,
    }
}

/// The table or chain header that governs the lines after it.
pub open spec fn next_context(context: Seq<char>, line: Seq<char>) -> Seq<char> {
    if starts_with(line, "table "@) || starts_with(line, "chain "@) {
        line
    } else {
        context
    }
}

/// A fail2ban chain, or a rule matching one of its address sets.
pub open spec fn is_fail2ban(context: Seq<char>, line: Seq<char>) -> bool {
    contains(lower(context), "f2b"@) || contains(lower(context), "fail2ban"@) || contains(
        lower(line),
        "addr-set-"@,
    )
}

/// The signal of one trimmed nftables line under its table or chain header:
/// any verdict inside a CrowdSec table or chain is a CrowdSec guard; a
/// `dport` rule with a verdict that concerns a listener is a port signal,
/// a fail2ban guard where fail2ban is involved.
pub open spec fn nft_line_signal(
    context: Seq<char>,
    line: Seq<char>,
    listeners: Seq<ListenerView>,
) -> Option<SignalView> {
    if contains(lower(context), "crowdsec"@) && spec_has_verdict(line) {
        Some(spec_guard_signal("crowdsec"@, line))
    } else if contains(line, " dport "@) && spec_has_verdict(line) {
        match spec_parse_rule_line(FirewallSource::Nftables, line, listeners) {
            Some(sig) => Some(
                if is_fail2ban(context, line) {
                    SignalView { guard: Some("fail2ban"@), conditional: true, ..sig }
                } else {
                    sig
                },
            ),
            None => None,
        }
    } else {
        None
    }
}

/// Signals of the given raw lines, the context starting at `context`.
pub open spec fn nft_signals(
    raw_lines: Seq<Seq<char>>,
    context: Seq<char>,
    listeners: Seq<ListenerView>,
) -> Seq<SignalView>
    decreases raw_lines.len(),
{
    if raw_lines.len() == 0 {
        seq![]
    } else {
        let line = trim(raw_lines[0]);
        let ctx = next_context(context, line);
        let here = match nft_line_signal(ctx, line, listeners) {
            Some(s) => seq![s],
            None => seq![],
        };
        here + nft_signals(raw_lines.drop_first(), ctx, listeners)
    }
}

/// Signals from `nft list ruleset` output, in order.
pub open spec fn spec_parse_nftables_ruleset(
    ruleset: Seq<char>,
    listeners: Seq<ListenerView>,
) -> Seq<SignalView> {
    nft_signals(lines(ruleset), seq![], listeners)
}

// ---------------------------------------------------------------------------
// Executable parsing
// ---------------------------------------------------------------------------

fn parse_decision(line: &Vec<char>) -> (r: Option<FirewallDecision>)
    ensures
        r == spec_parse_decision(line@),
{
    if contains_str(line, " -j ACCEPT") || ends_with_str(line, " accept") || contains_str(
        line,
        " accept ",
    ) {
        Some(FirewallDecision::Accept)
    } else if contains_str(line, " -j DROP") || ends_with_str(line, " drop") || contains_str(
        line,
        " drop ",
    ) {
        Some(FirewallDecision::Drop)
    } else if contains_str(line, " -j REJECT") || ends_with_str(line, " reject") || contains_str(
        line,
        " reject ",
    ) {
        Some(FirewallDecision::Reject)
    } else {
        None
    }
}

fn parse_protocol(line: &Vec<char>) -> (r: Option<Protocol>)
    ensures
        r == spec_parse_protocol(line@),
{
    if contains_str(line, " tcp ") || contains_str(line, " -p tcp") || contains_str(line, "/tcp") {
        Some(Protocol::Tcp)
    } else if contains_str(line, " udp ") || contains_str(line, " -p udp") || contains_str(
        line,
        "/udp",
    ) {
        Some(Protocol::Udp)
    } else {
        None
    }
}

fn contains_port_token(line: &Vec<char>, port: u16) -> (r: bool)
    ensures
        r == spec_contains_port_token(line@, port),
{
    let d = decimal_of(port as u32);
    let ghost dd = decimal(port as nat);
    assert(d@ == dd);
    if d.len() > line.len() {
        assert forall|i: int| !port_token_at(line@, port, i) by {}
        return false;
    }
    let last = line.len() - d.len();
    let mut i: usize = 0;
    loop
        invariant
            d@ == dd,
            dd == decimal(port as nat),
            d.len() <= line.len(),
            last == line.len() - d.len(),
            i <= last,
            forall|j: int| 0 <= j < i ==> !#[trigger] port_token_at(line@, port, j),
        ensures
            forall|j: int| 0 <= j <= last ==> !#[trigger] port_token_at(line@, port, j),
        decreases last - i,
    {
        if occurs_at_exec(line, &d, i) {
            let before_ok = i == 0 || !is_ascii_alphanumeric(line[i - 1]);
            let after_ok = i + d.len() == line.len() || !is_ascii_alphanumeric(line[i + d.len()]);
            if before_ok && after_ok {
                assert(port_token_at(line@, port, i as int));
                return true;
            }
        }
        if i == last {
            break;
        }
        i += 1;
    }
    assert forall|j: int| !port_token_at(line@, port, j) by {
        if 0 <= j <= last {
        }
    }
    false
}

fn matching_listener_port(line: &Vec<char>, protocol: Option<Protocol>, listeners: &[Listener]) -> (r:
    Option<u16>)
    ensures
        r == spec_matching_listener_port(line@, protocol, listeners_view(listeners@)),
{
    let ghost ls = listeners_view(listeners@);
    let ghost p = rule_pred(line@, protocol);
    let mut i: usize = 0;
    assert(ls.skip(0) =~= ls);
    while i < listeners.len()
        invariant
            i <= listeners.len(),
            ls == listeners_view(listeners@),
            p == rule_pred(line@, protocol),
            first_where(ls, p) == first_where(ls.skip(i as int), p),
        decreases listeners.len() - i,
    {
        let l = &listeners[i];
        assert(ls[i as int] == l@);
        assert(ls.skip(i as int)[0] == l@);
        let proto_ok = match protocol {
            Some(pr) => pr == l.protocol,
            None => true,
        };
        if proto_ok && contains_port_token(line, l.port) {
            return Some(l.port);
        }
        assert(ls.skip(i as int).drop_first() =~= ls.skip(i + 1));
        i += 1;
    }
    None
}

fn is_conditional_rule(line: &Vec<char>) -> (r: bool)
    ensures
        r == spec_is_conditional_rule(line@),
{
    contains_str(line, " ip saddr ") || contains_str(line, " ip6 saddr ") || contains_str(line, " @")
        || contains_str(line, " match \"set\"") || contains_str(line, " limit rate ")
}

fn has_verdict(line: &Vec<char>) -> (r: bool)
    ensures
        r == spec_has_verdict(line@),
{
    contains_str(line, " accept") || contains_str(line, " drop") || contains_str(line, " reject")
}

fn parse_rule_line(source: FirewallSource, line: &Vec<char>, listeners: &[Listener]) -> (r: Option<
    FirewallSignal,
>)
    ensures
        match r {
            Some(s) => spec_parse_rule_line(source, line@, listeners_view(listeners@)) == Some(s@),
            None => spec_parse_rule_line(source, line@, listeners_view(listeners@)) is None,
        },
{
    let decision = match parse_decision(line) {
        Some(d) => d,
        None => {
            return None;
        },
    };
    let protocol = parse_protocol(line);
    let port = match matching_listener_port(line, protocol, listeners) {
        Some(p) => p,
        None => {
            return None;
        },
    };
    let s = FirewallSignal {
        source,
        decision,
        protocol,
        port: Some(port),
        guard: None,
        conditional: is_conditional_rule(line),
        detail: string_from_chars(line.as_slice()),
    };
    assert(s@ =~= spec_parse_rule_line(source, line@, listeners_view(listeners@))->0);
    Some(s)
}

fn parse_ufw_line(line: &Vec<char>, listeners: &[Listener]) -> (r: Option<FirewallSignal>)
    ensures
        match r {
            Some(s) => spec_parse_ufw_line(line@, listeners_view(listeners@)) == Some(s@),
            None => spec_parse_ufw_line(line@, listeners_view(listeners@)) is None,
        },
{
    let decision = if contains_str(line, " ALLOW ") {
        FirewallDecision::Accept
    } else if contains_str(line, " DENY ") {
        FirewallDecision::Drop
    } else if contains_str(line, " REJECT ") {
        FirewallDecision::Reject
    } else {
        return None;
    };
    let protocol = parse_protocol(line);
    let port = match matching_listener_port(line, protocol, listeners) {
        Some(p) => p,
        None => {
            return None;
        },
    };
    let s = FirewallSignal {
        source: FirewallSource::Ufw,
        decision,
        protocol,
        port: Some(port),
        guard: None,
        conditional: is_conditional_rule(line),
        detail: string_from_chars(line.as_slice()),
    };
    assert(s@ =~= spec_parse_ufw_line(line@, listeners_view(listeners@))->0);
    Some(s)
}

fn guard_signal(guard: &str, detail: &Vec<char>) -> (r: FirewallSignal)
    ensures
        r@ == spec_guard_signal(guard@, detail@),
{
    FirewallSignal {
        source: FirewallSource::Nftables,
        decision: FirewallDecision::Drop,
        protocol: None,
        port: None,
        guard: Some(guard.to_owned()),
        conditional: true,
        detail: string_from_chars(detail.as_slice()),
    }
}

/// Parses `iptables-save` output.
pub fn parse_iptables_save(rules: &str, listeners: &[Listener]) -> (r: Vec<FirewallSignal>)
    ensures
        signals_view(r@) == spec_parse_iptables_save(rules@, listeners_view(listeners@)),
{
    let text = chars_of(rules);
    let all = lines_of(&text);
    let ghost ls = lines(rules@);
    let ghost lv = listeners_view(listeners@);
    let ghost f = |line: Seq<char>| iptables_line(line, lv);
    let mut r: Vec<FirewallSignal> = Vec::new();
    let mut j: usize = 0;
    assert(ls.take(0) =~= Seq::<Seq<char>>::empty());
    while j < all.len()
        invariant
            j <= all.len(),
            views(all@) == ls,
            ls == lines(rules@),
            lv == listeners_view(listeners@),
            f == (|line: Seq<char>| iptables_line(line, lv)),
            signals_view(r@) == ls.take(j as int).filter_map(f),
        decreases all.len() - j,
    {
        proof {
            ls.lemma_filter_map_take_succ(f, j as int);
            assert(ls[j as int] == all@[j as int]@);
        }
        let line = &all[j];
        if starts_with_str(line, "-A INPUT") || starts_with_str(line, "-A DOCKER-USER") {
            match parse_rule_line(FirewallSource::Iptables, line, listeners) {
                Some(s) => {
                    r.push(s);
                },
                None => {},
            }
        }
        assert(signals_view(r@) =~= ls.take(j + 1).filter_map(f));
        j += 1;
    }
    assert(ls.take(all.len() as int) =~= ls);
    r
}

/// Parses `ufw status verbose` output.
pub fn parse_ufw_status(status: &str, listeners: &[Listener]) -> (r: Vec<FirewallSignal>)
    ensures
        signals_view(r@) == spec_parse_ufw_status(status@, listeners_view(listeners@)),
{
    let text = chars_of(status);
    let all = lines_of(&text);
    let ghost ls = lines(status@);
    let ghost lv = listeners_view(listeners@);
    let ghost f = |line: Seq<char>| spec_parse_ufw_line(trim(line), lv);
    let mut r: Vec<FirewallSignal> = Vec::new();
    let mut j: usize = 0;
    assert(ls.take(0) =~= Seq::<Seq<char>>::empty());
    while j < all.len()
        invariant
            j <= all.len(),
            views(all@) == ls,
            ls == lines(status@),
            lv == listeners_view(listeners@),
            f == (|line: Seq<char>| spec_parse_ufw_line(trim(line), lv)),
            signals_view(r@) == ls.take(j as int).filter_map(f),
        decreases all.len() - j,
    {
        proof {
            ls.lemma_filter_map_take_succ(f, j as int);
            assert(ls[j as int] == all@[j as int]@);
        }
        let line = trim_chars(&all[j]);
        match parse_ufw_line(&line, listeners) {
            Some(s) => {
                r.push(s);
            },
            None => {},
        }
        assert(signals_view(r@) =~= ls.take(j + 1).filter_map(f));
        j += 1;
    }
    assert(ls.take(all.len() as int) =~= ls);
    r
}

/// Parses `nft list ruleset` output.
pub fn parse_nftables_ruleset(ruleset: &str, listeners: &[Listener]) -> (r: Vec<FirewallSignal>)
    ensures
        signals_view(r@) == spec_parse_nftables_ruleset(ruleset@, listeners_view(listeners@)),
{
    let text = chars_of(ruleset);
    let all = lines_of(&text);
    let ghost ls = lines(ruleset@);
    let ghost lv = listeners_view(listeners@);
    let mut r: Vec<FirewallSignal> = Vec::new();
    let mut context: Vec<char> = Vec::new();
    let mut j: usize = 0;
    assert(ls.skip(0) =~= ls);
    assert(context@ =~= seq![]);
    while j < all.len()
        invariant
            j <= all.len(),
            views(all@) == ls,
            ls == lines(ruleset@),
            lv == listeners_view(listeners@),
            signals_view(r@) + nft_signals(ls.skip(j as int), context@, lv)
                == spec_parse_nftables_ruleset(ruleset@, lv),
        decreases all.len() - j,
    {
        let ghost rest = ls.skip(j as int);
        let ghost old_ctx = context@;
        assert(rest[0] == all@[j as int]@);
        assert(rest.drop_first() =~= ls.skip(j + 1));
        let line = trim_chars(&all[j]);
        if starts_with_str(&line, "table ") || starts_with_str(&line, "chain ") {
            context = line.clone();
        }
        let ghost ctx = context@;
        assert(ctx == next_context(old_ctx, line@));
        let context_lower = lower_exec(&context);
        let line_lower = lower_exec(&line);
        let ghost here = match nft_line_signal(ctx, line@, lv) {
            Some(s) => seq![s],
            None => Seq::<SignalView>::empty(),
        };
        let ghost before = signals_view(r@);
        if contains_str(&context_lower, "crowdsec") && has_verdict(&line) {
            r.push(guard_signal("crowdsec", &line));
            assert(signals_view(r@) =~= before + here);
        } else if contains_str(&line, " dport ") && has_verdict(&line) {
            match parse_rule_line(FirewallSource::Nftables, &line, listeners) {
                Some(mut signal) => {
                    if contains_str(&context_lower, "f2b") || contains_str(&context_lower, "fail2ban")
                        || contains_str(&line_lower, "addr-set-") {
                        signal.guard = Some("fail2ban".to_owned());
                        signal.conditional = true;
                    }
                    r.push(signal);
                    assert(signals_view(r@) =~= before + here);
                },
                None => {
                    assert(signals_view(r@) =~= before + here);
                },
            }
        } else {
            assert(signals_view(r@) =~= before + here);
        }
        assert(signals_view(r@) + nft_signals(ls.skip(j + 1), context@, lv) =~= before
            + nft_signals(rest, old_ctx, lv));
        j += 1;
    }
    assert(ls.skip(all.len() as int) =~= Seq::<Seq<char>>::empty());
    assert(signals_view(r@) =~= signals_view(r@) + nft_signals(ls.skip(j as int), context@, lv));
    r
}

// ---------------------------------------------------------------------------
// Collecting from the three front ends
// ---------------------------------------------------------------------------

pub open spec fn spec_presence_signal(source: FirewallSource, detail: Seq<char>) -> SignalView {
    SignalView {
        source,
        decision: FirewallDecision::Present,
        protocol: None,
        port: None,
        guard: None,
        conditional: false,
        detail,
    }
}

pub open spec fn spec_unavailable_signal(source: FirewallSource, detail: Seq<char>) -> SignalView {
    SignalView {
        source,
        decision: FirewallDecision::Unavailable,
        protocol: None,
        port: None,
        guard: None,
        conditional: false,
        detail,
    }
}

/// The parsed signals, or one presence signal with `detail` when none was
/// parsed.
pub open spec fn or_presence(parsed: Seq<SignalView>, source: FirewallSource, detail: Seq<char>) -> Seq<
    SignalView,
> {
    if parsed.len() == 0 {
        seq![spec_presence_signal(source, detail)]
    } else {
        parsed
    }
}

pub open spec fn spec_nftables_signals(outcome: CommandOutcome, listeners: Seq<ListenerView>) -> Seq<
    SignalView,
> {
    match outcome {
        CommandOutcome::Success(out) => or_presence(
            spec_parse_nftables_ruleset(out@, listeners),
            FirewallSource::Nftables,
            "nftables ruleset available, no direct port verdict parsed"@,
        ),
        CommandOutcome::Failed(_) => seq![
            spec_unavailable_signal(
                FirewallSource::Nftables,
                "nft command failed, often because privileges are missing"@,
            ),
        ],
        CommandOutcome::NotFound => seq![
            spec_unavailable_signal(FirewallSource::Nftables, "nft command not found"@),
        ],
    }
}

pub open spec fn spec_iptables_signals(outcome: CommandOutcome, listeners: Seq<ListenerView>) -> Seq<
    SignalView,
> {
    match outcome {
        CommandOutcome::Success(out) => or_presence(
            spec_parse_iptables_save(out@, listeners),
            FirewallSource::Iptables,
            "iptables rules available, no direct port verdict parsed"@,
        ),
        CommandOutcome::Failed(_) => seq![
            spec_unavailable_signal(
                FirewallSource::Iptables,
                "iptables-save failed, often because privileges are missing"@,
            ),
        ],
        CommandOutcome::NotFound => seq![
            spec_unavailable_signal(FirewallSource::Iptables, "iptables-save command not found"@),
        ],
    }
}

/// The first line of `ufw status`, or `ufw available` for empty output.
pub open spec fn ufw_headline(out: Seq<char>) -> Seq<char> {
    if lines(out).len() > 0 {
        lines(out)[0]
    } else {
        "ufw available"@
    }
}

pub open spec fn spec_ufw_signals(outcome: CommandOutcome, listeners: Seq<ListenerView>) -> Seq<
    SignalView,
> {
    match outcome {
        CommandOutcome::Success(out) => or_presence(
            spec_parse_ufw_status(out@, listeners),
            FirewallSource::Ufw,
            ufw_headline(out@),
        ),
        CommandOutcome::Failed(_) => seq![
            spec_unavailable_signal(FirewallSource::Ufw, "ufw status failed"@),
        ],
        CommandOutcome::NotFound => seq![
            spec_unavailable_signal(FirewallSource::Ufw, "ufw command not found"@),
        ],
    }
}

fn presence_signal(source: FirewallSource, detail: String) -> (r: FirewallSignal)
    ensures
        r@ == spec_presence_signal(source, detail@),
{
    FirewallSignal {
        source,
        decision: FirewallDecision::Present,
        protocol: None,
        port: None,
        guard: None,
        conditional: false,
        detail,
    }
}

fn unavailable_signal(source: FirewallSource, detail: &str) -> (r: FirewallSignal)
    ensures
        r@ == spec_unavailable_signal(source, detail@),
{
    FirewallSignal {
        source,
        decision: FirewallDecision::Unavailable,
        protocol: None,
        port: None,
        guard: None,
        conditional: false,
        detail: detail.to_owned(),
    }
}

/// Moves all of `src` to the end of `dst`.
fn extend_signals(dst: &mut Vec<FirewallSignal>, src: Vec<FirewallSignal>)
    ensures
        signals_view(final(dst)@) == signals_view(old(dst)@) + signals_view(src@),
{
    let mut src = src;
    let ghost d0 = signals_view(dst@);
    let ghost s0 = signals_view(src@);
    dst.append(&mut src);
    assert(signals_view(dst@) =~= d0 + s0);
}

fn push_or_presence(
    signals: &mut Vec<FirewallSignal>,
    parsed: Vec<FirewallSignal>,
    source: FirewallSource,
    detail: String,
)
    ensures
        signals_view(final(signals)@) == signals_view(old(signals)@) + or_presence(
            signals_view(parsed@),
            source,
            detail@,
        ),
{
    if parsed.len() == 0 {
        let ghost before = signals_view(signals@);
        signals.push(presence_signal(source, detail));
        assert(signals_view(signals@) =~= before + seq![spec_presence_signal(source, detail@)]);
    } else {
        extend_signals(signals, parsed);
    }
}

fn push_unavailable(signals: &mut Vec<FirewallSignal>, source: FirewallSource, detail: &str)
    ensures
        signals_view(final(signals)@) == signals_view(old(signals)@) + seq![
            spec_unavailable_signal(source, detail@),
        ],
{
    let ghost before = signals_view(signals@);
    signals.push(unavailable_signal(source, detail));
    assert(signals_view(signals@) =~= before + seq![spec_unavailable_signal(source, detail@)]);
}

fn collect_nftables(signals: &mut Vec<FirewallSignal>, outcome: &CommandOutcome, listeners: &[Listener])
    ensures
        signals_view(final(signals)@) == signals_view(old(signals)@) + spec_nftables_signals(
            *outcome,
            listeners_view(listeners@),
        ),
{
    match outcome {
        CommandOutcome::Success(out) => {
            let parsed = parse_nftables_ruleset(out.as_str(), listeners);
            push_or_presence(
                signals,
                parsed,
                FirewallSource::Nftables,
                "nftables ruleset available, no direct port verdict parsed".to_owned(),
            );
        },
        CommandOutcome::Failed(_) => push_unavailable(
            signals,
            FirewallSource::Nftables,
            "nft command failed, often because privileges are missing",
        ),
        CommandOutcome::NotFound => push_unavailable(
            signals,
            FirewallSource::Nftables,
            "nft command not found",
        ),
    }
}

fn collect_iptables(signals: &mut Vec<FirewallSignal>, outcome: &CommandOutcome, listeners: &[Listener])
    ensures
        signals_view(final(signals)@) == signals_view(old(signals)@) + spec_iptables_signals(
            *outcome,
            listeners_view(listeners@),
        ),
{
    match outcome {
        CommandOutcome::Success(out) => {
            let parsed = parse_iptables_save(out.as_str(), listeners);
            push_or_presence(
                signals,
                parsed,
                FirewallSource::Iptables,
                "iptables rules available, no direct port verdict parsed".to_owned(),
            );
        },
        CommandOutcome::Failed(_) => push_unavailable(
            signals,
            FirewallSource::Iptables,
            "iptables-save failed, often because privileges are missing",
        ),
        CommandOutcome::NotFound => push_unavailable(
            signals,
            FirewallSource::Iptables,
            "iptables-save command not found",
        ),
    }
}

fn collect_ufw(signals: &mut Vec<FirewallSignal>, outcome: &CommandOutcome, listeners: &[Listener])
    ensures
        signals_view(final(signals)@) == signals_view(old(signals)@) + spec_ufw_signals(
            *outcome,
            listeners_view(listeners@),
        ),
{
    match outcome {
        CommandOutcome::Success(out) => {
            let parsed = parse_ufw_status(out.as_str(), listeners);
            let text = chars_of(out.as_str());
            let all = lines_of(&text);
            let headline = if all.len() > 0 {
                assert(views(all@)[0] == all@[0]@);
                string_from_chars(all[0].as_slice())
            } else {
                "ufw available".to_owned()
            };
            push_or_presence(signals, parsed, FirewallSource::Ufw, headline);
        },
        CommandOutcome::Failed(_) => push_unavailable(
            signals,
            FirewallSource::Ufw,
            "ufw status failed",
        ),
        CommandOutcome::NotFound => push_unavailable(
            signals,
            FirewallSource::Ufw,
            "ufw command not found",
        ),
    }
}

/// Signals from the outcomes of `nft list ruleset`, `iptables-save` and
/// `ufw status verbose`, in that order, for the given listeners.
pub fn collect_firewall_signals(
    nft: &CommandOutcome,
    iptables: &CommandOutcome,
    ufw: &CommandOutcome,
    listeners: &[Listener],
) -> (r: Vec<FirewallSignal>)
    ensures
        signals_view(r@) == spec_nftables_signals(*nft, listeners_view(listeners@))
            + spec_iptables_signals(*iptables, listeners_view(listeners@)) + spec_ufw_signals(
            *ufw,
            listeners_view(listeners@),
        ),
{
    let mut signals: Vec<FirewallSignal> = Vec::new();
    assert(signals_view(signals@) =~= Seq::<SignalView>::empty());
    collect_nftables(&mut signals, nft, listeners);
    collect_iptables(&mut signals, iptables, listeners);
    collect_ufw(&mut signals, ufw, listeners);
    assert(signals_view(signals@) =~= spec_nftables_signals(*nft, listeners_view(listeners@))
        + spec_iptables_signals(*iptables, listeners_view(listeners@)) + spec_ufw_signals(
        *ufw,
        listeners_view(listeners@),
    ));
    signals
}

} // verus!
