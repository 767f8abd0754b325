//! The data the collectors produce and the analyzer reports, with the
//! mathematical view of each type that contracts speak of.
use vstd::prelude::*;

verus! {

/// Transport protocol of a socket or rule.
#[derive(Clone, Copy, Debug, PartialEq, Eq, Structural)]
pub enum Protocol {
    Tcp,
    Udp,
}

/// A listening socket as reported by `ss`.
#[derive(Clone, Debug, PartialEq, Eq)]
pub struct Listener {
    pub protocol: Protocol,
    pub local_address: String,
    pub port: u16,
    pub process: Option<String>,
    pub pid: Option<u32>,
}

/// One piece of firewall evidence.
#[derive(Clone, Debug, PartialEq, Eq)]
pub struct FirewallSignal {
    pub source: FirewallSource,
    pub decision: FirewallDecision,
    pub protocol: Option<Protocol>,
    pub port: Option<u16>,
    pub guard: Option<String>,
    pub conditional: bool,
    pub detail: String,
}

/// The firewall front end a signal comes from.
#[derive(Clone, Copy, Debug, PartialEq, Eq, Structural)]
pub enum FirewallSource {
    Nftables,
    Iptables,
    Ufw,
}

/// What a firewall signal says about traffic.
#[derive(Clone, Copy, Debug, PartialEq, Eq, Structural)]
pub enum FirewallDecision {
    Accept,
    Drop,
    Reject,
    Present,
    Unavailable,
}

/// A port that a Docker container exposes, published on the host or not.
#[derive(Clone, Debug, PartialEq, Eq)]
pub struct DockerMapping {
    pub host_ip: Option<String>,
    pub host_port: Option<u16>,
    pub container_port: u16,
    pub protocol: Protocol,
    pub container: String,
}

/// The verdict on one port.
#[derive(Clone, Copy, Debug, PartialEq, Eq, Structural)]
pub enum ExposureStatus {
    LocalOnly,
    Exposed,
    Firewalled,
    DockerPublished,
    ContainerOnly,
    Guarded,
    NeedsReview,
}

/// The analysis of one listener or Docker mapping.
#[derive(Clone, Debug, PartialEq, Eq)]
pub struct PortFinding {
    pub protocol: Protocol,
    pub port: u16,
    pub process: Option<String>,
    pub pid: Option<u32>,
    pub listen: String,
    pub firewall: String,
    pub docker: Option<DockerMapping>,
    pub status: ExposureStatus,
    pub guards: Vec<String>,
    pub evidence: Vec<String>,
}

/// What running an external command gave.
pub enum CommandOutcome {
    /// The command exited successfully; its standard output.
    Success(String),
    /// The command ran and failed; its standard error.
    Failed(String),
    /// The command could not be started.
    NotFound,
}

// ---------------------------------------------------------------------------
// Views
// ---------------------------------------------------------------------------

pub open spec fn opt_view(o: Option<String>) -> Option<Seq<char>> {
    match o {
        Some(s) => Some(s@),
        None => None,
    }
}

pub open spec fn strings_view(v: Seq<String>) -> Seq<Seq<char>> {
    v.map_values(|s: String| s@)
}

#[verifier::ext_equal]
pub struct ListenerView {
    pub protocol: Protocol,
    pub local_address: Seq<char>,
    pub port: u16,
    pub process: Option<Seq<char>>,
    pub pid: Option<u32>,
}

impl View for Listener {
    type V = ListenerView;

    open spec fn view(&self) -> ListenerView {
        ListenerView {
            protocol: self.protocol,
            local_address: self.local_address@,
            port: self.port,
            process: opt_view(self.process),
            pid: self.pid,
        }
    }
}

#[verifier::ext_equal]
pub struct SignalView {
    pub source: FirewallSource,
    pub decision: FirewallDecision,
    pub protocol: Option<Protocol>,
    pub port: Option<u16>,
    pub guard: Option<Seq<char>>,
    pub conditional: bool,
    pub detail: Seq<char>,
}

impl View for FirewallSignal {
    type V = SignalView;

    open spec fn view(&self) -> SignalView {
        SignalView {
            source: self.source,
            decision: self.decision,
            protocol: self.protocol,
            port: self.port,
            guard: opt_view(self.guard),
            conditional: self.conditional,
            detail: self.detail@,
        }
    }
}

#[verifier::ext_equal]
pub struct MappingView {
    pub host_ip: Option<Seq<char>>,
    pub host_port: Option<u16>,
    pub container_port: u16,
    pub protocol: Protocol,
    pub container: Seq<char>,
}

impl View for DockerMapping {
    type V = MappingView;

    open spec fn view(&self) -> MappingView {
        MappingView {
            host_ip: opt_view(self.host_ip),
            host_port: self.host_port,
            container_port: self.container_port,
            protocol: self.protocol,
            container: self.container@,
        }
    }
}

pub open spec fn opt_mapping_view(o: Option<DockerMapping>) -> Option<MappingView> {
    match o {
        Some(m) => Some(m@),
        None => None,
    }
}

#[verifier::ext_equal]
pub struct FindingView {
    pub protocol: Protocol,
    pub port: u16,
    pub process: Option<Seq<char>>,
    pub pid: Option<u32>,
    pub listen: Seq<char>,
    pub firewall: Seq<char>,
    pub docker: Option<MappingView>,
    pub status: ExposureStatus,
    pub guards: Seq<Seq<char>>,
    pub evidence: Seq<Seq<char>>,
}

impl View for PortFinding {
    type V = FindingView;

    open spec fn view(&self) -> FindingView {
        FindingView {
            protocol: self.protocol,
            port: self.port,
            process: opt_view(self.process),
            pid: self.pid,
            listen: self.listen@,
            firewall: self.firewall@,
            docker: opt_mapping_view(self.docker),
            status: self.status,
            guards: strings_view(self.guards@),
            evidence: strings_view(self.evidence@),
        }
    }
}

pub open spec fn listeners_view(v: Seq<Listener>) -> Seq<ListenerView> {
    v.map_values(|l: Listener| l@)
}

pub open spec fn signals_view(v: Seq<FirewallSignal>) -> Seq<SignalView> {
    v.map_values(|s: FirewallSignal| s@)
}

pub open spec fn mappings_view(v: Seq<DockerMapping>) -> Seq<MappingView> {
    v.map_values(|m: DockerMapping| m@)
}

pub open spec fn findings_view(v: Seq<PortFinding>) -> Seq<FindingView> {
    v.map_values(|f: PortFinding| f@)
}

// ---------------------------------------------------------------------------
// Copies with a known result
// ---------------------------------------------------------------------------

pub fn copy_opt_string(o: &Option<String>) -> (r: Option<String>)
    ensures
        opt_view(r) == opt_view(*o),
{
    match o {
        Some(s) => Some(s.clone()),
        None => None,
    }
}

impl DockerMapping {
    /// A copy of this mapping.
    pub fn duplicate(&self) -> (r: DockerMapping)
        ensures
            r@ == self@,
    {
        DockerMapping {
            host_ip: copy_opt_string(&self.host_ip),
            host_port: self.host_port,
            container_port: self.container_port,
            protocol: self.protocol,
            container: self.container.clone(),
        }
    }
}

pub fn copy_strings(v: &Vec<String>) -> (r: Vec<String>)
    ensures
        strings_view(r@) == strings_view(v@),
{
    let mut r: Vec<String> = Vec::new();
    let mut i: usize = 0;
    while i < v.len()
        invariant
            i <= v.len(),
            strings_view(r@) == strings_view(v@.take(i as int)),
        decreases v.len() - i,
    {
        let c = v[i].clone();
        assert(c@ == v@[i as int]@);
        let ghost before = r@;
        r.push(c);
        assert(strings_view(r@) =~= strings_view(before).push(c@));
        assert(strings_view(v@.take(i + 1)) =~= strings_view(v@.take(i as int)).push(v@[i as int]@));
        i += 1;
    }
    assert(v@.take(i as int) =~= v@);
    r
}

impl PortFinding {
    /// A copy of this finding.
    pub fn duplicate(&self) -> (r: PortFinding)
        ensures
            r@ == self@,
    {
        let docker = match &self.docker {
            Some(m) => Some(m.duplicate()),
            None => None,
        };
        PortFinding {
            protocol: self.protocol,
            port: self.port,
            process: copy_opt_string(&self.process),
            pid: self.pid,
            listen: self.listen.clone(),
            firewall: self.firewall.clone(),
            docker,
            status: self.status,
            guards: copy_strings(&self.guards),
            evidence: copy_strings(&self.evidence),
        }
    }
}

// ---------------------------------------------------------------------------
// Searching
// ---------------------------------------------------------------------------

/// The first element of `s` that satisfies `p` (`Iterator::find`).
pub open spec fn first_where<T>(s: Seq<T>, p: spec_fn(T) -> bool) -> Option<T>
    decreases s.len(),
{
    if s.len() == 0 {
        None
    } else if p(s[0]) {
        Some(s[0])
    } else {
        first_where(s.drop_first(), p)
    }
}

/// Whether some element of `s` satisfies `p` (`Iterator::any`).
pub open spec fn any_where<T>(s: Seq<T>, p: spec_fn(T) -> bool) -> bool {
    exists|i: int| 0 <= i < s.len() && p(s[i])
}

pub proof fn lemma_first_where<T>(s: Seq<T>, p: spec_fn(T) -> bool)
    ensures
        first_where(s, p) is None <==> !any_where(s, p),
        first_where(s, p) is Some ==> p(first_where(s, p)->0) && s.contains(first_where(s, p)->0),
    decreases s.len(),
{
    if s.len() > 0 {
        if !p(s[0]) {
            lemma_first_where(s.drop_first(), p);
            if any_where(s, p) {
                let i = choose|i: int| 0 <= i < s.len() && p(s[i]);
                assert(s.drop_first()[i - 1] == s[i]);
            }
            if any_where(s.drop_first(), p) {
                let i = choose|i: int| 0 <= i < s.drop_first().len() && p(s.drop_first()[i]);
                assert(s[i + 1] == s.drop_first()[i]);
            }
            if first_where(s, p) is Some {
                let x = first_where(s, p)->0;
                let i = choose|i: int| 0 <= i < s.drop_first().len() && s.drop_first()[i] == x;
                assert(s[i + 1] == x);
            }
        } else {
            assert(s.contains(s[0]));
        }
    }
}

} // verus!
