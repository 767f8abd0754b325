//! What the terminal view shows: view modes, rows grouped by port, process
//! and listen address, their details text, and the key handling of the
//! refresh loop.
use vstd::prelude::*;
use crate::model::{ExposureStatus, FindingView, MappingView, PortFinding, Protocol, findings_view, opt_view, strings_view};
use crate::order::{increasing, lemma_ordered_set_is, ordered_set, same_members, strict_total};
use crate::strset::{
    chars_less, insert_sorted, join_strings, lemma_sorted_set_is, lemma_str_lt_asymmetric,
    lemma_str_lt_irreflexive, lemma_str_lt_total, lemma_str_lt_transitive, same_elems, sorted_set,
    sorted_strict, str_lt, str_views,
};
use crate::text::{
    chars_eq, chars_eq_str, chars_of, decimal, decimal_of, find, find_chars, join, lemma_find,
    push_all, push_str, slice_of, string_from_chars,
};

verus! {

// ---------------------------------------------------------------------------
// View modes
// ---------------------------------------------------------------------------

/// Which findings the table shows.
#[derive(Clone, Copy, Debug, PartialEq, Eq, Structural)]
pub enum ViewMode {
    Global,
    All,
    Local,
    Container,
}

pub open spec fn spec_next_mode(m: ViewMode) -> ViewMode {
    match m {
        ViewMode::Global => ViewMode::All,
        ViewMode::All => ViewMode::Local,
        ViewMode::Local => ViewMode::Container,
        ViewMode::Container => ViewMode::Global,
    }
}

pub open spec fn spec_mode_label(m: ViewMode) -> Seq<char> {
    match m {
        ViewMode::Global => "global"@,
        ViewMode::All => "all"@,
        ViewMode::Local => "local"@,
        ViewMode::Container => "container"@,
    }
}

/// `global` hides loopback-only and container-only findings, `local` and
/// `container` show only those, `all` shows everything.
pub open spec fn spec_includes(m: ViewMode, status: ExposureStatus) -> bool {
    match m {
        ViewMode::Global => status != ExposureStatus::LocalOnly && status
            != ExposureStatus::ContainerOnly,
        ViewMode::All => true,
        ViewMode::Local => status == ExposureStatus::LocalOnly,
        ViewMode::Container => status == ExposureStatus::ContainerOnly,
    }
}

impl ViewMode {
    /// The mode that `m` switches to.
    pub fn next(self) -> (r: ViewMode)
        ensures
            r == spec_next_mode(self),
    {
        match self {
            ViewMode::Global => ViewMode::All,
            ViewMode::All => ViewMode::Local,
            ViewMode::Local => ViewMode::Container,
            ViewMode::Container => ViewMode::Global,
        }
    }

    /// The name shown in the title bar.
    pub fn label(self) -> (r: &'static str)
        ensures
            r@ == spec_mode_label(self),
    {
        match self {
            ViewMode::Global => "global",
            ViewMode::All => "all",
            ViewMode::Local => "local",
            ViewMode::Container => "container",
        }
    }

    /// Whether the table shows `finding` in this mode.
    pub fn includes(self, finding: &PortFinding) -> (r: bool)
        ensures
            r == spec_includes(self, finding.status),
    {
        match self {
            ViewMode::Global => finding.status != ExposureStatus::LocalOnly && finding.status
                != ExposureStatus::ContainerOnly,
            ViewMode::All => true,
            ViewMode::Local => finding.status == ExposureStatus::LocalOnly,
            ViewMode::Container => finding.status == ExposureStatus::ContainerOnly,
        }
    }
}

// ---------------------------------------------------------------------------
// Statuses
// ---------------------------------------------------------------------------

/// How much a status calls for attention.
pub open spec fn spec_status_rank(s: ExposureStatus) -> int {
    match s {
        ExposureStatus::Exposed => 6,
        ExposureStatus::Guarded => 5,
        ExposureStatus::NeedsReview => 4,
        ExposureStatus::DockerPublished => 3,
        ExposureStatus::Firewalled => 2,
        ExposureStatus::ContainerOnly => 1,
        ExposureStatus::LocalOnly => 0,
    }
}

pub open spec fn spec_worst_status(left: ExposureStatus, right: ExposureStatus) -> ExposureStatus {
    if spec_status_rank(right) > spec_status_rank(left) {
        right
    } else {
        left
    }
}

pub open spec fn spec_format_status(s: ExposureStatus) -> Seq<char> {
    match s {
        ExposureStatus::LocalOnly => "local only"@,
        ExposureStatus::Exposed => "exposed"@,
        ExposureStatus::Firewalled => "firewalled"@,
        ExposureStatus::DockerPublished => "docker published"@,
        ExposureStatus::ContainerOnly => "container only"@,
        ExposureStatus::Guarded => "guarded"@,
        ExposureStatus::NeedsReview => "needs review"@,
    }
}

pub fn status_rank(s: ExposureStatus) -> (r: u8)
    ensures
        r == spec_status_rank(s),
{
    match s {
        ExposureStatus::Exposed => 6,
        ExposureStatus::Guarded => 5,
        ExposureStatus::NeedsReview => 4,
        ExposureStatus::DockerPublished => 3,
        ExposureStatus::Firewalled => 2,
        ExposureStatus::ContainerOnly => 1,
        ExposureStatus::LocalOnly => 0,
    }
}

/// The status of the two that calls for more attention, `left` on a tie.
pub fn worst_status(left: ExposureStatus, right: ExposureStatus) -> (r: ExposureStatus)
    ensures
        r == spec_worst_status(left, right),
{
    if status_rank(right) > status_rank(left) {
        right
    } else {
        left
    }
}

/// The status as the table writes it.
pub fn format_status(s: ExposureStatus) -> (r: &'static str)
    ensures
        r@ == spec_format_status(s),
{
    match s {
        ExposureStatus::LocalOnly => "local only",
        ExposureStatus::Exposed => "exposed",
        ExposureStatus::Firewalled => "firewalled",
        ExposureStatus::DockerPublished => "docker published",
        ExposureStatus::ContainerOnly => "container only",
        ExposureStatus::Guarded => "guarded",
        ExposureStatus::NeedsReview => "needs review",
    }
}

// ---------------------------------------------------------------------------
// Rows
// ---------------------------------------------------------------------------

/// One row of the table.
pub struct DisplayFinding {
    pub process: String,
    pub protocol: String,
    pub listen: String,
    pub port: u16,
    pub status: ExposureStatus,
    pub firewall: String,
    pub guard: String,
    pub docker: String,
    pub evidence: Vec<String>,
}

#[verifier::ext_equal]
pub struct DisplayView {
    pub process: Seq<char>,
    pub protocol: Seq<char>,
    pub listen: Seq<char>,
    pub port: u16,
    pub status: ExposureStatus,
    pub firewall: Seq<char>,
    pub guard: Seq<char>,
    pub docker: Seq<char>,
    pub evidence: Seq<Seq<char>>,
}

impl View for DisplayFinding {
    type V = DisplayView;

    open spec fn view(&self) -> DisplayView {
        DisplayView {
            process: self.process@,
            protocol: self.protocol@,
            listen: self.listen@,
            port: self.port,
            status: self.status,
            firewall: self.firewall@,
            guard: self.guard@,
            docker: self.docker@,
            evidence: strings_view(self.evidence@),
        }
    }
}

pub open spec fn displays_view(v: Seq<DisplayFinding>) -> Seq<DisplayView> {
    v.map_values(|d: DisplayFinding| d@)
}

/// The process name, `-` when unknown.
pub open spec fn process_label(p: Option<Seq<char>>) -> Seq<char> {
    match p {
        Some(n) => n,
        None => "-"@,
    }
}

/// The protocol in lower case.
pub open spec fn protocol_label(p: Protocol) -> Seq<char> {
    match p {
        Protocol::Tcp => "tcp"@,
        Protocol::Udp => "udp"@,
    }
}

/// A swarm task name `service.1.id` shortened to `service`.
pub open spec fn spec_short_docker_name(name: Seq<char>) -> Seq<char> {
    match find(name, ".1."@) {
        Some(i) => name.take(i),
        None => name,
    }
}

pub open spec fn docker_label(d: Option<MappingView>) -> Seq<char> {
    match d {
        Some(m) => spec_short_docker_name(m.container),
        None => "-"@,
    }
}

/// The row of a single finding.
pub open spec fn spec_display_from(f: FindingView) -> DisplayView {
    DisplayView {
        process: process_label(f.process),
        protocol: protocol_label(f.protocol),
        listen: f.listen,
        port: f.port,
        status: f.status,
        firewall: f.firewall,
        guard: if f.guards.len() == 0 {
            "-"@
        } else {
            join(f.guards, ","@)
        },
        docker: docker_label(f.docker),
        evidence: f.evidence,
    }
}

/// The sequences of `parts`, one after another.
pub open spec fn flatten(parts: Seq<Seq<Seq<char>>>) -> Seq<Seq<char>>
    decreases parts.len(),
{
    if parts.len() == 0 {
        seq![]
    } else {
        flatten(parts.drop_last()) + parts.last()
    }
}

/// The status of a group: the worst of its findings, `local only` for none.
pub open spec fn status_fold(g: Seq<FindingView>) -> ExposureStatus
    decreases g.len(),
{
    if g.len() == 0 {
        ExposureStatus::LocalOnly
    } else {
        spec_worst_status(status_fold(g.drop_last()), g.last().status)
    }
}

pub open spec fn docker_short(f: FindingView) -> Option<Seq<char>> {
    match f.docker {
        Some(m) => Some(spec_short_docker_name(m.container)),
        None => None,
    }
}

pub open spec fn group_processes(g: Seq<FindingView>) -> Seq<Seq<char>> {
    g.map_values(|f: FindingView| process_label(f.process))
}

pub open spec fn group_protocols(g: Seq<FindingView>) -> Seq<Seq<char>> {
    g.map_values(|f: FindingView| protocol_label(f.protocol))
}

pub open spec fn group_firewalls(g: Seq<FindingView>) -> Seq<Seq<char>> {
    g.map_values(|f: FindingView| f.firewall)
}

pub open spec fn group_listens(g: Seq<FindingView>) -> Seq<Seq<char>> {
    g.map_values(|f: FindingView| f.listen)
}

pub open spec fn group_guards(g: Seq<FindingView>) -> Seq<Seq<char>> {
    flatten(g.map_values(|f: FindingView| f.guards))
}

pub open spec fn group_evidence(g: Seq<FindingView>) -> Seq<Seq<char>> {
    flatten(g.map_values(|f: FindingView| f.evidence))
}

pub open spec fn docker_short_fn() -> spec_fn(FindingView) -> Option<Seq<char>> {
    |f: FindingView| docker_short(f)
}

pub open spec fn group_dockers(g: Seq<FindingView>) -> Seq<Seq<char>> {
    g.filter_map(docker_short_fn())
}

/// `0.0.0.0`, `*` or `::` when one of them is among the listen addresses,
/// else the first of them.
pub open spec fn spec_preferred_listen(listens: Seq<Seq<char>>) -> Option<Seq<char>> {
    if listens.contains("0.0.0.0"@) {
        Some("0.0.0.0"@)
    } else if listens.contains("*"@) {
        Some("*"@)
    } else if listens.contains("::"@) {
        Some("::"@)
    } else if listens.len() > 0 {
        Some(listens[0])
    } else {
        None
    }
}

/// `-` for no values, else the values joined by `,`.
pub open spec fn dash_or_join(values: Seq<Seq<char>>) -> Seq<char> {
    if values.len() == 0 {
        "-"@
    } else {
        join(values, ","@)
    }
}

/// The row of a group of findings that share port, process and listen
/// address: each column the sorted distinct values of the group joined by
/// `,`, the worst status, all evidence, and the listen addresses when there
/// are several.
pub open spec fn spec_display_group(g: Seq<FindingView>) -> DisplayView {
    let listens = sorted_set(group_listens(g));
    DisplayView {
        process: join(sorted_set(group_processes(g)), ","@),
        protocol: join(sorted_set(group_protocols(g)), ","@),
        listen: match spec_preferred_listen(listens) {
            Some(l) => l,
            None => g[0].listen,
        },
        port: g[0].port,
        status: status_fold(g),
        firewall: join(sorted_set(group_firewalls(g)), ","@),
        guard: dash_or_join(sorted_set(group_guards(g))),
        docker: dash_or_join(sorted_set(group_dockers(g))),
        evidence: if listens.len() > 1 {
            group_evidence(g).push("listeners: "@ + join(listens, ","@))
        } else {
            group_evidence(g)
        },
    }
}

// ---------------------------------------------------------------------------
// Grouping
// ---------------------------------------------------------------------------

pub open spec fn is_wildcard_listen(listen: Seq<char>) -> bool {
    listen == "0.0.0.0"@ || listen == "::"@ || listen == "*"@
}

/// Port, process name and listen address, wildcard addresses as one.
pub open spec fn spec_group_key(f: FindingView) -> (u16, Seq<char>, Seq<char>) {
    (
        f.port,
        process_label(f.process),
        if is_wildcard_listen(f.listen) {
            "wildcard"@
        } else {
            f.listen
        },
    )
}

/// The order of `(u16, String, String)`.
pub open spec fn key_lt(a: (u16, Seq<char>, Seq<char>), b: (u16, Seq<char>, Seq<char>)) -> bool {
    a.0 < b.0 || (a.0 == b.0 && (str_lt(a.1, b.1) || (a.1 == b.1 && str_lt(a.2, b.2))))
}

pub open spec fn key_lt_fn() -> spec_fn((u16, Seq<char>, Seq<char>), (u16, Seq<char>, Seq<char>)) -> bool {
    |a: (u16, Seq<char>, Seq<char>), b: (u16, Seq<char>, Seq<char>)| key_lt(a, b)
}

pub proof fn lemma_key_lt_strict_total()
    ensures
        strict_total(key_lt_fn()),
{
    let lt = key_lt_fn();
    assert forall|a: (u16, Seq<char>, Seq<char>)| !(#[trigger] lt(a, a)) by {
        lemma_str_lt_irreflexive(a.1);
        lemma_str_lt_irreflexive(a.2);
    }
    assert forall|a: (u16, Seq<char>, Seq<char>), b: (u16, Seq<char>, Seq<char>), c: (
        u16,
        Seq<char>,
        Seq<char>,
    )| #[trigger] lt(a, b) && #[trigger] lt(b, c) implies lt(a, c) by {
        if str_lt(a.1, b.1) && str_lt(b.1, c.1) {
            lemma_str_lt_transitive(a.1, b.1, c.1);
        }
        if str_lt(a.2, b.2) && str_lt(b.2, c.2) {
            lemma_str_lt_transitive(a.2, b.2, c.2);
        }
    }
    assert forall|a: (u16, Seq<char>, Seq<char>), b: (u16, Seq<char>, Seq<char>)|
        a == b || #[trigger] lt(a, b) || lt(b, a) by {
        lemma_str_lt_total(a.1, b.1);
        lemma_str_lt_total(a.2, b.2);
    }
}

pub open spec fn group_keys(fs: Seq<FindingView>) -> Seq<(u16, Seq<char>, Seq<char>)> {
    fs.map_values(|f: FindingView| spec_group_key(f))
}

pub open spec fn in_group(k: (u16, Seq<char>, Seq<char>)) -> spec_fn(FindingView) -> bool {
    |f: FindingView| spec_group_key(f) == k
}

pub open spec fn shown_fn(m: ViewMode) -> spec_fn(FindingView) -> bool {
    |f: FindingView| spec_includes(m, f.status)
}

pub open spec fn display_from_fn() -> spec_fn(FindingView) -> DisplayView {
    |f: FindingView| spec_display_from(f)
}

pub open spec fn group_row_fn(shown: Seq<FindingView>) -> spec_fn((u16, Seq<char>, Seq<char>)) -> DisplayView {
    |k: (u16, Seq<char>, Seq<char>)| spec_display_group(shown.filter(in_group(k)))
}

/// The rows for `findings` in mode `m`: one per shown finding when `full`,
/// else one per group, groups in key order, each group's findings in the
/// order given.
pub open spec fn spec_display_findings(findings: Seq<FindingView>, full: bool, m: ViewMode) -> Seq<
    DisplayView,
> {
    let shown = findings.filter(shown_fn(m));
    if full {
        shown.map_values(display_from_fn())
    } else {
        ordered_set(group_keys(shown), key_lt_fn()).map_values(group_row_fn(shown))
    }
}

// ---------------------------------------------------------------------------
// Executable rows
// ---------------------------------------------------------------------------

/// A swarm task name `service.1.id` shortened to `service`.
pub fn short_docker_name(name: &String) -> (r: String)
    ensures
        r@ == spec_short_docker_name(name@),
{
    let chars = chars_of(name.as_str());
    let marker = chars_of(".1.");
    proof {
        lemma_find(chars@, marker@);
    }
    match find_chars(&chars, &marker) {
        Some(i) => {
            assert(crate::text::occurs_at(chars@, marker@, i as int));
            let head = slice_of(&chars, 0, i);
            assert(head@ =~= name@.take(i as int));
            string_from_chars(head.as_slice())
        },
        None => name.clone(),
    }
}

fn process_text(p: &Option<String>) -> (r: String)
    ensures
        r@ == process_label(opt_view(*p)),
{
    match p {
        Some(n) => n.clone(),
        None => "-".to_owned(),
    }
}

fn protocol_text(p: Protocol) -> (r: String)
    ensures
        r@ == protocol_label(p),
{
    match p {
        Protocol::Tcp => "tcp".to_owned(),
        Protocol::Udp => "udp".to_owned(),
    }
}

/// The row of a single finding.
pub fn display_from(finding: &PortFinding) -> (r: DisplayFinding)
    ensures
        r@ == spec_display_from(finding@),
{
    let guard = if finding.guards.len() == 0 {
        "-".to_owned()
    } else {
        let j = join_strings(&finding.guards, ",");
        string_from_chars(j.as_slice())
    };
    let docker = match &finding.docker {
        Some(m) => short_docker_name(&m.container),
        None => "-".to_owned(),
    };
    let r = DisplayFinding {
        process: process_text(&finding.process),
        protocol: protocol_text(finding.protocol),
        listen: finding.listen.clone(),
        port: finding.port,
        status: finding.status,
        firewall: finding.firewall.clone(),
        guard,
        docker,
        evidence: crate::model::copy_strings(&finding.evidence),
    };
    assert(r@ =~= spec_display_from(finding@));
    r
}

fn contains_text(v: &Vec<String>, t: &str) -> (r: bool)
    ensures
        r == str_views(v@).contains(t@),
{
    let tc = chars_of(t);
    let mut i: usize = 0;
    while i < v.len()
        invariant
            i <= v.len(),
            tc@ == t@,
            forall|j: int| 0 <= j < i ==> str_views(v@)[j] != t@,
        decreases v.len() - i,
    {
        let c = chars_of(v[i].as_str());
        if chars_eq(&c, &tc) {
            assert(str_views(v@)[i as int] == t@);
            return true;
        }
        i += 1;
    }
    false
}

/// `0.0.0.0`, `*` or `::` when present, else the first listen address.
pub fn preferred_listen(listens: &Vec<String>) -> (r: Option<String>)
    ensures
        opt_view(r) == spec_preferred_listen(str_views(listens@)),
{
    if contains_text(listens, "0.0.0.0") {
        Some("0.0.0.0".to_owned())
    } else if contains_text(listens, "*") {
        Some("*".to_owned())
    } else if contains_text(listens, "::") {
        Some("::".to_owned())
    } else if listens.len() > 0 {
        Some(listens[0].clone())
    } else {
        None
    }
}

fn add_to_set(set: &mut Vec<String>, x: String, Ghost(elems): Ghost<Seq<Seq<char>>>)
    requires
        sorted_strict(str_views(old(set)@)),
        same_elems(str_views(old(set)@), elems),
    ensures
        sorted_strict(str_views(final(set)@)),
        same_elems(str_views(final(set)@), elems.push(x@)),
{
    let ghost xv = x@;
    insert_sorted(set, x);
    assert forall|t: Seq<char>| str_views(set@).contains(t) <==> elems.push(xv).contains(t) by {
        if elems.push(xv).contains(t) {
            let k = choose|k: int| 0 <= k < elems.push(xv).len() && elems.push(xv)[k] == t;
            if k < elems.len() {
                assert(elems.contains(t));
            }
        }
        if elems.contains(t) {
            let k = choose|k: int| 0 <= k < elems.len() && elems[k] == t;
            assert(elems.push(xv)[k] == t);
        }
        if t == xv {
            assert(elems.push(xv)[elems.len() as int] == t);
        }
    }
}

proof fn lemma_flatten_push(parts: Seq<Seq<Seq<char>>>, last: Seq<Seq<char>>)
    ensures
        flatten(parts.push(last)) == flatten(parts) + last,
{
    assert(parts.push(last).drop_last() =~= parts);
}

fn join_set(values: &Vec<String>) -> (r: String)
    ensures
        r@ == join(str_views(values@), ","@),
{
    let j = join_strings(values, ",");
    string_from_chars(j.as_slice())
}

fn dash_or_join_set(values: &Vec<String>) -> (r: String)
    ensures
        r@ == dash_or_join(str_views(values@)),
{
    if values.len() == 0 {
        "-".to_owned()
    } else {
        join_set(values)
    }
}

/// The columns of a group, gathered finding by finding.
struct GroupAcc {
    processes: Vec<String>,
    protocols: Vec<String>,
    firewalls: Vec<String>,
    guards: Vec<String>,
    dockers: Vec<String>,
    listens: Vec<String>,
    evidence: Vec<String>,
    status: ExposureStatus,
}

/// `acc` holds the columns of the findings `pre`.
#[verifier::opaque]
spec fn acc_of(acc: GroupAcc, pre: Seq<FindingView>) -> bool {
    &&& sorted_strict(str_views(acc.processes@))
    &&& same_elems(str_views(acc.processes@), group_processes(pre))
    &&& sorted_strict(str_views(acc.protocols@))
    &&& same_elems(str_views(acc.protocols@), group_protocols(pre))
    &&& sorted_strict(str_views(acc.firewalls@))
    &&& same_elems(str_views(acc.firewalls@), group_firewalls(pre))
    &&& sorted_strict(str_views(acc.guards@))
    &&& same_elems(str_views(acc.guards@), group_guards(pre))
    &&& sorted_strict(str_views(acc.dockers@))
    &&& same_elems(str_views(acc.dockers@), group_dockers(pre))
    &&& sorted_strict(str_views(acc.listens@))
    &&& same_elems(str_views(acc.listens@), group_listens(pre))
    &&& strings_view(acc.evidence@) == group_evidence(pre)
    &&& acc.status == status_fold(pre)
}

fn acc_new() -> (acc: GroupAcc)
    ensures
        acc_of(acc, Seq::<FindingView>::empty()),
{
    let acc = GroupAcc {
        processes: Vec::new(),
        protocols: Vec::new(),
        firewalls: Vec::new(),
        guards: Vec::new(),
        dockers: Vec::new(),
        listens: Vec::new(),
        evidence: Vec::new(),
        status: ExposureStatus::LocalOnly,
    };
    let ghost e = Seq::<FindingView>::empty();
    assert(group_processes(e) =~= Seq::<Seq<char>>::empty());
    assert(group_protocols(e) =~= Seq::<Seq<char>>::empty());
    assert(group_firewalls(e) =~= Seq::<Seq<char>>::empty());
    assert(group_listens(e) =~= Seq::<Seq<char>>::empty());
    assert(e.map_values(|f: FindingView| f.guards) =~= Seq::<Seq<Seq<char>>>::empty());
    assert(e.map_values(|f: FindingView| f.evidence) =~= Seq::<Seq<Seq<char>>>::empty());
    assert(group_dockers(e) =~= Seq::<Seq<char>>::empty());
    assert(str_views(acc.processes@) =~= Seq::<Seq<char>>::empty());
    assert(str_views(acc.protocols@) =~= Seq::<Seq<char>>::empty());
    assert(str_views(acc.firewalls@) =~= Seq::<Seq<char>>::empty());
    assert(str_views(acc.guards@) =~= Seq::<Seq<char>>::empty());
    assert(str_views(acc.dockers@) =~= Seq::<Seq<char>>::empty());
    assert(str_views(acc.listens@) =~= Seq::<Seq<char>>::empty());
    assert(strings_view(acc.evidence@) =~= Seq::<Seq<char>>::empty());
    proof {
        reveal(acc_of);
    }
    acc
}

fn acc_add_guards(guards: &mut Vec<String>, f: &PortFinding, Ghost(pre): Ghost<Seq<FindingView>>)
    requires
        sorted_strict(str_views(old(guards)@)),
        same_elems(str_views(old(guards)@), group_guards(pre)),
    ensures
        sorted_strict(str_views(final(guards)@)),
        same_elems(str_views(final(guards)@), group_guards(pre.push(f@))),
{
    let ghost fv = f@;
    proof {
        assert(pre.push(fv).map_values(|f: FindingView| f.guards) =~= pre.map_values(
            |f: FindingView| f.guards,
        ).push(fv.guards));
        lemma_flatten_push(pre.map_values(|f: FindingView| f.guards), fv.guards);
    }
    let mut k: usize = 0;
    assert(fv.guards.take(0) =~= Seq::<Seq<char>>::empty());
    assert(group_guards(pre) + fv.guards.take(0) =~= group_guards(pre));
    while k < f.guards.len()
        invariant
            k <= f.guards.len(),
            fv == f@,
            sorted_strict(str_views(guards@)),
            same_elems(str_views(guards@), group_guards(pre) + fv.guards.take(k as int)),
        decreases f.guards.len() - k,
    {
        assert(fv.guards[k as int] == f.guards@[k as int]@);
        assert(group_guards(pre) + fv.guards.take(k + 1) =~= (group_guards(pre) + fv.guards.take(
            k as int,
        )).push(fv.guards[k as int]));
        add_to_set(guards, f.guards[k].clone(), Ghost(group_guards(pre) + fv.guards.take(k as int)));
        k += 1;
    }
    assert(fv.guards.take(f.guards.len() as int) =~= fv.guards);
}

fn acc_add_evidence(evidence: &mut Vec<String>, f: &PortFinding, Ghost(pre): Ghost<Seq<FindingView>>)
    requires
        strings_view(old(evidence)@) == group_evidence(pre),
    ensures
        strings_view(final(evidence)@) == group_evidence(pre.push(f@)),
{
    let ghost fv = f@;
    proof {
        assert(pre.push(fv).map_values(|f: FindingView| f.evidence) =~= pre.map_values(
            |f: FindingView| f.evidence,
        ).push(fv.evidence));
        lemma_flatten_push(pre.map_values(|f: FindingView| f.evidence), fv.evidence);
    }
    let mut k: usize = 0;
    let ghost ev0 = strings_view(evidence@);
    assert(fv.evidence.take(0) =~= Seq::<Seq<char>>::empty());
    assert(ev0 + fv.evidence.take(0) =~= ev0);
    while k < f.evidence.len()
        invariant
            k <= f.evidence.len(),
            fv == f@,
            strings_view(evidence@) == ev0 + fv.evidence.take(k as int),
        decreases f.evidence.len() - k,
    {
        assert(fv.evidence[k as int] == f.evidence@[k as int]@);
        let ghost before = evidence@;
        evidence.push(f.evidence[k].clone());
        assert(strings_view(evidence@) =~= strings_view(before).push(fv.evidence[k as int]));
        assert(ev0 + fv.evidence.take(k + 1) =~= (ev0 + fv.evidence.take(k as int)).push(
            fv.evidence[k as int],
        ));
        k += 1;
    }
    assert(fv.evidence.take(f.evidence.len() as int) =~= fv.evidence);
}

fn acc_add(acc: &mut GroupAcc, f: &PortFinding, Ghost(pre): Ghost<Seq<FindingView>>)
    requires
        acc_of(*old(acc), pre),
    ensures
        acc_of(*final(acc), pre.push(f@)),
{
    proof {
        reveal(acc_of);
    }
    let ghost fv = f@;
    let ghost post = pre.push(fv);
    assert(post.drop_last() =~= pre);
    assert(group_processes(post) =~= group_processes(pre).push(process_label(fv.process)));
    assert(group_protocols(post) =~= group_protocols(pre).push(protocol_label(fv.protocol)));
    assert(group_firewalls(post) =~= group_firewalls(pre).push(fv.firewall));
    assert(group_listens(post) =~= group_listens(pre).push(fv.listen));
    proof {
        post.lemma_filter_map_take_succ(docker_short_fn(), pre.len() as int);
        assert(post.take(pre.len() as int) =~= pre);
        assert(post.take(pre.len() + 1int) =~= post);
    }
    add_to_set(&mut acc.processes, process_text(&f.process), Ghost(group_processes(pre)));
    add_to_set(&mut acc.protocols, protocol_text(f.protocol), Ghost(group_protocols(pre)));
    add_to_set(&mut acc.firewalls, f.firewall.clone(), Ghost(group_firewalls(pre)));
    add_to_set(&mut acc.listens, f.listen.clone(), Ghost(group_listens(pre)));
    acc_add_guards(&mut acc.guards, f, Ghost(pre));
    match &f.docker {
        Some(m) => {
            let short = short_docker_name(&m.container);
            assert(docker_short_fn()(fv) == Some(short@));
            assert(group_dockers(post) =~= group_dockers(pre).push(short@));
            add_to_set(&mut acc.dockers, short, Ghost(group_dockers(pre)));
        },
        None => {
            assert(docker_short_fn()(fv) is None);
            assert(group_dockers(post) =~= group_dockers(pre));
        },
    }
    acc_add_evidence(&mut acc.evidence, f, Ghost(pre));
    acc.status = worst_status(acc.status, f.status);
    assert(acc.status == status_fold(post));
    assert(same_elems(str_views(acc.dockers@), group_dockers(post)));
    assert(same_elems(str_views(acc.processes@), group_processes(post)));
    assert(same_elems(str_views(acc.guards@), group_guards(post)));
    assert(strings_view(acc.evidence@) == group_evidence(post));
}

/// The row of a non-empty group whose columns `acc` gathered.
#[verifier::rlimit(40)]
fn row_from_acc(acc: GroupAcc, g: &Vec<PortFinding>) -> (r: DisplayFinding)
    requires
        g.len() > 0,
        acc_of(acc, findings_view(g@)),
    ensures
        r@ == spec_display_group(findings_view(g@)),
{
    let ghost gv = findings_view(g@);
    proof {
        reveal(acc_of);
        lemma_sorted_set_is(str_views(acc.processes@), group_processes(gv));
        lemma_sorted_set_is(str_views(acc.protocols@), group_protocols(gv));
        lemma_sorted_set_is(str_views(acc.firewalls@), group_firewalls(gv));
        lemma_sorted_set_is(str_views(acc.guards@), group_guards(gv));
        lemma_sorted_set_is(str_views(acc.dockers@), group_dockers(gv));
        lemma_sorted_set_is(str_views(acc.listens@), group_listens(gv));
    }
    let mut evidence = acc.evidence;
    if acc.listens.len() > 1 {
        let mut note = chars_of("listeners: ");
        let j = join_strings(&acc.listens, ",");
        push_all(&mut note, &j);
        let ghost before = evidence@;
        evidence.push(string_from_chars(note.as_slice()));
        assert(strings_view(evidence@) =~= strings_view(before).push(
            "listeners: "@ + join(str_views(acc.listens@), ","@),
        ));
    }
    let listen = match preferred_listen(&acc.listens) {
        Some(l) => l,
        None => g[0].listen.clone(),
    };
    assert(gv[0] == g@[0]@);
    let r = DisplayFinding {
        process: join_set(&acc.processes),
        protocol: join_set(&acc.protocols),
        listen,
        port: g[0].port,
        status: acc.status,
        firewall: join_set(&acc.firewalls),
        guard: dash_or_join_set(&acc.guards),
        docker: dash_or_join_set(&acc.dockers),
        evidence,
    };
    assert(r@ =~= spec_display_group(gv));
    r
}

/// The row of a non-empty group of findings.
pub fn display_group(g: &Vec<PortFinding>) -> (r: DisplayFinding)
    requires
        g.len() > 0,
    ensures
        r@ == spec_display_group(findings_view(g@)),
{
    let ghost gv = findings_view(g@);
    let mut acc = acc_new();
    let mut i: usize = 0;
    assert(gv.take(0) =~= Seq::<FindingView>::empty());
    while i < g.len()
        invariant
            i <= g.len(),
            gv == findings_view(g@),
            acc_of(acc, gv.take(i as int)),
        decreases g.len() - i,
    {
        assert(gv[i as int] == g@[i as int]@);
        assert(gv.take(i + 1) =~= gv.take(i as int).push(g@[i as int]@));
        acc_add(&mut acc, &g[i], Ghost(gv.take(i as int)));
        i += 1;
    }
    assert(gv.take(g.len() as int) =~= gv);
    row_from_acc(acc, g)
}

// ---------------------------------------------------------------------------
// Executable grouping
// ---------------------------------------------------------------------------

pub open spec fn key_view(k: (u16, Vec<char>, Vec<char>)) -> (u16, Seq<char>, Seq<char>) {
    (k.0, k.1@, k.2@)
}

pub open spec fn keys_view(v: Seq<(u16, Vec<char>, Vec<char>)>) -> Seq<(u16, Seq<char>, Seq<char>)> {
    v.map_values(|k: (u16, Vec<char>, Vec<char>)| key_view(k))
}

fn group_key(f: &PortFinding) -> (r: (u16, Vec<char>, Vec<char>))
    ensures
        key_view(r) == spec_group_key(f@),
{
    let process = process_text(&f.process);
    let listen = chars_of(f.listen.as_str());
    let wildcard = chars_eq_str(&listen, "0.0.0.0") || chars_eq_str(&listen, "::") || chars_eq_str(
        &listen,
        "*",
    );
    let third = if wildcard {
        chars_of("wildcard")
    } else {
        listen
    };
    (f.port, chars_of(process.as_str()), third)
}

fn key_less(a: &(u16, Vec<char>, Vec<char>), b: &(u16, Vec<char>, Vec<char>)) -> (r: bool)
    ensures
        r == key_lt(key_view(*a), key_view(*b)),
{
    a.0 < b.0 || (a.0 == b.0 && (chars_less(&a.1, &b.1) || (chars_eq(&a.1, &b.1) && chars_less(
        &a.2,
        &b.2,
    ))))
}

fn key_eq(a: &(u16, Vec<char>, Vec<char>), b: &(u16, Vec<char>, Vec<char>)) -> (r: bool)
    ensures
        r == (key_view(*a) == key_view(*b)),
{
    a.0 == b.0 && chars_eq(&a.1, &b.1) && chars_eq(&a.2, &b.2)
}

/// Inserts `k` into an increasing list of keys, keeping it increasing.
fn insert_key(
    keys: &mut Vec<(u16, Vec<char>, Vec<char>)>,
    k: (u16, Vec<char>, Vec<char>),
    Ghost(elems): Ghost<Seq<(u16, Seq<char>, Seq<char>)>>,
)
    requires
        increasing(keys_view(old(keys)@), key_lt_fn()),
        same_members(keys_view(old(keys)@), elems),
    ensures
        increasing(keys_view(final(keys)@), key_lt_fn()),
        same_members(keys_view(final(keys)@), elems.push(key_view(k))),
{
    proof {
        lemma_key_lt_strict_total();
    }
    let ghost lt = key_lt_fn();
    let ghost old_v = keys_view(keys@);
    let ghost kv = key_view(k);
    let mut p: usize = 0;
    while p < keys.len()
        invariant
            p <= keys.len(),
            keys_view(keys@) == old_v,
            lt == key_lt_fn(),
            kv == key_view(k),
            forall|q: int| 0 <= q < p ==> key_lt(old_v[q], kv),
        ensures
            p <= keys.len(),
            keys_view(keys@) == old_v,
            forall|q: int| 0 <= q < p ==> key_lt(old_v[q], kv),
            p < keys.len() ==> !key_lt(old_v[p as int], kv),
        decreases keys.len() - p,
    {
        assert(old_v[p as int] == key_view(keys@[p as int]));
        if !key_less(&keys[p], &k) {
            break;
        }
        p += 1;
    }
    let present = if p < keys.len() {
        assert(old_v[p as int] == key_view(keys@[p as int]));
        key_eq(&keys[p], &k)
    } else {
        false
    };
    let ghost new_elems = elems.push(kv);
    if present {
        assert forall|t: (u16, Seq<char>, Seq<char>)| old_v.contains(t) <==> new_elems.contains(t) by {
            if new_elems.contains(t) {
                let q = choose|q: int| 0 <= q < new_elems.len() && new_elems[q] == t;
                if q < elems.len() {
                    assert(elems.contains(t));
                } else {
                    assert(old_v[p as int] == t);
                }
            }
            if elems.contains(t) {
                let q = choose|q: int| 0 <= q < elems.len() && elems[q] == t;
                assert(new_elems[q] == t);
            }
        }
        return;
    }
    proof {
        assert forall|q: int| p <= q < old_v.len() implies key_lt(kv, old_v[q]) by {
            assert(lt(old_v[p as int], kv) || old_v[p as int] == kv || lt(kv, old_v[p as int]));
            if p < q {
                assert(lt(old_v[p as int], old_v[q]));
                assert(lt(kv, old_v[p as int]));
                assert(lt(kv, old_v[q]));
            }
        }
    }
    keys.insert(p, k);
    proof {
        let nv = keys_view(keys@);
        assert(nv =~= old_v.insert(p as int, kv));
        assert forall|i: int, j: int| 0 <= i < j < nv.len() implies lt(nv[i], nv[j]) by {
            if j < p {
            } else if j == p {
            } else if i < p {
                assert(lt(old_v[i], kv));
                assert(lt(kv, old_v[j - 1]));
            } else if i == p {
            } else {
                assert(lt(old_v[i - 1], old_v[j - 1]));
            }
        }
        assert forall|t: (u16, Seq<char>, Seq<char>)| nv.contains(t) <==> new_elems.contains(t) by {
            if nv.contains(t) {
                let i = choose|i: int| 0 <= i < nv.len() && nv[i] == t;
                if i < p {
                    assert(old_v[i] == t);
                    assert(elems.contains(t));
                    let q = choose|q: int| 0 <= q < elems.len() && elems[q] == t;
                    assert(new_elems[q] == t);
                } else if i > p {
                    assert(old_v[i - 1] == t);
                    assert(elems.contains(t));
                    let q = choose|q: int| 0 <= q < elems.len() && elems[q] == t;
                    assert(new_elems[q] == t);
                } else {
                    assert(new_elems[elems.len() as int] == t);
                }
            }
            if new_elems.contains(t) {
                let q = choose|q: int| 0 <= q < new_elems.len() && new_elems[q] == t;
                if q < elems.len() {
                    assert(elems[q] == t);
                    assert(old_v.contains(t));
                    let i = choose|i: int| 0 <= i < old_v.len() && old_v[i] == t;
                    if i < p {
                        assert(nv[i] == t);
                    } else {
                        assert(nv[i + 1] == t);
                    }
                } else {
                    assert(nv[p as int] == t);
                }
            }
        }
    }
}

/// The rows the table shows for `findings` in `view_mode`: one per finding
/// when `full`, else one per group of findings with the same port, process
/// and listen address (wildcard addresses together), in key order.
pub fn display_findings(findings: &[PortFinding], full: bool, view_mode: ViewMode) -> (r: Vec<
    DisplayFinding,
>)
    ensures
        displays_view(r@) == spec_display_findings(findings_view(findings@), full, view_mode),
{
    let ghost fv = findings_view(findings@);
    let ghost pm = shown_fn(view_mode);
    let mut shown: Vec<PortFinding> = Vec::new();
    let mut i: usize = 0;
    assert(findings_view(shown@) =~= fv.take(0).filter(pm)) by {
        reveal(Seq::filter);
    }
    while i < findings.len()
        invariant
            i <= findings.len(),
            fv == findings_view(findings@),
            pm == shown_fn(view_mode),
            findings_view(shown@) == fv.take(i as int).filter(pm),
        decreases findings.len() - i,
    {
        let f = &findings[i];
        assert(fv[i as int] == f@);
        proof {
            fv.take(i as int).lemma_filter_push(fv[i as int], pm);
            assert(fv.take(i as int).push(fv[i as int]) =~= fv.take(i + 1));
        }
        if view_mode.includes(f) {
            let ghost before = shown@;
            shown.push(f.duplicate());
            assert(findings_view(shown@) =~= findings_view(before).push(f@));
        }
        i += 1;
    }
    assert(fv.take(findings.len() as int) =~= fv);
    let ghost sv = findings_view(shown@);
    let mut out: Vec<DisplayFinding> = Vec::new();
    if full {
        let mut j: usize = 0;
        assert(displays_view(out@) =~= sv.take(0).map_values(display_from_fn()));
        while j < shown.len()
            invariant
                j <= shown.len(),
                sv == findings_view(shown@),
                displays_view(out@) == sv.take(j as int).map_values(display_from_fn()),
            decreases shown.len() - j,
        {
            assert(sv[j as int] == shown@[j as int]@);
            let d = display_from(&shown[j]);
            let ghost before = out@;
            out.push(d);
            assert(displays_view(out@) =~= displays_view(before).push(d@));
            assert(sv.take(j + 1).map_values(display_from_fn()) =~= sv.take(j as int).map_values(
                display_from_fn(),
            ).push(display_from_fn()(sv[j as int])));
            j += 1;
        }
        assert(sv.take(shown.len() as int) =~= sv);
        return out;
    }
    let mut keys: Vec<(u16, Vec<char>, Vec<char>)> = Vec::new();
    let mut j: usize = 0;
    assert(keys_view(keys@) =~= Seq::<(u16, Seq<char>, Seq<char>)>::empty());
    assert(group_keys(sv.take(0)) =~= Seq::<(u16, Seq<char>, Seq<char>)>::empty());
    while j < shown.len()
        invariant
            j <= shown.len(),
            sv == findings_view(shown@),
            increasing(keys_view(keys@), key_lt_fn()),
            same_members(keys_view(keys@), group_keys(sv.take(j as int))),
        decreases shown.len() - j,
    {
        assert(sv[j as int] == shown@[j as int]@);
        let k = group_key(&shown[j]);
        assert(group_keys(sv.take(j + 1)) =~= group_keys(sv.take(j as int)).push(key_view(k)));
        insert_key(&mut keys, k, Ghost(group_keys(sv.take(j as int))));
        j += 1;
    }
    assert(sv.take(shown.len() as int) =~= sv);
    proof {
        lemma_key_lt_strict_total();
        lemma_ordered_set_is(keys_view(keys@), group_keys(sv), key_lt_fn());
    }
    let ghost kv = keys_view(keys@);
    let mut g: usize = 0;
    assert(displays_view(out@) =~= kv.take(0).map_values(group_row_fn(sv)));
    while g < keys.len()
        invariant
            g <= keys.len(),
            sv == findings_view(shown@),
            kv == keys_view(keys@),
            same_members(kv, group_keys(sv)),
            displays_view(out@) == kv.take(g as int).map_values(group_row_fn(sv)),
        decreases keys.len() - g,
    {
        let key = &keys[g];
        let ghost k = kv[g as int];
        assert(k == key_view(*key));
        let ghost ing = in_group(k);
        let mut members: Vec<PortFinding> = Vec::new();
        let mut t: usize = 0;
        assert(findings_view(members@) =~= sv.take(0).filter(ing)) by {
            reveal(Seq::filter);
        }
        while t < shown.len()
            invariant
                t <= shown.len(),
                sv == findings_view(shown@),
                k == key_view(*key),
                ing == in_group(k),
                findings_view(members@) == sv.take(t as int).filter(ing),
            decreases shown.len() - t,
        {
            let f = &shown[t];
            assert(sv[t as int] == f@);
            proof {
                sv.take(t as int).lemma_filter_push(sv[t as int], ing);
                assert(sv.take(t as int).push(sv[t as int]) =~= sv.take(t + 1));
            }
            let fk = group_key(f);
            if key_eq(&fk, key) {
                let ghost before = members@;
                members.push(f.duplicate());
                assert(findings_view(members@) =~= findings_view(before).push(f@));
            }
            t += 1;
        }
        assert(sv.take(shown.len() as int) =~= sv);
        proof {
            assert(kv.contains(k));
            assert(group_keys(sv).contains(k));
            let q = choose|q: int| 0 <= q < group_keys(sv).len() && group_keys(sv)[q] == k;
            assert(ing(sv[q]));
            sv.lemma_filter_contains(ing, q);
        }
        let row = display_group(&members);
        let ghost before = out@;
        out.push(row);
        assert(displays_view(out@) =~= displays_view(before).push(row@));
        assert(kv.take(g + 1).map_values(group_row_fn(sv)) =~= kv.take(g as int).map_values(
            group_row_fn(sv),
        ).push(group_row_fn(sv)(k)));
        g += 1;
    }
    assert(kv.take(keys.len() as int) =~= kv);
    out
}

// ---------------------------------------------------------------------------
// Details text
// ---------------------------------------------------------------------------

/// The details panel text of a row.
pub open spec fn spec_format_details(d: DisplayView) -> Seq<char> {
    let evidence = if d.evidence.len() == 0 {
        "-"@
    } else {
        join(d.evidence, "\n"@)
    };
    "process: "@ + d.process + " | proto: "@ + d.protocol + " | listen: "@ + d.listen
        + " | port: "@ + decimal(d.port as nat) + " | status: "@ + spec_format_status(d.status)
        + "\nfirewall: "@ + d.firewall + "\nguard: "@ + d.guard + "\ndocker: "@ + d.docker
        + "\nevidence:\n"@ + evidence
}

/// The details panel text of a row.
pub fn format_details(finding: &DisplayFinding) -> (r: String)
    ensures
        r@ == spec_format_details(finding@),
{
    let evidence = if finding.evidence.len() == 0 {
        chars_of("-")
    } else {
        join_strings(&finding.evidence, "\n")
    };
    let mut out = chars_of("process: ");
    push_str(&mut out, finding.process.as_str());
    push_str(&mut out, " | proto: ");
    push_str(&mut out, finding.protocol.as_str());
    push_str(&mut out, " | listen: ");
    push_str(&mut out, finding.listen.as_str());
    push_str(&mut out, " | port: ");
    let port = decimal_of(finding.port as u32);
    push_all(&mut out, &port);
    push_str(&mut out, " | status: ");
    push_str(&mut out, format_status(finding.status));
    push_str(&mut out, "\nfirewall: ");
    push_str(&mut out, finding.firewall.as_str());
    push_str(&mut out, "\nguard: ");
    push_str(&mut out, finding.guard.as_str());
    push_str(&mut out, "\ndocker: ");
    push_str(&mut out, finding.docker.as_str());
    push_str(&mut out, "\nevidence:\n");
    push_all(&mut out, &evidence);
    string_from_chars(out.as_slice())
}

// ---------------------------------------------------------------------------
// The refresh loop's decisions
// ---------------------------------------------------------------------------

/// A key press, as the table interprets it.
#[derive(Clone, Copy, Debug, PartialEq, Eq, Structural)]
pub enum KeyInput {
    Quit,
    Refresh,
    NextMode,
    Down,
    Up,
    Other,
}

/// What the loop does after a key press.
#[derive(Clone, Copy, Debug, PartialEq, Eq, Structural)]
pub enum LoopAction {
    Quit,
    Reload,
    Stay,
}

/// The selected row and the view mode.
#[derive(Clone, Copy, Debug, PartialEq, Eq, Structural)]
pub struct ViewState {
    pub selected: usize,
    pub view_mode: ViewMode,
}

pub open spec fn spec_key_for_char(c: char) -> KeyInput {
    if c == 'q' {
        KeyInput::Quit
    } else if c == 'r' {
        KeyInput::Refresh
    } else if c == 'm' {
        KeyInput::NextMode
    } else if c == 'j' {
        KeyInput::Down
    } else if c == 'k' {
        KeyInput::Up
    } else {
        KeyInput::Other
    }
}

/// `q` quits, `r` refreshes, `m` changes mode, `j` and `k` move down and up.
pub fn key_for_char(c: char) -> (r: KeyInput)
    ensures
        r == spec_key_for_char(c),
{
    if c == 'q' {
        KeyInput::Quit
    } else if c == 'r' {
        KeyInput::Refresh
    } else if c == 'm' {
        KeyInput::NextMode
    } else if c == 'j' {
        KeyInput::Down
    } else if c == 'k' {
        KeyInput::Up
    } else {
        KeyInput::Other
    }
}

/// `rows - 1`, or 0 for no rows.
pub open spec fn last_row(rows: usize) -> int {
    if rows == 0 {
        0
    } else {
        rows - 1
    }
}

/// The selection moved onto the last row when it is past it.
pub open spec fn spec_clamp_selection(selected: usize, rows: usize) -> int {
    if selected >= rows {
        last_row(rows)
    } else {
        selected as int
    }
}

/// Keeps the selection on a row that exists (row 0 when there are none).
pub fn clamp_selection(selected: usize, rows: usize) -> (r: usize)
    ensures
        r == spec_clamp_selection(selected, rows),
{
    if selected >= rows {
        rows.saturating_sub(1)
    } else {
        selected
    }
}

/// The state and action after `key`, with `rows` rows on screen.
pub open spec fn spec_handle_key(state: ViewState, key: KeyInput, rows: usize) -> (ViewState, LoopAction) {
    match key {
        KeyInput::Quit => (state, LoopAction::Quit),
        KeyInput::Refresh => (state, LoopAction::Reload),
        KeyInput::NextMode => (
            ViewState { selected: 0, view_mode: spec_next_mode(state.view_mode) },
            LoopAction::Stay,
        ),
        KeyInput::Down => (
            ViewState {
                selected: if state.selected + 1 < last_row(rows) {
                    (state.selected + 1) as usize
                } else {
                    last_row(rows) as usize
                },
                ..state
            },
            LoopAction::Stay,
        ),
        KeyInput::Up => (
            ViewState {
                selected: if state.selected == 0 {
                    0
                } else {
                    (state.selected - 1) as usize
                },
                ..state
            },
            LoopAction::Stay,
        ),
        KeyInput::Other => (state, LoopAction::Stay),
    }
}

/// Applies a key press: quit, reload, next mode (selection back to the
/// top), or move the selection within the rows.
pub fn handle_key(state: ViewState, key: KeyInput, rows: usize) -> (r: (ViewState, LoopAction))
    requires
        state.selected < usize::MAX,
    ensures
        r == spec_handle_key(state, key, rows),
{
    match key {
        KeyInput::Quit => (state, LoopAction::Quit),
        KeyInput::Refresh => (state, LoopAction::Reload),
        KeyInput::NextMode => (
            ViewState { selected: 0, view_mode: state.view_mode.next() },
            LoopAction::Stay,
        ),
        KeyInput::Down => {
            let next = state.selected + 1;
            let last = rows.saturating_sub(1);
            (
                ViewState {
                    selected: if next < last {
                        next
                    } else {
                        last
                    },
                    view_mode: state.view_mode,
                },
                LoopAction::Stay,
            )
        },
        KeyInput::Up => (
            ViewState { selected: state.selected.saturating_sub(1), view_mode: state.view_mode },
            LoopAction::Stay,
        ),
        KeyInput::Other => (state, LoopAction::Stay),
    }
}

/// The table reloads once a whole refresh interval has passed since the
/// last load.
pub fn refresh_due(elapsed_ms: u64, refresh_ms: u64) -> (r: bool)
    ensures
        r == (elapsed_ms >= refresh_ms),
{
    elapsed_ms >= refresh_ms
}

/// The table opens on its first row, in the `global` view.
pub fn initial_state() -> (s: ViewState)
    ensures
        s.selected == 0,
        s.view_mode == ViewMode::Global,
{
    ViewState { selected: 0, view_mode: ViewMode::Global }
}

} // verus!
