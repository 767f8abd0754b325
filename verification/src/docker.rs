//! Docker port mappings from `docker ps --format '{{json .}}'` output.
use vstd::prelude::*;
use crate::model::{
    CommandOutcome, DockerMapping, MappingView, Protocol, mappings_view, opt_view,
};
use crate::text::{
    chars_eq_str, chars_of, find, find_chars, last_index_of, last_index_of_exec, lemma_find,
    lemma_last_index_of, lines, lines_of, occurs_at, parse_u16, parse_unsigned, slice_of,
    split_char, split_char_exec, string_from_chars, trim, trim_chars, views,
};

verus! {

/// The string value of member `key` of the JSON object that `text` holds:
/// `None` when `text` is not JSON, not an object, has no such member, or the
/// member is not a string.
pub uninterp spec fn json_str_member(text: Seq<char>, key: Seq<char>) -> Option<Seq<char>>;

/// Calls `serde_json::from_str::<serde_json::Value>`, then `Value::get` and
/// `Value::as_str`. The contract only names the result: it is the same for
/// the same text and key; nothing is stated of how JSON is read.
#[verifier::external_body]
fn json_str_member_of(text: &str, key: &str) -> (r: Option<String>)
    ensures
        opt_view(r) == json_str_member(text@, key@),
{
    match serde_json::from_str::<serde_json::Value>(text) {
        Ok(value) => value.get(key).and_then(|v| v.as_str()).map(|s| s.to_owned()),
        Err(_) => None,
    }
}

/// `port/proto` with `proto` `tcp` or `udp`, split at the last `'/'`.
pub open spec fn spec_parse_container_port(text: Seq<char>) -> Option<(u16, Protocol)> {
    match last_index_of(text, '/') {
        Some(k) => {
            let protocol = if text.skip(k + 1) == "tcp"@ {
                Some(Protocol::Tcp)
            } else if text.skip(k + 1) == "udp"@ {
                Some(Protocol::Udp)
            } else {
                None
            };
            match (protocol, parse_unsigned(text.take(k), u16::MAX as int)) {
                (Some(protocol), Some(port)) => Some((port as u16, protocol)),
                _ => None,
            }
        },
        None => None,
    }
}

/// One entry of the `Ports` column: `ip:port->port/proto` (split at the
/// first `->`, the host part at its last `':'`) or `port/proto`.
pub open spec fn spec_parse_port_mapping(entry: Seq<char>, container: Seq<char>) -> Option<
    MappingView,
> {
    match find(entry, "->"@) {
        Some(i) => {
            let host = entry.take(i);
            match last_index_of(host, ':') {
                Some(k) => match parse_unsigned(host.skip(k + 1), u16::MAX as int) {
                    Some(host_port) => match spec_parse_container_port(entry.skip(i + "->"@.len())) {
                        Some((port, protocol)) => Some(
                            MappingView {
                                host_ip: Some(host.take(k)),
                                host_port: Some(host_port as u16),
                                container_port: port,
                                protocol,
                                container,
                            },
                        ),
                        None => None,
                    },
                    None => None,
                },
                None => None,
            }
        },
        None => match spec_parse_container_port(entry) {
            Some((port, protocol)) => Some(
                MappingView {
                    host_ip: None,
                    host_port: None,
                    container_port: port,
                    protocol,
                    container,
                },
            ),
            None => None,
        },
    }
}

/// The container named by the `Names` member, `unknown` without one.
pub open spec fn container_name(line: Seq<char>) -> Seq<char> {
    match json_str_member(line, "Names"@) {
        Some(n) => n,
        None => "unknown"@,
    }
}

/// The `Ports` member, empty without one.
pub open spec fn ports_text(line: Seq<char>) -> Seq<char> {
    match json_str_member(line, "Ports"@) {
        Some(p) => p,
        None => seq![],
    }
}

/// The mappings of a `Ports` column for `container`: the column split at
/// `','`, each entry trimmed, the entries that parse, in order.
pub open spec fn spec_parse_ports(container: Seq<char>, ports: Seq<char>) -> Seq<MappingView> {
    split_char(ports, ',').filter_map(
        |entry: Seq<char>| spec_parse_port_mapping(trim(entry), container),
    )
}

/// The mappings of one line: those of its `Ports` member for the container
/// its `Names` member names.
pub open spec fn spec_parse_docker_line(line: Seq<char>) -> Seq<MappingView> {
    spec_parse_ports(container_name(line), ports_text(line))
}

/// The mappings of all lines, in order.
pub open spec fn spec_parse_docker_lines(ls: Seq<Seq<char>>) -> Seq<MappingView>
    decreases ls.len(),
{
    if ls.len() == 0 {
        seq![]
    } else {
        spec_parse_docker_lines(ls.drop_last()) + spec_parse_docker_line(ls.last())
    }
}

/// Mappings from `docker ps` when it succeeded; none otherwise.
pub open spec fn spec_collect_docker_mappings(outcome: CommandOutcome) -> Seq<MappingView> {
    match outcome {
        CommandOutcome::Success(out) => spec_parse_docker_lines(lines(out@)),
        _ => seq![],
    }
}

fn parse_container_port(text: &Vec<char>) -> (r: Option<(u16, Protocol)>)
    ensures
        r == spec_parse_container_port(text@),
{
    proof {
        lemma_last_index_of(text@, '/');
    }
    match last_index_of_exec(text, '/') {
        Some(k) => {
            assert(k < text.len());
            let proto_text = slice_of(text, k + 1, text.len());
            assert(proto_text@ =~= text@.skip(k + 1));
            let protocol = if chars_eq_str(&proto_text, "tcp") {
                Protocol::Tcp
            } else if chars_eq_str(&proto_text, "udp") {
                Protocol::Udp
            } else {
                return None;
            };
            let port_text = slice_of(text, 0, k);
            assert(port_text@ =~= text@.take(k as int));
            match parse_u16(&port_text) {
                Some(port) => Some((port, protocol)),
                None => None,
            }
        },
        None => None,
    }
}

fn parse_port_mapping(entry: &Vec<char>, container: &String) -> (r: Option<DockerMapping>)
    ensures
        match r {
            Some(m) => spec_parse_port_mapping(entry@, container@) == Some(m@),
            None => spec_parse_port_mapping(entry@, container@) is None,
        },
{
    let arrow = chars_of("->");
    proof {
        lemma_find(entry@, arrow@);
    }
    match find_chars(entry, &arrow) {
        Some(i) => {
            assert(occurs_at(entry@, arrow@, i as int));
            assert(i + arrow.len() <= entry.len());
            let host = slice_of(entry, 0, i);
            assert(host@ =~= entry@.take(i as int));
            let rest = slice_of(entry, i + arrow.len(), entry.len());
            assert(rest@ =~= entry@.skip(i + arrow@.len()));
            proof {
                lemma_last_index_of(host@, ':');
            }
            let k = match last_index_of_exec(&host, ':') {
                Some(k) => k,
                None => {
                    return None;
                },
            };
            let port_text = slice_of(&host, k + 1, host.len());
            assert(port_text@ =~= host@.skip(k + 1));
            let host_port = match parse_u16(&port_text) {
                Some(p) => p,
                None => {
                    return None;
                },
            };
            let (port, protocol) = match parse_container_port(&rest) {
                Some(pp) => pp,
                None => {
                    return None;
                },
            };
            let ip = slice_of(&host, 0, k);
            assert(ip@ =~= host@.take(k as int));
            let m = DockerMapping {
                host_ip: Some(string_from_chars(ip.as_slice())),
                host_port: Some(host_port),
                container_port: port,
                protocol,
                container: container.clone(),
            };
            assert(m@ =~= spec_parse_port_mapping(entry@, container@)->0);
            Some(m)
        },
        None => match parse_container_port(entry) {
            Some((port, protocol)) => {
                let m = DockerMapping {
                    host_ip: None,
                    host_port: None,
                    container_port: port,
                    protocol,
                    container: container.clone(),
                };
                assert(m@ =~= spec_parse_port_mapping(entry@, container@)->0);
                Some(m)
            },
            None => None,
        },
    }
}

/// Parses the `Ports` column of one container, as `docker ps` prints it.
pub fn parse_ports(container: &str, ports: &str) -> (r: Vec<DockerMapping>)
    ensures
        mappings_view(r@) == spec_parse_ports(container@, ports@),
{
    let name = container.to_owned();
    let ports_chars = chars_of(ports);
    let entries = split_char_exec(&ports_chars, ',');
    let ghost es = split_char(ports@, ',');
    let ghost f = |entry: Seq<char>| spec_parse_port_mapping(trim(entry), container@);
    let mut r: Vec<DockerMapping> = Vec::new();
    let mut j: usize = 0;
    assert(es.take(0) =~= Seq::<Seq<char>>::empty());
    while j < entries.len()
        invariant
            j <= entries.len(),
            views(entries@) == es,
            name@ == container@,
            f == (|entry: Seq<char>| spec_parse_port_mapping(trim(entry), container@)),
            mappings_view(r@) == es.take(j as int).filter_map(f),
        decreases entries.len() - j,
    {
        proof {
            es.lemma_filter_map_take_succ(f, j as int);
            assert(es[j as int] == entries@[j as int]@);
        }
        let entry = trim_chars(&entries[j]);
        match parse_port_mapping(&entry, &name) {
            Some(m) => {
                r.push(m);
            },
            None => {},
        }
        assert(mappings_view(r@) =~= es.take(j + 1).filter_map(f));
        j += 1;
    }
    assert(es.take(entries.len() as int) =~= es);
    r
}

/// Parses one line of `docker ps --format '{{json .}}'` output.
pub fn parse_docker_line(line: &str) -> (r: Vec<DockerMapping>)
    ensures
        mappings_view(r@) == spec_parse_docker_line(line@),
{
    let container = match json_str_member_of(line, "Names") {
        Some(n) => n,
        None => "unknown".to_owned(),
    };
    assert(container@ == container_name(line@));
    let ports = match json_str_member_of(line, "Ports") {
        Some(p) => p,
        None => String::new(),
    };
    assert(ports@ == ports_text(line@));
    parse_ports(container.as_str(), ports.as_str())
}

/// Mappings from the outcome of `docker ps --format '{{json .}}'`: those of
/// every output line when the command succeeded, none otherwise.
pub fn collect_docker_mappings(outcome: &CommandOutcome) -> (r: Vec<DockerMapping>)
    ensures
        mappings_view(r@) == spec_collect_docker_mappings(*outcome),
{
    let mut r: Vec<DockerMapping> = Vec::new();
    match outcome {
        CommandOutcome::Success(out) => {
            let text = chars_of(out.as_str());
            let all = lines_of(&text);
            let ghost ls = lines(out@);
            let mut j: usize = 0;
            assert(ls.take(0) =~= Seq::<Seq<char>>::empty());
            while j < all.len()
                invariant
                    j <= all.len(),
                    views(all@) == ls,
                    mappings_view(r@) == spec_parse_docker_lines(ls.take(j as int)),
                decreases all.len() - j,
            {
                let line = string_from_chars(all[j].as_slice());
                assert(line@ == ls[j as int]);
                let mut found = parse_docker_line(line.as_str());
                let ghost before = mappings_view(r@);
                let ghost add = mappings_view(found@);
                r.append(&mut found);
                assert(ls.take(j + 1).drop_last() =~= ls.take(j as int));
                assert(mappings_view(r@) =~= before + add);
                j += 1;
            }
            assert(ls.take(all.len() as int) =~= ls);
        },
        _ => {},
    }
    r
}

} // verus!
