//! Parsing of `ss -H -tulpen` output into listeners.
use vstd::prelude::*;
use crate::model::{CommandOutcome, Listener, ListenerView, Protocol, listeners_view};
use crate::text::{
    chars_eq_str, chars_of, find, find_chars, index_of, index_of_from, join, join_chars,
    last_index_of, last_index_of_exec, lemma_index_of, lines, lines_of, parse_u16, parse_u32,
    parse_unsigned, slice_of, string_from_chars, trim_char, trim_char_exec, trim_end_char,
    trim_end_char_exec, trim_start_char, trim_start_char_exec, views, words, words_of,
};

verus! {

/// Address and port of a socket column such as `0.0.0.0:80` or `[::]:443`:
/// quotes trimmed, split at the last `':'`, the port parsed, brackets
/// trimmed from the address.
pub open spec fn spec_parse_socket(socket: Seq<char>) -> Option<(Seq<char>, u16)> {
    let normalized = trim_char(socket, '"');
    match last_index_of(normalized, ':') {
        Some(k) => match parse_unsigned(normalized.skip(k + 1), u16::MAX as int) {
            Some(port) => Some(
                (trim_end_char(trim_start_char(normalized.take(k), '['), ']'), port as u16),
            ),
            None => None,
        },
        None => None,
    }
}

/// The text between `users:(("` and the next `"`.
pub open spec fn spec_parse_process_name(text: Seq<char>) -> Option<Seq<char>> {
    let marker = "users:((\""@;
    match find(text, marker) {
        Some(i) => {
            let rest = text.skip(i + marker.len());
            let end = index_of(rest, '"');
            if end < rest.len() {
                Some(rest.take(end))
            } else {
                None
            }
        },
        None => None,
    }
}

/// The number after `pid=`, up to the next `','` or the end.
pub open spec fn spec_parse_pid(text: Seq<char>) -> Option<u32> {
    let marker = "pid="@;
    match find(text, marker) {
        Some(i) => {
            let rest = text.skip(i + marker.len());
            match parse_unsigned(rest.take(index_of(rest, ',')), u32::MAX as int) {
                Some(v) => Some(v as u32),
                None => None,
            }
        },
        None => None,
    }
}

/// One line of `ss` output: at least five whitespace-separated columns, the
/// first `tcp` or `udp`, the fifth a socket address; process and pid come
/// from the columns after the fifth, joined by single spaces.
pub open spec fn spec_parse_line(line: Seq<char>) -> Option<ListenerView> {
    let columns = words(line);
    if columns.len() < 5 {
        None
    } else {
        let protocol = if columns[0] == "tcp"@ {
            Some(Protocol::Tcp)
        } else if columns[0] == "udp"@ {
            Some(Protocol::Udp)
        } else {
            None
        };
        match (protocol, spec_parse_socket(columns[4])) {
            (Some(protocol), Some((address, port))) => {
                let tail = join(columns.skip(5), " "@);
                Some(
                    ListenerView {
                        protocol,
                        local_address: address,
                        port,
                        process: spec_parse_process_name(tail),
                        pid: spec_parse_pid(tail),
                    },
                )
            },
            _ => None,
        }
    }
}

/// Every line of the output that describes a TCP or UDP socket, in order.
pub open spec fn spec_parse_ss_output(output: Seq<char>) -> Seq<ListenerView> {
    lines(output).filter_map(|line: Seq<char>| spec_parse_line(line))
}

fn parse_socket(socket: &Vec<char>) -> (r: Option<(Vec<char>, u16)>)
    ensures
        match r {
            Some((a, p)) => spec_parse_socket(socket@) == Some((a@, p)),
            None => spec_parse_socket(socket@) is None,
        },
{
    let normalized = trim_char_exec(socket, '"');
    proof {
        crate::text::lemma_last_index_of(normalized@, ':');
    }
    match last_index_of_exec(&normalized, ':') {
        Some(k) => {
            let port_text = slice_of(&normalized, k + 1, normalized.len());
            assert(port_text@ =~= normalized@.skip(k + 1));
            match parse_u16(&port_text) {
                Some(port) => {
                    let head = slice_of(&normalized, 0, k);
                    assert(head@ =~= normalized@.take(k as int));
                    let a = trim_start_char_exec(&head, '[');
                    let b = trim_end_char_exec(&a, ']');
                    Some((b, port))
                },
                None => None,
            }
        },
        None => None,
    }
}

fn parse_process_name(text: &Vec<char>) -> (r: Option<String>)
    ensures
        match r {
            Some(s) => spec_parse_process_name(text@) == Some(s@),
            None => spec_parse_process_name(text@) is None,
        },
{
    let marker = chars_of("users:((\"");
    match find_chars(text, &marker) {
        Some(i) => {
            proof {
                crate::text::lemma_find(text@, marker@);
                assert(crate::text::occurs_at(text@, marker@, i as int));
                assert(i + marker@.len() <= text@.len());
            }
            assert(i + marker.len() <= text.len());
            let start = i + marker.len();
            let rest = slice_of(text, start, text.len());
            assert(rest@ =~= text@.skip(start as int));
            let end = index_of_from(&rest, '"', 0);
            assert(rest@.skip(0) =~= rest@);
            if end < rest.len() {
                let name = slice_of(&rest, 0, end);
                assert(name@ =~= rest@.take(end as int));
                Some(string_from_chars(name.as_slice()))
            } else {
                None
            }
        },
        None => None,
    }
}

fn parse_pid(text: &Vec<char>) -> (r: Option<u32>)
    ensures
        r == spec_parse_pid(text@),
{
    let marker = chars_of("pid=");
    match find_chars(text, &marker) {
        Some(i) => {
            proof {
                crate::text::lemma_find(text@, marker@);
                assert(crate::text::occurs_at(text@, marker@, i as int));
                assert(i + marker@.len() <= text@.len());
            }
            assert(i + marker.len() <= text.len());
            let start = i + marker.len();
            let rest = slice_of(text, start, text.len());
            assert(rest@ =~= text@.skip(start as int));
            let end = index_of_from(&rest, ',', 0);
            assert(rest@.skip(0) =~= rest@);
            let digits = slice_of(&rest, 0, end);
            assert(digits@ =~= rest@.take(end as int));
            parse_u32(&digits)
        },
        None => None,
    }
}

fn parse_line(line: &Vec<char>) -> (r: Option<Listener>)
    ensures
        match r {
            Some(l) => spec_parse_line(line@) == Some(l@),
            None => spec_parse_line(line@) is None,
        },
{
    let columns = words_of(line);
    if columns.len() < 5 {
        return None;
    }
    assert(views(columns@)[0] == columns@[0]@);
    assert(views(columns@)[4] == columns@[4]@);
    let protocol = if chars_eq_str(&columns[0], "tcp") {
        Protocol::Tcp
    } else if chars_eq_str(&columns[0], "udp") {
        Protocol::Udp
    } else {
        return None;
    };
    let (address, port) = match parse_socket(&columns[4]) {
        Some(p) => p,
        None => {
            return None;
        },
    };
    let tail = join_chars(&columns, 5, " ");
    let process = parse_process_name(&tail);
    let pid = parse_pid(&tail);
    let listener = Listener {
        protocol,
        local_address: string_from_chars(address.as_slice()),
        port,
        process,
        pid,
    };
    assert(listener@ =~= spec_parse_line(line@)->0);
    Some(listener)
}

/// Parses the output of `ss -H -tulpen`.
pub fn parse_ss_output(output: &str) -> (r: Vec<Listener>)
    ensures
        listeners_view(r@) == spec_parse_ss_output(output@),
{
    let text = chars_of(output);
    let all = lines_of(&text);
    let ghost ls = lines(output@);
    let ghost f = |line: Seq<char>| spec_parse_line(line);
    let mut r: Vec<Listener> = Vec::new();
    let mut j: usize = 0;
    assert(ls.take(0) =~= Seq::<Seq<char>>::empty());
    while j < all.len()
        invariant
            j <= all.len(),
            views(all@) == ls,
            ls == lines(output@),
            f == (|line: Seq<char>| spec_parse_line(line)),
            listeners_view(r@) == ls.take(j as int).filter_map(f),
        decreases all.len() - j,
    {
        proof {
            ls.lemma_filter_map_take_succ(f, j as int);
            assert(ls[j as int] == all@[j as int]@);
        }
        match parse_line(&all[j]) {
            Some(l) => {
                r.push(l);
                assert(listeners_view(r@) =~= ls.take(j + 1).filter_map(f));
            },
            None => {
                assert(listeners_view(r@) =~= ls.take(j + 1).filter_map(f));
            },
        }
        j += 1;
    }
    assert(ls.take(all.len() as int) =~= ls);
    r
}

/// Listeners from the outcome of `ss -H -tulpen`, or the message of the
/// error that ends collection.
pub open spec fn spec_collect_listeners(outcome: CommandOutcome) -> Result<
    Seq<ListenerView>,
    Seq<char>,
> {
    match outcome {
        CommandOutcome::Success(out) => Ok(spec_parse_ss_output(out@)),
        CommandOutcome::Failed(err) => Err("ss failed: "@ + err@),
        CommandOutcome::NotFound => Err("failed to execute ss; is iproute2 installed?"@),
    }
}

/// Listeners from the outcome of `ss -H -tulpen`: its parsed output when it
/// succeeded, an error message otherwise.
pub fn collect_listeners(outcome: &CommandOutcome) -> (r: Result<Vec<Listener>, String>)
    ensures
        match (r, spec_collect_listeners(*outcome)) {
            (Ok(v), Ok(w)) => listeners_view(v@) == w,
            (Err(e), Err(m)) => e@ == m,
            _ => false,
        },
{
    match outcome {
        CommandOutcome::Success(out) => Ok(parse_ss_output(out.as_str())),
        CommandOutcome::Failed(err) => {
            let mut msg = chars_of("ss failed: ");
            crate::text::push_str(&mut msg, err.as_str());
            Err(string_from_chars(msg.as_slice()))
        },
        CommandOutcome::NotFound => Err("failed to execute ss; is iproute2 installed?".to_owned()),
    }
}

} // verus!
