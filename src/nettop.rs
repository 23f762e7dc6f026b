use vstd::prelude::*;

use crate::model::{Connection, ConnectionView, Process, ProcessView, Protocol, ProtocolView};
use crate::text::{
    chars_of, contains_range, find_char, first_index, has_sub, last_index, parse_unsigned,
    parse_unsigned_range, rfind_char, split_on, split_ranges, string_of, trim, trim_range,
};

verus! {

/// Port following position `i` of `t`, if `i` is a separator and what follows
/// it reads as a 16-bit number.
pub open spec fn port_after(t: Seq<char>, i: int) -> Option<nat> {
    if i >= 0 {
        parse_unsigned(t.subrange(i + 1, t.len() as int), 65535)
    } else {
        None
    }
}

pub open spec fn is_wildcard(t: Seq<char>) -> bool {
    t == seq!['*', ':', '*'] || t == seq!['*', '.', '*']
}

/// Address and port of one side of a connection: the wildcard forms give
/// `("*", 0)`; otherwise the port follows the last `:` and, failing that,
/// the last `.`; failing both the whole text is the address.
pub open spec fn addr_port(s: Seq<char>) -> (Seq<char>, u16) {
    let t = trim(s);
    if is_wildcard(t) {
        (seq!['*'], 0)
    } else {
        let i = last_index(t, ':');
        match port_after(t, i) {
            Some(p) => (t.subrange(0, i), p as u16),
            None => {
                let j = last_index(t, '.');
                match port_after(t, j) {
                    Some(p) => (t.subrange(0, j), p as u16),
                    None => (t, 0),
                }
            },
        }
    }
}

/// Name and pid of a process identifier `<name>.<pid>`: the pid follows the
/// last `.` when it reads as a 32-bit number; otherwise the pid is 0 and
/// the whole identifier is the name.
pub open spec fn name_pid(s: Seq<char>) -> (Seq<char>, u32) {
    let i = last_index(s, '.');
    if i >= 0 {
        match parse_unsigned(s.subrange(i + 1, s.len() as int), 0xffff_ffff) {
            Some(v) => (s.subrange(0, i), v as u32),
            None => (s, 0),
        }
    } else {
        (s, 0)
    }
}

/// Number following separator `k` of `cs[lo..hi]` (`k` relative to `lo`).
fn number_after(cs: &Vec<char>, lo: usize, hi: usize, k: Option<usize>, max: u64) -> (r: Option<u64>)
    requires
        lo <= hi <= cs@.len(),
        k matches Some(i) ==> lo <= i < hi,
    ensures
        match port_or_pid(cs@.subrange(lo as int, hi as int), k, lo, max) {
            Some(v) => r == Some(v as u64),
            None => r is None,
        },
{
    match k {
        Some(i) => {
            assert(cs@.subrange(lo as int, hi as int).subrange(i - lo + 1, hi - lo) =~= cs@.subrange(
                i + 1,
                hi as int,
            ));
            parse_unsigned_range(cs, i + 1, hi, max)
        },
        None => None,
    }
}

pub open spec fn port_or_pid(t: Seq<char>, k: Option<usize>, lo: usize, max: u64) -> Option<nat> {
    match k {
        Some(i) => parse_unsigned(t.subrange(i - lo + 1, t.len() as int), max as nat),
        None => None,
    }
}

/// `parse_addr_port` on `cs[lo..hi]`.
pub fn parse_addr_port_in(cs: &Vec<char>, lo: usize, hi: usize) -> (r: (String, u16))
    requires
        lo <= hi <= cs@.len(),
    ensures
        (r.0@, r.1) == addr_port(cs@.subrange(lo as int, hi as int)),
{
    let (a, b) = trim_range(cs, lo, hi);
    let ghost t = cs@.subrange(a as int, b as int);
    if b - a == 3 && cs[a] == '*' && (cs[a + 1] == ':' || cs[a + 1] == '.') && cs[a + 2] == '*' {
        if cs[a + 1] == ':' {
            assert(t =~= seq!['*', ':', '*']);
        } else {
            assert(t =~= seq!['*', '.', '*']);
        }
        let stars: Vec<char> = vec!['*'];
        let star = string_of(&stars, 0, 1);
        assert(stars@.subrange(0, 1) =~= seq!['*']);
        return (star, 0);
    }
    assert(!is_wildcard(t)) by {
        let w1 = seq!['*', ':', '*'];
        let w2 = seq!['*', '.', '*'];
        assert(w1.len() == 3 && w1[0] == '*' && w1[1] == ':' && w1[2] == '*');
        assert(w2.len() == 3 && w2[0] == '*' && w2[1] == '.' && w2[2] == '*');
        if t == w1 || t == w2 {
            assert(t[0] == cs@[a as int] && t[1] == cs@[a + 1] && t[2] == cs@[a + 2]);
        }
    }
    let colon = rfind_char(cs, a, b, ':');
    let ghost i = last_index(t, ':');
    match number_after(cs, a, b, colon, 65535) {
        Some(p) => {
            assert(cs@.subrange(a as int, colon->0 as int) =~= t.subrange(0, i));
            return (string_of(cs, a, colon.unwrap()), p as u16);
        },
        None => {},
    }
    let dot = rfind_char(cs, a, b, '.');
    let ghost j = last_index(t, '.');
    match number_after(cs, a, b, dot, 65535) {
        Some(p) => {
            assert(cs@.subrange(a as int, dot->0 as int) =~= t.subrange(0, j));
            (string_of(cs, a, dot.unwrap()), p as u16)
        },
        None => (string_of(cs, a, b), 0),
    }
}

/// Splits one side of a connection into address and port.
pub fn parse_addr_port(s: &str) -> (r: (String, u16))
    ensures
        (r.0@, r.1) == addr_port(s@),
{
    let cs = chars_of(s);
    assert(cs@.subrange(0, cs@.len() as int) =~= s@);
    parse_addr_port_in(&cs, 0, cs.len())
}

/// `split_name_pid` on `cs[lo..hi]`.
pub fn split_name_pid_in(cs: &Vec<char>, lo: usize, hi: usize) -> (r: (String, u32))
    requires
        lo <= hi <= cs@.len(),
    ensures
        (r.0@, r.1) == name_pid(cs@.subrange(lo as int, hi as int)),
{
    let ghost s = cs@.subrange(lo as int, hi as int);
    let dot = rfind_char(cs, lo, hi, '.');
    match number_after(cs, lo, hi, dot, 0xffff_ffff) {
        Some(v) => {
            assert(cs@.subrange(lo as int, dot->0 as int) =~= s.subrange(0, last_index(s, '.')));
            (string_of(cs, lo, dot.unwrap()), v as u32)
        },
        None => (string_of(cs, lo, hi), 0),
    }
}

/// Splits a process identifier `<name>.<pid>` into name and pid.
pub fn split_name_pid(s: &str) -> (r: (String, u32))
    ensures
        (r.0@, r.1) == name_pid(s@),
{
    let cs = chars_of(s);
    assert(cs@.subrange(0, cs@.len() as int) =~= s@);
    split_name_pid_in(&cs, 0, cs.len())
}

/// The `k`-th comma-separated field of `line`, read as a number; 0 where
/// the field is missing or is not a number.
pub open spec fn number_field(line: Seq<char>, k: int) -> u64 {
    let f = split_on(line, ',');
    if 0 <= k < f.len() {
        match parse_unsigned(trim(f[k]), 0xffff_ffff_ffff_ffff) {
            Some(v) => v as u64,
            None => 0,
        }
    } else {
        0
    }
}

/// The first comma-separated field of `line`, trimmed.
pub open spec fn first_field(line: Seq<char>) -> Seq<char> {
    trim(split_on(line, ',')[0])
}

/// A first field that starts with `tcp4 `, `tcp6 `, `udp4 ` or `udp6 `.
pub open spec fn is_connection_field(f: Seq<char>) -> bool {
    &&& f.len() >= 5
    &&& f[4] == ' '
    &&& (f[3] == '4' || f[3] == '6')
    &&& ((f[0] == 't' && f[1] == 'c' && f[2] == 'p') || (f[0] == 'u' && f[1] == 'd' && f[2]
        == 'p'))
}

/// Protocol named by a tag.
pub open spec fn protocol_of(tag: Seq<char>) -> ProtocolView {
    if tag == seq!['t', 'c', 'p', '4'] || tag == seq!['t', 'c', 'p', '6'] {
        ProtocolView::Tcp
    } else if tag == seq!['u', 'd', 'p', '4'] || tag == seq!['u', 'd', 'p', '6'] {
        ProtocolView::Udp
    } else {
        ProtocolView::Other(tag)
    }
}

/// Index of the first `<->` in `s`, or -1.
pub open spec fn arrow_index(s: Seq<char>) -> int
    decreases s.len(),
{
    if s.len() < 3 {
        -1
    } else if s[0] == '<' && s[1] == '-' && s[2] == '>' {
        0
    } else {
        let k = arrow_index(s.drop_first());
        if k < 0 {
            -1
        } else {
            k + 1
        }
    }
}

/// The connection that a connection line describes:
/// `<proto> <local><-><remote>,<bytes_in>,<bytes_out>,...`.
pub open spec fn connection_line(line: Seq<char>) -> Option<ConnectionView> {
    let desc = first_field(line);
    let sp = first_index(desc, ' ');
    if sp < 0 {
        None
    } else {
        let rest = desc.subrange(sp + 1, desc.len() as int);
        let ar = arrow_index(rest);
        if ar < 0 {
            None
        } else {
            let local = addr_port(rest.subrange(0, ar));
            let remote = addr_port(rest.subrange(ar + 3, rest.len() as int));
            Some(
                ConnectionView {
                    local_addr: local.0,
                    local_port: local.1,
                    remote_addr: remote.0,
                    remote_port: remote.1,
                    protocol: protocol_of(desc.subrange(0, sp)),
                    state: Seq::empty(),
                    interface: Seq::empty(),
                    bytes_in: number_field(line, 1),
                    bytes_out: number_field(line, 2),
                    hostname: None,
                },
            )
        }
    }
}

/// The process that a summary line `<name>.<pid>,<bytes_in>,<bytes_out>,...`
/// starts; none where the name is empty.
pub open spec fn process_line(line: Seq<char>) -> Option<ProcessView> {
    let id = name_pid(first_field(line));
    if id.0.len() == 0 {
        None
    } else {
        Some(
            ProcessView {
                name: id.0,
                pid: id.1,
                path: None,
                connections: Seq::empty(),
                bytes_in: number_field(line, 1),
                bytes_out: number_field(line, 2),
                rate_in: 0,
                rate_out: 0,
            },
        )
    }
}

pub proof fn lemma_split_on_nonempty(s: Seq<char>, c: char)
    ensures
        split_on(s, c).len() >= 1,
{
    reveal_with_fuel(split_on, 1);
}

/// Number in field `k` of the line whose fields are `parts`.
fn number_in(cs: &Vec<char>, lo: usize, hi: usize, parts: &Vec<(usize, usize)>, k: usize) -> (r: u64)
    requires
        lo <= hi <= cs@.len(),
        parts@.len() == split_on(cs@.subrange(lo as int, hi as int), ',').len(),
        forall|j: int|
            0 <= j < parts@.len() ==> {
                &&& lo <= (#[trigger] parts@[j]).0 <= parts@[j].1 <= hi
                &&& cs@.subrange(parts@[j].0 as int, parts@[j].1 as int) == split_on(
                    cs@.subrange(lo as int, hi as int),
                    ',',
                )[j]
            },
    ensures
        r == number_field(cs@.subrange(lo as int, hi as int), k as int),
{
    if k < parts.len() {
        let (a, b) = parts[k];
        let (ta, tb) = trim_range(cs, a, b);
        match parse_unsigned_range(cs, ta, tb, 0xffff_ffff_ffff_ffff) {
            Some(v) => v,
            None => 0,
        }
    } else {
        0
    }
}

/// Whether a trimmed first field starts a connection line.
pub fn is_connection_field_in(cs: &Vec<char>, lo: usize, hi: usize) -> (r: bool)
    requires
        lo <= hi <= cs@.len(),
    ensures
        r == is_connection_field(cs@.subrange(lo as int, hi as int)),
{
    if hi - lo < 5 {
        return false;
    }
    let tcp = cs[lo] == 't' && cs[lo + 1] == 'c' && cs[lo + 2] == 'p';
    let udp = cs[lo] == 'u' && cs[lo + 1] == 'd' && cs[lo + 2] == 'p';
    (tcp || udp) && (cs[lo + 3] == '4' || cs[lo + 3] == '6') && cs[lo + 4] == ' '
}

/// Whether the first field of a line marks a connection line.
pub fn is_connection_line(first_field: &str) -> (r: bool)
    ensures
        r == is_connection_field(first_field@),
{
    let cs = chars_of(first_field);
    assert(cs@.subrange(0, cs@.len() as int) =~= first_field@);
    is_connection_field_in(&cs, 0, cs.len())
}

/// Protocol named by the tag `cs[lo..hi]`.
fn protocol_in(cs: &Vec<char>, lo: usize, hi: usize) -> (r: Protocol)
    requires
        lo <= hi <= cs@.len(),
    ensures
        r@ == protocol_of(cs@.subrange(lo as int, hi as int)),
{
    let ghost t = cs@.subrange(lo as int, hi as int);
    let ghost tcp4 = seq!['t', 'c', 'p', '4'];
    let ghost tcp6 = seq!['t', 'c', 'p', '6'];
    let ghost udp4 = seq!['u', 'd', 'p', '4'];
    let ghost udp6 = seq!['u', 'd', 'p', '6'];
    assert(tcp4.len() == 4 && tcp4[0] == 't' && tcp4[1] == 'c' && tcp4[2] == 'p' && tcp4[3] == '4');
    assert(tcp6.len() == 4 && tcp6[0] == 't' && tcp6[1] == 'c' && tcp6[2] == 'p' && tcp6[3] == '6');
    assert(udp4.len() == 4 && udp4[0] == 'u' && udp4[1] == 'd' && udp4[2] == 'p' && udp4[3] == '4');
    assert(udp6.len() == 4 && udp6[0] == 'u' && udp6[1] == 'd' && udp6[2] == 'p' && udp6[3] == '6');
    if hi - lo == 4 && (cs[lo + 3] == '4' || cs[lo + 3] == '6') {
        if cs[lo] == 't' && cs[lo + 1] == 'c' && cs[lo + 2] == 'p' {
            if cs[lo + 3] == '4' {
                assert(t =~= tcp4);
            } else {
                assert(t =~= tcp6);
            }
            return Protocol::Tcp;
        }
        if cs[lo] == 'u' && cs[lo + 1] == 'd' && cs[lo + 2] == 'p' {
            if cs[lo + 3] == '4' {
                assert(t =~= udp4);
            } else {
                assert(t =~= udp6);
            }
            return Protocol::Udp;
        }
    }
    assert(t != tcp4 && t != tcp6 && t != udp4 && t != udp6) by {
        if t.len() == 4 {
            assert(t[0] == cs@[lo as int] && t[1] == cs@[lo + 1] && t[2] == cs@[lo + 2] && t[3]
                == cs@[lo + 3]);
        }
    }
    Protocol::Other(string_of(cs, lo, hi))
}

/// Position of the first `<->` in `cs[lo..hi]`.
fn find_arrow(cs: &Vec<char>, lo: usize, hi: usize) -> (r: Option<usize>)
    requires
        lo <= hi <= cs@.len(),
    ensures
        match r {
            Some(k) => lo <= k && k + 3 <= hi && k - lo == arrow_index(
                cs@.subrange(lo as int, hi as int),
            ),
            None => arrow_index(cs@.subrange(lo as int, hi as int)) == -1,
        },
{
    let mut a = lo;
    while hi - a >= 3
        invariant
            lo <= a <= hi <= cs@.len(),
            arrow_index(cs@.subrange(lo as int, hi as int)) == (if arrow_index(
                cs@.subrange(a as int, hi as int),
            ) < 0 {
                -1
            } else {
                arrow_index(cs@.subrange(a as int, hi as int)) + (a - lo)
            }),
        decreases hi - a,
    {
        if cs[a] == '<' && cs[a + 1] == '-' && cs[a + 2] == '>' {
            return Some(a);
        }
        assert(cs@.subrange(a as int, hi as int).drop_first() =~= cs@.subrange(a + 1, hi as int));
        a = a + 1;
    }
    None
}

/// `parse_connection_line` on `cs[lo..hi]`.
pub fn parse_connection_line_in(cs: &Vec<char>, lo: usize, hi: usize) -> (r: Option<Connection>)
    requires
        lo <= hi <= cs@.len(),
    ensures
        match connection_line(cs@.subrange(lo as int, hi as int)) {
            Some(c) => r matches Some(x) && x@ == c,
            None => r is None,
        },
{
    let ghost line = cs@.subrange(lo as int, hi as int);
    let parts = split_ranges(cs, lo, hi, ',');
    proof {
        lemma_split_on_nonempty(line, ',');
    }
    let bytes_in = number_in(cs, lo, hi, &parts, 1);
    let bytes_out = number_in(cs, lo, hi, &parts, 2);
    let (fa, fb) = parts[0];
    let (da, db) = trim_range(cs, fa, fb);
    let ghost desc = cs@.subrange(da as int, db as int);
    assert(desc == first_field(line));
    let sp = match find_char(cs, da, db, ' ') {
        Some(k) => k,
        None => {
            return None;
        },
    };
    let ghost rest = cs@.subrange(sp + 1, db as int);
    assert(desc.subrange(sp - da + 1, desc.len() as int) =~= rest);
    assert(desc.subrange(0, sp - da) =~= cs@.subrange(da as int, sp as int));
    let ar = match find_arrow(cs, sp + 1, db) {
        Some(k) => k,
        None => {
            return None;
        },
    };
    assert(rest.subrange(0, ar - (sp + 1)) =~= cs@.subrange(sp + 1, ar as int));
    assert(rest.subrange(ar - (sp + 1) + 3, rest.len() as int) =~= cs@.subrange(ar + 3, db as int));
    let (local_addr, local_port) = parse_addr_port_in(cs, sp + 1, ar);
    let (remote_addr, remote_port) = parse_addr_port_in(cs, ar + 3, db);
    let protocol = protocol_in(cs, da, sp);
    let c = Connection {
        local_addr,
        local_port,
        remote_addr,
        remote_port,
        protocol,
        state: String::new(),
        interface: String::new(),
        bytes_in,
        bytes_out,
        hostname: None,
    };
    Some(c)
}

/// Parses a connection line
/// `<proto> <local><-><remote>,<bytes_in>,<bytes_out>,...`.
pub fn parse_connection_line(line: &str) -> (r: Option<Connection>)
    ensures
        match connection_line(line@) {
            Some(c) => r matches Some(x) && x@ == c,
            None => r is None,
        },
{
    let cs = chars_of(line);
    assert(cs@.subrange(0, cs@.len() as int) =~= line@);
    parse_connection_line_in(&cs, 0, cs.len())
}

/// `parse_process_line` on `cs[lo..hi]`.
pub fn parse_process_line_in(cs: &Vec<char>, lo: usize, hi: usize) -> (r: Option<Process>)
    requires
        lo <= hi <= cs@.len(),
    ensures
        match process_line(cs@.subrange(lo as int, hi as int)) {
            Some(p) => r matches Some(x) && x@ == p,
            None => r is None,
        },
{
    let ghost line = cs@.subrange(lo as int, hi as int);
    let parts = split_ranges(cs, lo, hi, ',');
    proof {
        lemma_split_on_nonempty(line, ',');
    }
    let (fa, fb) = parts[0];
    let (ia, ib) = trim_range(cs, fa, fb);
    let (name, pid) = split_name_pid_in(cs, ia, ib);
    if name.as_str().is_empty() {
        return None;
    }
    let bytes_in = number_in(cs, lo, hi, &parts, 1);
    let bytes_out = number_in(cs, lo, hi, &parts, 2);
    let p = Process {
        name,
        pid,
        path: None,
        connections: Vec::new(),
        bytes_in,
        bytes_out,
        rate_in: 0,
        rate_out: 0,
    };
    assert(p@.connections =~= Seq::<ConnectionView>::empty());
    Some(p)
}

/// Parses a process summary line `<name>.<pid>,<bytes_in>,<bytes_out>,...`.
pub fn parse_process_line(line: &str) -> (r: Option<Process>)
    ensures
        match process_line(line@) {
            Some(p) => r matches Some(x) && x@ == p,
            None => r is None,
        },
{
    let cs = chars_of(line);
    assert(cs@.subrange(0, cs@.len() as int) =~= line@);
    parse_process_line_in(&cs, 0, cs.len())
}

/// The token that marks the header line of a report.
pub open spec fn header_marker() -> Seq<char> {
    seq!['b', 'y', 't', 'e', 's', '_', 'i', 'n']
}

/// Index of the first line holding the header marker, or -1.
pub open spec fn header_index(ls: Seq<Seq<char>>) -> int
    decreases ls.len(),
{
    if ls.len() == 0 {
        -1
    } else if has_sub(ls[0], header_marker()) {
        0
    } else {
        let k = header_index(ls.drop_first());
        if k < 0 {
            -1
        } else {
            k + 1
        }
    }
}

/// A process is kept when it moved bytes or has connections.
pub open spec fn is_active(p: ProcessView) -> bool {
    p.bytes_in > 0 || p.bytes_out > 0 || p.connections.len() > 0
}

/// `acc` with the process being read appended, if it is kept.
pub open spec fn flush(acc: Seq<ProcessView>, cur: Option<ProcessView>) -> Seq<ProcessView> {
    match cur {
        Some(p) => if is_active(p) {
            acc.push(p)
        } else {
            acc
        },
        None => acc,
    }
}

/// Reading one line after the header: the processes done so far and the
/// one being read.
pub open spec fn step(st: (Seq<ProcessView>, Option<ProcessView>), raw: Seq<char>) -> (
    Seq<ProcessView>,
    Option<ProcessView>,
) {
    let line = trim(raw);
    if line.len() == 0 {
        st
    } else if is_connection_field(first_field(line)) {
        match st.1 {
            Some(p) => match connection_line(line) {
                Some(c) => (st.0, Some(ProcessView { connections: p.connections.push(c), ..p })),
                None => st,
            },
            None => st,
        }
    } else {
        (flush(st.0, st.1), process_line(line))
    }
}

/// State after reading `ls` in order.
pub open spec fn run(ls: Seq<Seq<char>>) -> (Seq<ProcessView>, Option<ProcessView>)
    decreases ls.len(),
{
    if ls.len() == 0 {
        (Seq::empty(), None)
    } else {
        step(run(ls.drop_last()), ls.last())
    }
}

/// The processes of a report: the lines after the first header line are
/// read in order; no header gives no processes.
pub open spec fn parse_report(s: Seq<char>) -> Seq<ProcessView> {
    let ls = split_on(s, '\n');
    let h = header_index(ls);
    if h < 0 {
        Seq::empty()
    } else {
        let st = run(ls.subrange(h + 1, ls.len() as int));
        flush(st.0, st.1)
    }
}

pub open spec fn opt_process_view(o: Option<Process>) -> Option<ProcessView> {
    match o {
        Some(p) => Some(p@),
        None => None,
    }
}

pub proof fn lemma_header_index_first(ls: Seq<Seq<char>>, k: int)
    requires
        0 <= k <= ls.len(),
        forall|j: int| 0 <= j < k ==> !has_sub(#[trigger] ls[j], header_marker()),
    ensures
        k < ls.len() && has_sub(ls[k], header_marker()) ==> header_index(ls) == k,
        k == ls.len() ==> header_index(ls) == -1,
    decreases k,
{
    if k > 0 {
        let t = ls.drop_first();
        assert forall|j: int| 0 <= j < k - 1 implies !has_sub(#[trigger] t[j], header_marker()) by {
            assert(t[j] == ls[j + 1]);
        }
        lemma_header_index_first(t, k - 1);
        assert(!has_sub(ls[0], header_marker()));
    }
}

/// Appends `cur` to `acc` if it is kept.
fn flush_into(acc: &mut Vec<Process>, cur: Option<Process>)
    ensures
        crate::model::procs_view(final(acc)@) == flush(
            crate::model::procs_view(old(acc)@),
            opt_process_view(cur),
        ),
{
    match cur {
        Some(p) => {
            if p.bytes_in > 0 || p.bytes_out > 0 || p.connections.len() > 0 {
                acc.push(p);
                assert(crate::model::procs_view(acc@) =~= crate::model::procs_view(old(acc)@).push(
                    p@,
                ));
            }
        },
        None => {},
    }
}

/// Reads the line `cs[lo..hi]` into the state `acc`, `cur`.
fn step_line(
    cs: &Vec<char>,
    lo: usize,
    hi: usize,
    acc: &mut Vec<Process>,
    cur: &mut Option<Process>,
)
    requires
        lo <= hi <= cs@.len(),
    ensures
        (crate::model::procs_view(final(acc)@), opt_process_view(*final(cur))) == step(
            (crate::model::procs_view(old(acc)@), opt_process_view(*old(cur))),
            cs@.subrange(lo as int, hi as int),
        ),
{
    let (a, b) = trim_range(cs, lo, hi);
    if a == b {
        return ;
    }
    let ghost line = cs@.subrange(a as int, b as int);
    let parts = split_ranges(cs, a, b, ',');
    proof {
        lemma_split_on_nonempty(line, ',');
    }
    let (fa, fb) = parts[0];
    let (ta, tb) = trim_range(cs, fa, fb);
    if is_connection_field_in(cs, ta, tb) {
        match cur {
            Some(p) => {
                match parse_connection_line_in(cs, a, b) {
                    Some(c) => {
                        let ghost before = p@;
                        p.connections.push(c);
                        assert(crate::model::conns_view(p.connections@) =~= before.connections.push(
                            c@,
                        ));
                    },
                    None => {},
                }
            },
            None => {},
        }
    } else {
        let next = parse_process_line_in(cs, a, b);
        let prev = cur.take();
        *cur = next;
        flush_into(acc, prev);
    }
}

/// Parses one report into its processes. A report without a header line
/// gives an empty list; malformed numbers read as 0.
pub fn parse_nettop_output(output: &str) -> (r: Result<Vec<Process>, String>)
    ensures
        r matches Ok(ps) && crate::model::procs_view(ps@) == parse_report(output@),
        r matches Ok(ps) && forall|i: int| 0 <= i < ps@.len() ==> (#[trigger] ps@[i]).name@.len() > 0,
{
    proof {
        lemma_parsed_names_nonempty(output@);
    }
    let cs = chars_of(output);
    let n = cs.len();
    let ghost s = output@;
    assert(cs@.subrange(0, n as int) =~= s);
    let lines = split_ranges(&cs, 0, n, '\n');
    let ghost ls = split_on(s, '\n');
    let marker: Vec<char> = vec!['b', 'y', 't', 'e', 's', '_', 'i', 'n'];
    assert(marker@ =~= header_marker());
    let mut h: usize = 0;
    while h < lines.len()
        invariant
            h <= lines@.len() == ls.len(),
            n == cs@.len(),
            marker@ == header_marker(),
            forall|k: int|
                0 <= k < lines@.len() ==> {
                    &&& 0 <= (#[trigger] lines@[k]).0 <= lines@[k].1 <= n
                    &&& cs@.subrange(lines@[k].0 as int, lines@[k].1 as int) == ls[k]
                },
            forall|j: int| 0 <= j < h ==> !has_sub(#[trigger] ls[j], header_marker()),
        ensures
            h < lines@.len() ==> has_sub(ls[h as int], header_marker()),
        decreases lines@.len() - h,
    {
        let (a, b) = lines[h];
        if contains_range(&cs, a, b, &marker) {
            break ;
        }
        h = h + 1;
    }
    proof {
        lemma_header_index_first(ls, h as int);
    }
    let mut acc: Vec<Process> = Vec::new();
    if h == lines.len() {
        assert(crate::model::procs_view(acc@) =~= Seq::<ProcessView>::empty());
        assert(acc@.len() == 0);
        return Ok(acc);
    }
    let mut cur: Option<Process> = None;
    let mut j = h + 1;
    assert(ls.subrange(h + 1, h + 1) =~= Seq::<Seq<char>>::empty());
    assert(crate::model::procs_view(acc@) =~= Seq::<ProcessView>::empty());
    while j < lines.len()
        invariant
            h < j <= lines@.len() == ls.len(),
            n == cs@.len(),
            forall|k: int|
                0 <= k < lines@.len() ==> {
                    &&& 0 <= (#[trigger] lines@[k]).0 <= lines@[k].1 <= n
                    &&& cs@.subrange(lines@[k].0 as int, lines@[k].1 as int) == ls[k]
                },
            (crate::model::procs_view(acc@), opt_process_view(cur)) == run(
                ls.subrange(h + 1, j as int),
            ),
        decreases lines@.len() - j,
    {
        let (a, b) = lines[j];
        step_line(&cs, a, b, &mut acc, &mut cur);
        assert(ls.subrange(h + 1, j + 1).drop_last() =~= ls.subrange(h + 1, j as int));
        j = j + 1;
    }
    assert(ls.subrange(h + 1, j as int) == ls.subrange(h + 1, ls.len() as int));
    assert(header_index(ls) == h);
    flush_into(&mut acc, cur);
    assert forall|i: int| 0 <= i < acc@.len() implies (#[trigger] acc@[i]).name@.len() > 0 by {
        assert(crate::model::procs_view(acc@)[i] == acc@[i]@);
    }
    Ok(acc)
}

pub open spec fn all_named(ps: Seq<ProcessView>) -> bool {
    forall|i: int| 0 <= i < ps.len() ==> (#[trigger] ps[i]).name.len() > 0
}

pub open spec fn state_named(st: (Seq<ProcessView>, Option<ProcessView>)) -> bool {
    &&& all_named(st.0)
    &&& st.1 matches Some(p) ==> p.name.len() > 0
}

proof fn lemma_flush_named(acc: Seq<ProcessView>, cur: Option<ProcessView>)
    requires
        state_named((acc, cur)),
    ensures
        all_named(flush(acc, cur)),
{
    if let Some(p) = cur {
        if is_active(p) {
            assert forall|i: int| 0 <= i < acc.push(p).len() implies (#[trigger] acc.push(
                p,
            )[i]).name.len() > 0 by {
                if i < acc.len() {
                    assert(acc.push(p)[i] == acc[i]);
                }
            }
        }
    }
}

proof fn lemma_run_named(ls: Seq<Seq<char>>)
    ensures
        state_named(run(ls)),
    decreases ls.len(),
{
    if ls.len() > 0 {
        lemma_run_named(ls.drop_last());
        lemma_flush_named(run(ls.drop_last()).0, run(ls.drop_last()).1);
    }
}

/// Every process that a report yields has a non-empty name.
pub proof fn lemma_parsed_names_nonempty(s: Seq<char>)
    ensures
        all_named(parse_report(s)),
{
    let ls = split_on(s, '\n');
    let h = header_index(ls);
    if h >= 0 {
        let st = run(ls.subrange(h + 1, ls.len() as int));
        lemma_run_named(ls.subrange(h + 1, ls.len() as int));
        lemma_flush_named(st.0, st.1);
    }
}

/// Parsing depends on the report's text alone: two equal reports yield
/// equal process lists.
pub proof fn lemma_parse_deterministic(a: Seq<char>, b: Seq<char>)
    requires
        a == b,
    ensures
        parse_report(a) == parse_report(b),
{
}

} // verus!
