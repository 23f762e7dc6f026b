use vstd::prelude::*;

use crate::model::{opt_view, protocol_label, Connection, ConnectionView, Process, ProcessView};
use crate::text::{chars_of, contains_range, has_sub, lower_of, lowercase, occurs_at, string_of};

verus! {

pub open spec fn digit_char(d: nat) -> char {
    if d == 0 {
        '0'
    } else if d == 1 {
        '1'
    } else if d == 2 {
        '2'
    } else if d == 3 {
        '3'
    } else if d == 4 {
        '4'
    } else if d == 5 {
        '5'
    } else if d == 6 {
        '6'
    } else if d == 7 {
        '7'
    } else if d == 8 {
        '8'
    } else {
        '9'
    }
}

/// Decimal text of `n`, without leading zeros.
pub open spec fn decimal(n: nat) -> Seq<char>
    decreases n,
{
    if n < 10 {
        seq![digit_char(n)]
    } else {
        decimal(n / 10).push(digit_char(n % 10))
    }
}

fn digit(d: u32) -> (r: char)
    requires
        d < 10,
    ensures
        r == digit_char(d as nat),
{
    if d == 0 {
        '0'
    } else if d == 1 {
        '1'
    } else if d == 2 {
        '2'
    } else if d == 3 {
        '3'
    } else if d == 4 {
        '4'
    } else if d == 5 {
        '5'
    } else if d == 6 {
        '6'
    } else if d == 7 {
        '7'
    } else if d == 8 {
        '8'
    } else {
        '9'
    }
}

/// Decimal digits of `n`.
pub fn decimal_chars(n: u32) -> (r: Vec<char>)
    ensures
        r@ == decimal(n as nat),
    decreases n,
{
    if n < 10 {
        vec![digit(n)]
    } else {
        let mut v = decimal_chars(n / 10);
        v.push(digit(n % 10));
        v
    }
}

/// Text of the path of `p`; empty where it is unknown.
pub open spec fn path_text(p: ProcessView) -> Seq<char> {
    match p.path {
        Some(s) => s,
        None => Seq::empty(),
    }
}

/// Whether a lower-case filter occurs in the lower-case name, the
/// lower-case path, or the decimal pid.
pub open spec fn matches_lowered(name: Seq<char>, path: Seq<char>, pid: u32, needle: Seq<char>) -> bool {
    has_sub(name, needle) || has_sub(path, needle) || has_sub(decimal(pid as nat), needle)
}

/// Whether `p` passes the filter `filter`: no filter, or an empty one,
/// passes every process; otherwise the filter's lower-case form must occur
/// in the lower-case name, the lower-case path or the decimal pid.
pub open spec fn process_matches(p: ProcessView, filter: Option<Seq<char>>) -> bool {
    match filter {
        None => true,
        Some(f) => f.len() == 0 || matches_lowered(
            lower_of(p.name),
            lower_of(path_text(p)),
            p.pid,
            lower_of(f),
        ),
    }
}

/// Whether `needle` occurs in `name`, in `path`, or in the decimal text of
/// `pid`; the texts are given already in lower case.
pub fn matches_folded(name: &str, path: &str, pid: u32, needle: &str) -> (r: bool)
    ensures
        r == matches_lowered(name@, path@, pid, needle@),
{
    let pat = chars_of(needle);
    let n = chars_of(name);
    assert(n@.subrange(0, n@.len() as int) =~= name@);
    if contains_range(&n, 0, n.len(), &pat) {
        return true;
    }
    let p = chars_of(path);
    assert(p@.subrange(0, p@.len() as int) =~= path@);
    if contains_range(&p, 0, p.len(), &pat) {
        return true;
    }
    let d = decimal_chars(pid);
    assert(d@.subrange(0, d@.len() as int) =~= decimal(pid as nat));
    contains_range(&d, 0, d.len(), &pat)
}

/// Lower-case form of a filter, or none where the filter passes everything.
pub fn filter_needle(filter: &Option<String>) -> (r: Option<String>)
    ensures
        match opt_view(*filter) {
            Some(f) => if f.len() == 0 {
                r is None
            } else {
                r matches Some(n) && n@ == lower_of(f)
            },
            None => r is None,
        },
{
    match filter {
        Some(f) => {
            if f.as_str().is_empty() {
                None
            } else {
                Some(lowercase(f.as_str()))
            }
        },
        None => None,
    }
}

/// Whether `p` passes a filter whose lower-case form is `needle`.
pub fn passes(p: &Process, needle: &String) -> (r: bool)
    ensures
        r == matches_lowered(lower_of(p@.name), lower_of(path_text(p@)), p.pid, needle@),
{
    let name = lowercase(p.name.as_str());
    let path = match &p.path {
        Some(s) => lowercase(s.as_str()),
        None => lowercase(""),
    };
    proof {
        if p.path is None {
            assert(""@ =~= Seq::<char>::empty()) by {
                reveal_strlit("");
            }
        }
    }
    matches_folded(name.as_str(), path.as_str(), p.pid, needle.as_str())
}

/// The processes of `ps` that pass `filter`, in order.
pub fn filter_processes<'a>(ps: &'a Vec<Process>, filter: &Option<String>) -> (r: Vec<&'a Process>)
    ensures
        r@.len() == ps@.filter(|p: Process| process_matches(p@, opt_view(*filter))).len(),
        forall|i: int|
            0 <= i < r@.len() ==> *r@[i] == ps@.filter(
                |p: Process| process_matches(p@, opt_view(*filter)),
            )[i],
{
    let ghost pred = |p: Process| process_matches(p@, opt_view(*filter));
    proof {
        reveal(Seq::filter);
    }
    assert(ps@.take(0).filter(pred) =~= Seq::<Process>::empty());
    let needle = filter_needle(filter);
    let mut out: Vec<&'a Process> = Vec::new();
    let mut i: usize = 0;
    while i < ps.len()
        invariant
            i <= ps@.len(),
            pred == (|p: Process| process_matches(p@, opt_view(*filter))),
            match opt_view(*filter) {
                Some(f) => if f.len() == 0 {
                    needle is None
                } else {
                    needle matches Some(n) && n@ == lower_of(f)
                },
                None => needle is None,
            },
            out@.len() == ps@.take(i as int).filter(pred).len(),
            forall|k: int| 0 <= k < out@.len() ==> *out@[k] == ps@.take(i as int).filter(pred)[k],
        decreases ps@.len() - i,
    {
        let p = &ps[i];
        let keep = match &needle {
            Some(n) => passes(p, n),
            None => true,
        };
        assert(keep == pred(ps@[i as int]));
        let ghost t = ps@.take(i + 1);
        assert(t.drop_last() =~= ps@.take(i as int));
        assert(t.last() == ps@[i as int]);
        proof {
            reveal(Seq::filter);
        }
        assert(t.filter(pred) == (if pred(t.last()) {
            t.drop_last().filter(pred).push(t.last())
        } else {
            t.drop_last().filter(pred)
        }));
        if keep {
            out.push(p);
        }
        i = i + 1;
    }
    assert(ps@.take(ps@.len() as int) =~= ps@);
    out
}

/// A filter equal to a process's name always passes that process.
pub proof fn lemma_exact_name_matches(p: ProcessView)
    ensures
        process_matches(p, Some(p.name)),
{
    let f = lower_of(p.name);
    assert(f.subrange(0, f.len() as int) =~= f);
    assert(occurs_at(f, f, 0));
}

/// Filtering ignores case: two non-empty filters with the same lower-case
/// form pass the same processes.
pub proof fn lemma_filter_ignores_case(p: ProcessView, f1: Seq<char>, f2: Seq<char>)
    requires
        f1.len() > 0,
        f2.len() > 0,
        lower_of(f1) == lower_of(f2),
    ensures
        process_matches(p, Some(f1)) == process_matches(p, Some(f2)),
{
}

/// Remote side as shown: the host name where one is known, else the address.
pub open spec fn remote_shown(c: ConnectionView) -> Seq<char> {
    match c.hostname {
        Some(h) => h,
        None => c.remote_addr,
    }
}

/// `addr:port`, or the address alone where the port is 0.
pub open spec fn endpoint_text(addr: Seq<char>, port: u16) -> Seq<char> {
    if port > 0 {
        addr + seq![':'] + decimal(port as nat)
    } else {
        addr
    }
}

/// Whether `needle` occurs in one of the given texts of a connection row.
pub open spec fn row_matches_lowered(
    name: Seq<char>,
    remote: Seq<char>,
    local: Seq<char>,
    proto: Seq<char>,
    needle: Seq<char>,
) -> bool {
    has_sub(name, needle) || has_sub(remote, needle) || has_sub(local, needle) || has_sub(
        proto,
        needle,
    )
}

/// Whether connection `c` of the process named `name` passes the filter:
/// no filter passes every connection; otherwise the filter's lower-case
/// form must occur in the lower-case process name, remote side, local side
/// or protocol label.
pub open spec fn connection_matches(name: Seq<char>, c: ConnectionView, filter: Option<Seq<char>>) -> bool {
    match filter {
        None => true,
        Some(f) => row_matches_lowered(
            lower_of(name),
            lower_of(endpoint_text(remote_shown(c), c.remote_port)),
            lower_of(endpoint_text(c.local_addr, c.local_port)),
            lower_of(protocol_label(c.protocol)),
            lower_of(f),
        ),
    }
}

/// Whether `needle` occurs in one of the texts of a connection row; the
/// texts are given already in lower case.
pub fn row_matches_folded(name: &str, remote: &str, local: &str, proto: &str, needle: &str) -> (r: bool)
    ensures
        r == row_matches_lowered(name@, remote@, local@, proto@, needle@),
{
    let pat = chars_of(needle);
    let a = chars_of(name);
    assert(a@.subrange(0, a@.len() as int) =~= name@);
    if contains_range(&a, 0, a.len(), &pat) {
        return true;
    }
    let b = chars_of(remote);
    assert(b@.subrange(0, b@.len() as int) =~= remote@);
    if contains_range(&b, 0, b.len(), &pat) {
        return true;
    }
    let c = chars_of(local);
    assert(c@.subrange(0, c@.len() as int) =~= local@);
    if contains_range(&c, 0, c.len(), &pat) {
        return true;
    }
    let d = chars_of(proto);
    assert(d@.subrange(0, d@.len() as int) =~= proto@);
    contains_range(&d, 0, d.len(), &pat)
}

/// `endpoint_text` as a string.
fn endpoint_string(addr: &String, port: u16) -> (r: String)
    ensures
        r@ == endpoint_text(addr@, port),
{
    if port == 0 {
        return addr.clone();
    }
    let mut cs = chars_of(addr.as_str());
    cs.push(':');
    let mut digits = decimal_chars(port as u32);
    let ghost d = digits@;
    let ghost head = cs@;
    cs.append(&mut digits);
    assert(cs@ =~= addr@ + seq![':'] + d);
    string_of(&cs, 0, cs.len())
}

/// Whether connection `c` of the process named `name` passes `filter`.
pub fn connection_passes(name: &String, c: &Connection, filter: &Option<String>) -> (r: bool)
    ensures
        r == connection_matches(name@, c@, opt_view(*filter)),
{
    match filter {
        None => true,
        Some(f) => {
            let needle = lowercase(f.as_str());
            let shown = match &c.hostname {
                Some(h) => h.clone(),
                None => c.remote_addr.clone(),
            };
            let remote = lowercase(endpoint_string(&shown, c.remote_port).as_str());
            let local = lowercase(endpoint_string(&c.local_addr, c.local_port).as_str());
            let proto = lowercase(c.protocol.label().as_str());
            let low_name = lowercase(name.as_str());
            row_matches_folded(
                low_name.as_str(),
                remote.as_str(),
                local.as_str(),
                proto.as_str(),
                needle.as_str(),
            )
        },
    }
}

/// Connection rows of the processes `ps`: each connection that passes
/// `filter`, paired with its process, in order.
pub open spec fn rows(ps: Seq<Process>, filter: Option<Seq<char>>) -> Seq<(Process, Connection)>
    decreases ps.len(),
{
    if ps.len() == 0 {
        Seq::empty()
    } else {
        let p = ps.last();
        rows(ps.drop_last(), filter) + p.connections@.filter(
            |c: Connection| connection_matches(p.name@, c@, filter),
        ).map_values(|c: Connection| (p, c))
    }
}

/// `out` holds, from `start` on, the rows of `p` with connections `cs`.
pub open spec fn tail_rows<'a>(
    out: Seq<(&'a Process, &'a Connection)>,
    start: int,
    p: Process,
    cs: Seq<Connection>,
) -> bool {
    forall|k: int|
        0 <= k < cs.len() ==> *(#[trigger] out[start + k]).0 == p && *out[start + k].1 == cs[k]
}

/// The connection rows of `ps` that pass `filter`.
pub fn filter_connections<'a>(ps: &Vec<&'a Process>, filter: &Option<String>) -> (r: Vec<
    (&'a Process, &'a Connection),
>)
    ensures
        r@.len() == rows(ps@.map_values(|p: &Process| *p), opt_view(*filter)).len(),
        forall|k: int|
            0 <= k < r@.len() ==> *r@[k].0 == rows(
                ps@.map_values(|p: &Process| *p),
                opt_view(*filter),
            )[k].0 && *r@[k].1 == rows(ps@.map_values(|p: &Process| *p), opt_view(*filter))[k].1,
{
    let ghost f = opt_view(*filter);
    let ghost all = ps@.map_values(|p: &Process| *p);
    let mut out: Vec<(&'a Process, &'a Connection)> = Vec::new();
    let mut i: usize = 0;
    proof {
        reveal(Seq::filter);
    }
    assert(all.take(0) =~= Seq::<Process>::empty());
    while i < ps.len()
        invariant
            i <= ps@.len(),
            f == opt_view(*filter),
            all == ps@.map_values(|p: &Process| *p),
            out@.len() == rows(all.take(i as int), f).len(),
            forall|k: int|
                0 <= k < out@.len() ==> *out@[k].0 == rows(all.take(i as int), f)[k].0 && *out@[k].1
                    == rows(all.take(i as int), f)[k].1,
        decreases ps@.len() - i,
    {
        let p: &'a Process = ps[i];
        let ghost pred = |c: Connection| connection_matches(p.name@, c@, f);
        let ghost base = out@;
        let ghost before = rows(all.take(i as int), f);
        let mut j: usize = 0;
        assert(p.connections@.take(0).filter(pred) =~= Seq::<Connection>::empty());
        while j < p.connections.len()
            invariant
                j <= p.connections@.len(),
                f == opt_view(*filter),
                pred == (|c: Connection| connection_matches(p.name@, c@, f)),
                out@.len() == base.len() + p.connections@.take(j as int).filter(pred).len(),
                forall|k: int| 0 <= k < base.len() ==> out@[k] == base[k],
                tail_rows(out@, base.len() as int, *p, p.connections@.take(j as int).filter(pred)),
            decreases p.connections@.len() - j,
        {
            let c: &'a Connection = &p.connections[j];
            let keep = connection_passes(&p.name, c, filter);
            let ghost prev_out = out@;
            let ghost prev_fl = p.connections@.take(j as int).filter(pred);
            proof {
                reveal(Seq::filter);
                let t = p.connections@.take(j + 1);
                assert(t.drop_last() =~= p.connections@.take(j as int));
                assert(t.last() == p.connections@[j as int]);
                assert(t.filter(pred) == (if pred(t.last()) {
                    t.drop_last().filter(pred).push(t.last())
                } else {
                    t.drop_last().filter(pred)
                }));
                assert(keep == pred(*c));
            }
            if keep {
                out.push((p, c));
            }
            j = j + 1;
            proof {
                let fl = p.connections@.take(j as int).filter(pred);
                assert forall|k: int| 0 <= k < fl.len() implies *out@[base.len() + k].0 == *p
                    && *out@[base.len() + k].1 == fl[k] by {
                    if k < prev_fl.len() {
                        assert(fl[k] == prev_fl[k]);
                        assert(out@[base.len() + k] == prev_out[base.len() + k]);
                    } else {
                        assert(fl[k] == *c);
                        assert(out@[base.len() + k] == (p, c));
                    }
                }
                assert(tail_rows(out@, base.len() as int, *p, fl));
            }
        }
        proof {
            let t = all.take(i + 1);
            assert(t.drop_last() =~= all.take(i as int));
            assert(t.last() == *p);
            assert(p.connections@.take(p.connections@.len() as int) =~= p.connections@);
            let added = p.connections@.filter(pred).map_values(|c: Connection| (*p, c));
            assert(rows(t, f) == before + added);
            assert(before.len() == base.len());
            assert forall|k: int| 0 <= k < out@.len() implies *out@[k].0 == rows(t, f)[k].0
                && *out@[k].1 == rows(t, f)[k].1 by {
                if k >= base.len() {
                    let q = k - base.len();
                    assert(added[q] == (*p, p.connections@.filter(pred)[q]));
                    assert(rows(t, f)[k] == added[q]);
                    assert(*out@[base.len() + q].0 == *p);
                    assert(tail_rows(out@, base.len() as int, *p, p.connections@.filter(pred)));
                } else {
                    assert(rows(t, f)[k] == before[k]);
                    assert(out@[k] == base[k]);
                }
            }
        }
        i = i + 1;
    }
    assert(all.take(ps@.len() as int) =~= all);
    out
}

} // verus!
