use vstd::hash_map::StringHashMap;
use vstd::hash_set::StringHashSet;
use vstd::prelude::*;

use crate::model::{conns_view, opt_view, Connection, ConnectionView, Process, ProcessView, procs_view};

verus! {

/// Resolved host names by address; `None` records a lookup that found no
/// name. Entries are never evicted.
pub type DnsCache = StringHashMap<Option<String>>;

/// Addresses whose lookup was requested and has not been answered yet.
pub type PendingSet = StringHashSet;

/// One answered lookup: an address and the name found for it, if any.
pub type DnsResult = (String, Option<String>);

/// The cache after merging `rs` in order (a later answer for an address wins).
pub open spec fn merged(m: Map<Seq<char>, Option<String>>, rs: Seq<DnsResult>) -> Map<
    Seq<char>,
    Option<String>,
>
    decreases rs.len(),
{
    if rs.len() == 0 {
        m
    } else {
        merged(m, rs.drop_last()).insert(rs.last().0@, rs.last().1)
    }
}

/// The addresses that `rs` answers.
pub open spec fn answered(rs: Seq<DnsResult>) -> Set<Seq<char>>
    decreases rs.len(),
{
    if rs.len() == 0 {
        Set::empty()
    } else {
        answered(rs.drop_last()).insert(rs.last().0@)
    }
}

pub proof fn lemma_merged_has_answers(m: Map<Seq<char>, Option<String>>, rs: Seq<DnsResult>)
    ensures
        forall|a: Seq<char>| #[trigger] answered(rs).contains(a) ==> merged(m, rs).contains_key(a),
    decreases rs.len(),
{
    if rs.len() > 0 {
        lemma_merged_has_answers(m, rs.drop_last());
        assert forall|a: Seq<char>| #[trigger] answered(rs).contains(a) implies merged(
            m,
            rs,
        ).contains_key(a) by {
            if a != rs.last().0@ {
                assert(answered(rs.drop_last()).contains(a));
            }
        }
    }
}

/// Merges answered lookups into the cache and takes their addresses out of
/// the pending set.
pub fn drain_dns_results(results: Vec<DnsResult>, cache: &mut DnsCache, pending: &mut PendingSet)
    ensures
        final(cache)@ == merged(old(cache)@, results@),
        final(pending)@ == old(pending)@.difference(answered(results@)),
        forall|i: int|
            0 <= i < results@.len() ==> !final(pending)@.contains((#[trigger] results@[i]).0@)
                && final(cache)@.contains_key(results@[i].0@),
{
    let ghost start_cache = cache@;
    let ghost start_pending = pending@;
    let mut i: usize = 0;
    while i < results.len()
        invariant
            i <= results@.len(),
            cache@ == merged(start_cache, results@.take(i as int)),
            pending@ == start_pending.difference(answered(results@.take(i as int))),
        decreases results@.len() - i,
    {
        let addr = results[i].0.clone();
        let host = results[i].1.clone();
        pending.remove(addr.as_str());
        cache.insert(addr, host);
        proof {
            let t = results@.take(i + 1);
            assert(t.drop_last() =~= results@.take(i as int));
            assert(t.last() == results@[i as int]);
            assert(pending@ =~= start_pending.difference(answered(t)));
        }
        i = i + 1;
    }
    proof {
        assert(results@.take(results@.len() as int) =~= results@);
        lemma_answered_contains(results@);
        lemma_merged_has_answers(start_cache, results@);
    }
}

pub proof fn lemma_answered_contains(rs: Seq<DnsResult>)
    ensures
        forall|i: int| 0 <= i < rs.len() ==> answered(rs).contains((#[trigger] rs[i]).0@),
    decreases rs.len(),
{
    if rs.len() > 0 {
        lemma_answered_contains(rs.drop_last());
        assert forall|i: int| 0 <= i < rs.len() implies answered(rs).contains((#[trigger] rs[i]).0@) by {
            if i < rs.len() - 1 {
                assert(rs.drop_last()[i] == rs[i]);
            }
        }
    }
}

/// `c` with the cached name of its remote address, where one is cached.
pub open spec fn enriched(c: ConnectionView, m: Map<Seq<char>, Option<String>>) -> ConnectionView {
    if c.remote_addr.len() > 0 && m.contains_key(c.remote_addr) {
        ConnectionView { hostname: opt_view(m[c.remote_addr]), ..c }
    } else {
        c
    }
}

/// `p` with each connection enriched from `m`.
pub open spec fn enriched_process(p: ProcessView, m: Map<Seq<char>, Option<String>>) -> ProcessView {
    ProcessView { connections: p.connections.map_values(|c: ConnectionView| enriched(c, m)), ..p }
}

/// Remote addresses of a list of connections.
pub open spec fn conn_addrs(cs: Seq<ConnectionView>) -> Set<Seq<char>>
    decreases cs.len(),
{
    if cs.len() == 0 {
        Set::empty()
    } else {
        conn_addrs(cs.drop_last()).insert(cs.last().remote_addr)
    }
}

/// Remote addresses of all connections of a process list.
pub open spec fn remote_addrs(ps: Seq<ProcessView>) -> Set<Seq<char>>
    decreases ps.len(),
{
    if ps.len() == 0 {
        Set::empty()
    } else {
        remote_addrs(ps.drop_last()).union(conn_addrs(ps.last().connections))
    }
}

/// The addresses of `seen` that need a lookup: not empty, not cached, not
/// already pending.
pub open spec fn wanted(
    seen: Set<Seq<char>>,
    m: Map<Seq<char>, Option<String>>,
    pend: Set<Seq<char>>,
) -> Set<Seq<char>> {
    seen.filter(|a: Seq<char>| a.len() > 0 && !m.contains_key(a) && !pend.contains(a))
}

/// The views of a list of strings, as a set.
pub open spec fn string_set(s: Seq<String>) -> Set<Seq<char>>
    decreases s.len(),
{
    if s.len() == 0 {
        Set::empty()
    } else {
        string_set(s.drop_last()).insert(s.last()@)
    }
}

/// No two strings of `s` are equal.
pub open spec fn distinct(s: Seq<String>) -> bool {
    forall|i: int, j: int| 0 <= i < j < s.len() ==> (#[trigger] s[i])@ != (#[trigger] s[j])@
}

pub open spec fn requests_ok(
    reqs: Seq<String>,
    pend: Set<Seq<char>>,
    seen: Set<Seq<char>>,
    m: Map<Seq<char>, Option<String>>,
    start_pending: Set<Seq<char>>,
) -> bool {
    &&& pend == start_pending.union(string_set(reqs))
    &&& string_set(reqs) == wanted(seen, m, start_pending)
    &&& distinct(reqs)
}

pub proof fn lemma_string_set_contains(s: Seq<String>)
    ensures
        forall|i: int| 0 <= i < s.len() ==> string_set(s).contains((#[trigger] s[i])@),
    decreases s.len(),
{
    if s.len() > 0 {
        lemma_string_set_contains(s.drop_last());
        assert forall|i: int| 0 <= i < s.len() implies string_set(s).contains((#[trigger] s[i])@) by {
            if i < s.len() - 1 {
                assert(s.drop_last()[i] == s[i]);
            }
        }
    }
}

fn empty_connection() -> Connection {
    Connection {
        local_addr: String::new(),
        local_port: 0,
        remote_addr: String::new(),
        remote_port: 0,
        protocol: crate::model::Protocol::Tcp,
        state: String::new(),
        interface: String::new(),
        bytes_in: 0,
        bytes_out: 0,
        hostname: None,
    }
}

fn copy_name(h: &Option<String>) -> (r: Option<String>)
    ensures
        opt_view(r) == opt_view(*h),
{
    match h {
        Some(s) => Some(s.clone()),
        None => None,
    }
}

/// Looks at the remote address of one connection: copies its cached name,
/// or records a request for it.
fn visit_connection(
    c: &mut Connection,
    cache: &DnsCache,
    pending: &mut PendingSet,
    reqs: &mut Vec<String>,
    Ghost(seen): Ghost<Set<Seq<char>>>,
    Ghost(start_pending): Ghost<Set<Seq<char>>>,
)
    requires
        requests_ok(old(reqs)@, old(pending)@, seen, cache@, start_pending),
    ensures
        final(c)@ == enriched(old(c)@, cache@),
        requests_ok(final(reqs)@, final(pending)@, seen.insert(old(c)@.remote_addr), cache@, start_pending),
{
    let ghost a = c.remote_addr@;
    let ghost seen2 = seen.insert(a);
    proof {
        lemma_string_set_contains(reqs@);
    }
    if c.remote_addr.as_str().is_empty() {
        assert(wanted(seen2, cache@, start_pending) =~= wanted(seen, cache@, start_pending));
        return ;
    }
    match cache.get(c.remote_addr.as_str()) {
        Some(h) => {
            c.hostname = copy_name(h);
            assert(wanted(seen2, cache@, start_pending) =~= wanted(seen, cache@, start_pending));
        },
        None => {
            if pending.contains(c.remote_addr.as_str()) {
                assert(wanted(seen2, cache@, start_pending) =~= wanted(seen, cache@, start_pending));
            } else {
                let addr = c.remote_addr.clone();
                pending.insert(addr.clone());
                let ghost before = reqs@;
                reqs.push(addr);
                proof {
                    assert(reqs@.drop_last() =~= before);
                    assert(wanted(seen2, cache@, start_pending) =~= wanted(seen, cache@, start_pending).insert(a));
                    assert(pending@ =~= start_pending.union(string_set(reqs@)));
                    assert forall|i: int, j: int| 0 <= i < j < reqs@.len() implies (
                    #[trigger] reqs@[i])@ != (#[trigger] reqs@[j])@ by {
                        if j == reqs@.len() - 1 {
                            assert(reqs@[i] == before[i]);
                            assert(string_set(before).contains(before[i]@));
                        } else {
                            assert(reqs@[i] == before[i] && reqs@[j] == before[j]);
                        }
                    }
                }
            }
        },
    }
}

/// `visit_connection` on each connection of a list, in order.
fn visit_connections(
    conns: &mut Vec<Connection>,
    cache: &DnsCache,
    pending: &mut PendingSet,
    reqs: &mut Vec<String>,
    Ghost(seen): Ghost<Set<Seq<char>>>,
    Ghost(start_pending): Ghost<Set<Seq<char>>>,
)
    requires
        requests_ok(old(reqs)@, old(pending)@, seen, cache@, start_pending),
    ensures
        conns_view(final(conns)@) == conns_view(old(conns)@).map_values(
            |c: ConnectionView| enriched(c, cache@),
        ),
        requests_ok(
            final(reqs)@,
            final(pending)@,
            seen.union(conn_addrs(conns_view(old(conns)@))),
            cache@,
            start_pending,
        ),
{
    let ghost orig = conns@;
    let ghost ov = conns_view(orig);
    let mut j: usize = 0;
    assert(ov.take(0) =~= Seq::<ConnectionView>::empty());
    assert(seen.union(conn_addrs(ov.take(0))) =~= seen);
    while j < conns.len()
        invariant
            conns@.len() == orig.len(),
            ov == conns_view(orig),
            j <= orig.len(),
            forall|k: int| 0 <= k < j ==> (#[trigger] conns@[k])@ == enriched(orig[k]@, cache@),
            forall|k: int| j <= k < orig.len() ==> #[trigger] conns@[k] == orig[k],
            requests_ok(reqs@, pending@, seen.union(conn_addrs(ov.take(j as int))), cache@, start_pending),
        decreases orig.len() - j,
    {
        let mut c = empty_connection();
        conns.set_and_swap(j, &mut c);
        visit_connection(
            &mut c,
            cache,
            pending,
            reqs,
            Ghost(seen.union(conn_addrs(ov.take(j as int)))),
            Ghost(start_pending),
        );
        conns.set(j, c);
        proof {
            assert(ov.take(j + 1).drop_last() =~= ov.take(j as int));
            assert(ov[j as int] == orig[j as int]@);
            assert(seen.union(conn_addrs(ov.take(j as int))).insert(orig[j as int]@.remote_addr)
                =~= seen.union(conn_addrs(ov.take(j + 1))));
        }
        j = j + 1;
    }
    assert(ov.take(orig.len() as int) =~= ov);
    assert(conns_view(conns@) =~= ov.map_values(|c: ConnectionView| enriched(c, cache@)));
}

/// Copies cached host names onto the connections of `processes` and
/// returns the addresses whose lookup is to be requested now: each remote
/// address that is not empty, not cached and not already pending, once.
/// Those addresses join the pending set.
pub fn update_dns(processes: &mut Vec<Process>, cache: &DnsCache, pending: &mut PendingSet) -> (r:
    Vec<String>)
    ensures
        final(processes)@.len() == old(processes)@.len(),
        forall|i: int|
            0 <= i < old(processes)@.len() ==> (#[trigger] final(processes)@[i])@
                == enriched_process(old(processes)@[i]@, cache@),
        string_set(r@) == wanted(remote_addrs(procs_view(old(processes)@)), cache@, old(pending)@),
        distinct(r@),
        final(pending)@ == old(pending)@.union(string_set(r@)),
        forall|i: int| 0 <= i < r@.len() ==> !old(pending)@.contains((#[trigger] r@[i])@),
{
    let ghost orig = processes@;
    let ghost ov = procs_view(orig);
    let ghost start_pending = pending@;
    let mut reqs: Vec<String> = Vec::new();
    assert(ov.take(0) =~= Seq::<ProcessView>::empty());
    assert(start_pending.union(string_set(reqs@)) =~= start_pending);
    assert(wanted(remote_addrs(ov.take(0)), cache@, start_pending) =~= Set::empty());
    let mut i: usize = 0;
    while i < processes.len()
        invariant
            processes@.len() == orig.len(),
            ov == procs_view(orig),
            i <= orig.len(),
            forall|k: int|
                0 <= k < i ==> (#[trigger] processes@[k])@ == enriched_process(orig[k]@, cache@),
            forall|k: int| i <= k < orig.len() ==> #[trigger] processes@[k] == orig[k],
            requests_ok(reqs@, pending@, remote_addrs(ov.take(i as int)), cache@, start_pending),
        decreases orig.len() - i,
    {
        let mut p = crate::model::blank_process();
        processes.set_and_swap(i, &mut p);
        let ghost before = p;
        visit_connections(
            &mut p.connections,
            cache,
            pending,
            &mut reqs,
            Ghost(remote_addrs(ov.take(i as int))),
            Ghost(start_pending),
        );
        processes.set(i, p);
        proof {
            assert(ov.take(i + 1).drop_last() =~= ov.take(i as int));
            assert(ov[i as int] == orig[i as int]@);
            assert(p@ =~= enriched_process(before@, cache@));
        }
        i = i + 1;
    }
    proof {
        assert(ov.take(orig.len() as int) =~= ov);
        lemma_string_set_contains(reqs@);
    }
    reqs
}

/// No lookup is requested for an address that is pending; and an address
/// whose answer has been drained is no longer pending and is in the cache.
pub proof fn lemma_pending_requested_once(
    ps: Seq<ProcessView>,
    m: Map<Seq<char>, Option<String>>,
    pend: Set<Seq<char>>,
    rs: Seq<DnsResult>,
)
    ensures
        forall|a: Seq<char>|
            #[trigger] pend.contains(a) ==> !wanted(remote_addrs(ps), m, pend).contains(a),
        forall|a: Seq<char>|
            #[trigger] answered(rs).contains(a) ==> !pend.difference(answered(rs)).contains(a)
                && merged(m, rs).contains_key(a),
{
    lemma_merged_has_answers(m, rs);
}

} // verus!
