use vstd::prelude::*;

use crate::model::{procs_view, Process, ProcessView};

verus! {

/// Byte counters of one process in one cycle.
#[derive(Debug, Clone)]
pub struct ByteEntry {
    pub name: String,
    pub pid: u32,
    pub bytes_in: u64,
    pub bytes_out: u64,
}

/// Identity of a process across cycles.
pub type ProcKey = (Seq<char>, u32);

/// Map of a list of entries; a later entry for the same key wins.
pub open spec fn entries_map(es: Seq<ByteEntry>) -> Map<ProcKey, (u64, u64)>
    decreases es.len(),
{
    if es.len() == 0 {
        Map::empty()
    } else {
        let e = es.last();
        entries_map(es.drop_last()).insert((e.name@, e.pid), (e.bytes_in, e.bytes_out))
    }
}

/// Map of the byte counters of a process list, keyed by name and pid; a
/// later process with the same key wins.
pub open spec fn bytes_map(ps: Seq<ProcessView>) -> Map<ProcKey, (u64, u64)>
    decreases ps.len(),
{
    if ps.len() == 0 {
        Map::empty()
    } else {
        let p = ps.last();
        bytes_map(ps.drop_last()).insert((p.name, p.pid), (p.bytes_in, p.bytes_out))
    }
}

/// The byte counters of the previous cycle, keyed by (name, pid).
#[derive(Debug, Clone)]
pub struct ByteMap {
    entries: Vec<ByteEntry>,
}

impl View for ByteMap {
    type V = Map<ProcKey, (u64, u64)>;

    closed spec fn view(&self) -> Map<ProcKey, (u64, u64)> {
        entries_map(self.entries@)
    }
}

impl ByteMap {
    pub fn new() -> (r: ByteMap)
        ensures
            r@ == Map::<ProcKey, (u64, u64)>::empty(),
    {
        ByteMap { entries: Vec::new() }
    }

    /// Counters of each process of `ps`.
    pub fn from_processes(ps: &Vec<Process>) -> (r: ByteMap)
        ensures
            r@ == bytes_map(procs_view(ps@)),
    {
        let mut entries: Vec<ByteEntry> = Vec::new();
        let mut i: usize = 0;
        while i < ps.len()
            invariant
                i <= ps@.len(),
                entries_map(entries@) == bytes_map(procs_view(ps@.subrange(0, i as int))),
            decreases ps@.len() - i,
        {
            let p = &ps[i];
            let e = ByteEntry {
                name: p.name.clone(),
                pid: p.pid,
                bytes_in: p.bytes_in,
                bytes_out: p.bytes_out,
            };
            let ghost before = entries@;
            entries.push(e);
            proof {
                let pre = procs_view(ps@.subrange(0, i as int));
                let post = procs_view(ps@.subrange(0, i + 1));
                assert(post.drop_last() =~= pre);
                assert(entries@.drop_last() =~= before);
            }
            i = i + 1;
        }
        assert(ps@.subrange(0, ps@.len() as int) =~= ps@);
        ByteMap { entries }
    }

    /// Counters recorded for `name` and `pid`.
    pub fn get(&self, name: &String, pid: u32) -> (r: Option<(u64, u64)>)
        ensures
            self@.contains_key((name@, pid)) ==> r == Some(self@[(name@, pid)]),
            !self@.contains_key((name@, pid)) ==> r is None,
    {
        let ghost k = (name@, pid);
        let mut b = self.entries.len();
        assert(self.entries@.subrange(0, b as int) =~= self.entries@);
        while b > 0
            invariant
                b <= self.entries@.len(),
                k == (name@, pid),
                entries_map(self.entries@).contains_key(k) == entries_map(
                    self.entries@.subrange(0, b as int),
                ).contains_key(k),
                entries_map(self.entries@).contains_key(k) ==> entries_map(self.entries@)[k]
                    == entries_map(self.entries@.subrange(0, b as int))[k],
            decreases b,
        {
            let e = &self.entries[b - 1];
            assert(self.entries@.subrange(0, b as int).drop_last() =~= self.entries@.subrange(
                0,
                b - 1,
            ));
            assert(self.entries@.subrange(0, b as int).last() == *e);
            if e.pid == pid && e.name.eq(name) {
                assert(k == (e.name@, e.pid));
                return Some((e.bytes_in, e.bytes_out));
            }
            b = b - 1;
        }
        None
    }
}

/// Bytes moved between two readings of a counter; zero where the counter
/// went back (a restarted process).
pub open spec fn delta(cur: u64, prev: u64) -> u64 {
    if cur >= prev {
        (cur - prev) as u64
    } else {
        0
    }
}

/// `p` with its rates against the previous cycle's counters.
pub open spec fn rated(p: ProcessView, prev: Map<ProcKey, (u64, u64)>) -> ProcessView {
    let k = (p.name, p.pid);
    if prev.contains_key(k) {
        ProcessView { rate_in: delta(p.bytes_in, prev[k].0), rate_out: delta(p.bytes_out, prev[k].1), ..p }
    } else {
        p
    }
}

/// Sets the rates of each process of `current` from the counters that the
/// previous cycle recorded for the same name and pid; a process without such
/// a record keeps its rates.
pub fn compute_rates(current: &mut Vec<Process>, previous: &ByteMap)
    ensures
        final(current)@.len() == old(current)@.len(),
        forall|i: int|
            0 <= i < old(current)@.len() ==> (#[trigger] final(current)@[i])@ == rated(
                old(current)@[i]@,
                previous@,
            ),
{
    let ghost orig = current@;
    let mut i: usize = 0;
    while i < current.len()
        invariant
            current@.len() == orig.len(),
            i <= orig.len(),
            forall|j: int| 0 <= j < i ==> (#[trigger] current@[j])@ == rated(orig[j]@, previous@),
            forall|j: int| i <= j < orig.len() ==> #[trigger] current@[j] == orig[j],
        decreases orig.len() - i,
    {
        match previous.get(&current[i].name, current[i].pid) {
            Some((prev_in, prev_out)) => {
                let mut p = crate::model::blank_process();
                current.set_and_swap(i, &mut p);
                p.rate_in = p.bytes_in.saturating_sub(prev_in);
                p.rate_out = p.bytes_out.saturating_sub(prev_out);
                current.set(i, p);
            },
            None => {},
        }
        i = i + 1;
    }
}

/// A counter that went back since the previous cycle (a restarted process)
/// gives a rate of exactly zero, never a negative or wrapped one.
pub proof fn lemma_reset_counter_rate_zero(p: ProcessView, prev: Map<ProcKey, (u64, u64)>)
    requires
        prev.contains_key((p.name, p.pid)),
    ensures
        p.bytes_in < prev[(p.name, p.pid)].0 ==> rated(p, prev).rate_in == 0,
        p.bytes_out < prev[(p.name, p.pid)].1 ==> rated(p, prev).rate_out == 0,
{
}

/// Where a counter did not go back, the bytes moved over the interval are
/// exactly the difference of the two readings (bytes per second being that
/// over the interval).
pub proof fn lemma_rate_is_difference(p: ProcessView, prev: Map<ProcKey, (u64, u64)>)
    requires
        prev.contains_key((p.name, p.pid)),
    ensures
        p.bytes_in >= prev[(p.name, p.pid)].0 ==> rated(p, prev).rate_in == p.bytes_in
            - prev[(p.name, p.pid)].0,
        p.bytes_out >= prev[(p.name, p.pid)].1 ==> rated(p, prev).rate_out == p.bytes_out
            - prev[(p.name, p.pid)].1,
{
}

} // verus!
