use std::collections::VecDeque;

use vstd::prelude::*;

use crate::dns::{
    answered, drain_dns_results, enriched_process, merged, remote_addrs, string_set, update_dns,
    wanted, DnsCache, DnsResult, PendingSet,
};
use crate::filter::{filter_connections, filter_processes, process_matches, rows};
use crate::model::{opt_view, procs_view, Connection, NetworkSnapshot, Process, ProcessView, SortField};
use crate::rates::{bytes_map, compute_rates, rated, ByteMap, ProcKey};
use crate::sorting::{sort_by_field, sorted_by};

verus! {

/// Number of samples kept in the bandwidth history.
pub const BANDWIDTH_HISTORY_LEN: usize = 60;

/// The view on screen.
#[derive(Debug, Clone, Copy, PartialEq, Eq, Structural)]
pub enum ActiveTab {
    Processes,
    Connections,
    Overview,
}

impl ActiveTab {
    pub open spec fn spec_next(self) -> ActiveTab {
        match self {
            ActiveTab::Processes => ActiveTab::Connections,
            ActiveTab::Connections => ActiveTab::Overview,
            ActiveTab::Overview => ActiveTab::Processes,
        }
    }

    /// The tab after `self`: Processes, Connections, Overview, and round.
    pub fn next(self) -> (r: ActiveTab)
        ensures
            r == self.spec_next(),
    {
        match self {
            ActiveTab::Processes => ActiveTab::Connections,
            ActiveTab::Connections => ActiveTab::Overview,
            ActiveTab::Overview => ActiveTab::Processes,
        }
    }

    /// The tab before `self`.
    pub fn prev(self) -> (r: ActiveTab)
        ensures
            r.spec_next() == self,
    {
        match self {
            ActiveTab::Processes => ActiveTab::Overview,
            ActiveTab::Connections => ActiveTab::Processes,
            ActiveTab::Overview => ActiveTab::Connections,
        }
    }
}

/// State of the dashboard: the current snapshot, how it is sorted,
/// filtered and navigated, and what is kept from cycle to cycle.
pub struct App {
    pub active_tab: ActiveTab,
    pub snapshot: NetworkSnapshot,
    pub process_index: usize,
    pub connection_index: usize,
    pub sort_field: SortField,
    pub filter_text: Option<String>,
    pub filter_input: String,
    pub filtering: bool,
    pub show_help: bool,
    pub paused: bool,
    pub should_quit: bool,
    /// Bytes moved by all processes in each recent cycle, oldest first.
    pub bandwidth_history: VecDeque<u128>,
    /// Byte counters of the previous cycle, for the rates.
    pub prev_bytes: ByteMap,
    /// Host names found so far.
    pub dns_cache: DnsCache,
    /// Addresses whose lookup is under way.
    pub dns_pending: PendingSet,
    pub interval_secs: u64,
}

/// Largest index into a list of `len` items (0 for an empty list).
pub open spec fn last_index_of(len: nat) -> nat {
    if len == 0 {
        0
    } else {
        (len - 1) as nat
    }
}

/// Bandwidth history after one more sample, keeping at most
/// `BANDWIDTH_HISTORY_LEN` samples.
pub open spec fn pushed_sample(h: Seq<u128>, sample: u128) -> Seq<u128> {
    if h.len() >= BANDWIDTH_HISTORY_LEN {
        h.drop_first().push(sample)
    } else {
        h.push(sample)
    }
}

/// Total throughput of a snapshot, saturated to `u128`.
pub open spec fn total_sample(s: NetworkSnapshot) -> u128 {
    if s.total_rate_in + s.total_rate_out > u128::MAX {
        u128::MAX
    } else {
        (s.total_rate_in + s.total_rate_out) as u128
    }
}

/// A process of this cycle as shown: rates against `prev`, names from `cache`.
pub open spec fn cycle_view(
    p: Process,
    prev: Map<ProcKey, (u64, u64)>,
    cache: Map<Seq<char>, Option<String>>,
) -> ProcessView {
    rated(enriched_process(p@, cache), prev)
}

impl App {
    /// The processes that pass the active filter.
    pub open spec fn spec_filtered(&self) -> Seq<Process> {
        self.snapshot.processes@.filter(|p: Process| process_matches(p@, opt_view(self.filter_text)))
    }

    /// Fields that only the user's actions change.
    pub open spec fn same_controls(&self, other: &App) -> bool {
        &&& self.active_tab == other.active_tab
        &&& self.connection_index == other.connection_index
        &&& self.sort_field == other.sort_field
        &&& self.filter_text == other.filter_text
        &&& self.filter_input == other.filter_input
        &&& self.filtering == other.filtering
        &&& self.show_help == other.show_help
        &&& self.paused == other.paused
        &&& self.should_quit == other.should_quit
        &&& self.interval_secs == other.interval_secs
    }

    pub fn new(sort_field: SortField, interval_secs: u64) -> (r: App)
        ensures
            r.active_tab == ActiveTab::Processes,
            r.snapshot.processes@.len() == 0,
            r.snapshot.wf(),
            r.process_index == 0,
            r.connection_index == 0,
            r.sort_field == sort_field,
            r.filter_text is None,
            r.filter_input@.len() == 0,
            !r.filtering,
            !r.show_help,
            !r.paused,
            !r.should_quit,
            r.bandwidth_history@.len() == 0,
            r.dns_cache@.len() == 0,
            r.dns_pending@.len() == 0,
            r.prev_bytes@.len() == 0,
            r.interval_secs == interval_secs,
    {
        App {
            active_tab: ActiveTab::Processes,
            snapshot: NetworkSnapshot::default(),
            process_index: 0,
            connection_index: 0,
            sort_field,
            filter_text: None,
            filter_input: String::new(),
            filtering: false,
            show_help: false,
            paused: false,
            should_quit: false,
            bandwidth_history: VecDeque::with_capacity(BANDWIDTH_HISTORY_LEN),
            prev_bytes: ByteMap::new(),
            dns_cache: DnsCache::new(),
            dns_pending: PendingSet::new(),
            interval_secs,
        }
    }

    /// Sorts `processes` by the active sort field.
    fn sort_processes(&self, processes: &mut Vec<Process>)
        ensures
            final(processes)@.to_multiset() == old(processes)@.to_multiset(),
            procs_view(final(processes)@).to_multiset() == procs_view(old(processes)@).to_multiset(),
            sorted_by(self.sort_field, final(processes)@),
    {
        sort_by_field(self.sort_field, processes);
    }

    /// The processes of the snapshot that pass the active filter, in order.
    pub fn filtered_processes(&self) -> (r: Vec<&Process>)
        ensures
            r@.len() == self.spec_filtered().len(),
            forall|i: int| 0 <= i < r@.len() ==> *r@[i] == self.spec_filtered()[i],
    {
        filter_processes(&self.snapshot.processes, &self.filter_text)
    }

    /// One polling cycle. `dns_results` are the lookups answered since the
    /// last cycle; `report` is this cycle's parsed report, or the error of
    /// fetching it. Returns the addresses whose lookup is to be requested.
    ///
    /// While paused nothing changes. When the fetch failed only the DNS
    /// answers are taken in. Otherwise the rates are computed against the
    /// previous counters, host names are copied from the cache, the list is
    /// sorted and becomes the snapshot, its total joins the bandwidth
    /// history, and the selection is kept within the filtered list.
    pub fn update_data(&mut self, dns_results: Vec<DnsResult>, report: Result<Vec<Process>, String>) -> (r: Vec<String>)
        ensures
            old(self).paused ==> *final(self) == *old(self) && r@.len() == 0,
            !old(self).paused ==> final(self).same_controls(old(self)),
            !old(self).paused ==> final(self).dns_cache@ == merged(old(self).dns_cache@, dns_results@),
            !old(self).paused && report is Err ==> {
                &&& r@.len() == 0
                &&& final(self).dns_pending@ == old(self).dns_pending@.difference(answered(dns_results@))
                &&& final(self).snapshot == old(self).snapshot
                &&& final(self).bandwidth_history == old(self).bandwidth_history
                &&& final(self).prev_bytes == old(self).prev_bytes
                &&& final(self).process_index == old(self).process_index
            },
            !old(self).paused ==> match report {
                Ok(ps) => {
                    let cache = merged(old(self).dns_cache@, dns_results@);
                    let pend = old(self).dns_pending@.difference(answered(dns_results@));
                    let last = last_index_of(final(self).spec_filtered().len());
                    &&& final(self).prev_bytes@ == bytes_map(procs_view(ps@))
                    &&& string_set(r@) == wanted(remote_addrs(procs_view(ps@)), cache, pend)
                    &&& crate::dns::distinct(r@)
                    &&& final(self).dns_pending@ == pend.union(string_set(r@))
                    &&& procs_view(final(self).snapshot.processes@).to_multiset() == ps@.map_values(
                        |p: Process| cycle_view(p, old(self).prev_bytes@, cache),
                    ).to_multiset()
                    &&& sorted_by(final(self).sort_field, final(self).snapshot.processes@)
                    &&& final(self).snapshot.wf()
                    &&& final(self).bandwidth_history@ == pushed_sample(
                        old(self).bandwidth_history@,
                        total_sample(final(self).snapshot),
                    )
                    &&& final(self).process_index == (if old(self).process_index > last {
                        last as int
                    } else {
                        old(self).process_index as int
                    })
                },
                Err(_) => true,
            },
    {
        if self.paused {
            return Vec::new();
        }
        drain_dns_results(dns_results, &mut self.dns_cache, &mut self.dns_pending);
        let mut processes = match report {
            Ok(p) => p,
            Err(_) => {
                return Vec::new();
            },
        };
        let ghost ps = processes@;
        let ghost cache = self.dns_cache@;
        let ghost prev = self.prev_bytes@;
        let new_prev = ByteMap::from_processes(&processes);
        let requests = update_dns(&mut processes, &self.dns_cache, &mut self.dns_pending);
        let ghost enriched = processes@;
        compute_rates(&mut processes, &self.prev_bytes);
        assert(procs_view(processes@) =~= ps.map_values(|p: Process| cycle_view(p, prev, cache))) by {
            assert forall|i: int| 0 <= i < ps.len() implies procs_view(processes@)[i] == ps.map_values(
                |p: Process| cycle_view(p, prev, cache),
            )[i] by {
                assert(processes@[i]@ == rated(enriched[i]@, prev));
                assert(enriched[i]@ == enriched_process(ps[i]@, cache));
            }
        }
        self.prev_bytes = new_prev;
        self.sort_processes(&mut processes);
        self.snapshot = NetworkSnapshot::from_processes(processes);
        let total = self.snapshot.total_rate_in.saturating_add(self.snapshot.total_rate_out);
        if self.bandwidth_history.len() >= BANDWIDTH_HISTORY_LEN {
            self.bandwidth_history.pop_front();
        }
        self.bandwidth_history.push_back(total);
        let shown = self.filtered_processes().len();
        let max = shown.saturating_sub(1);
        if self.process_index > max {
            self.process_index = max;
        }
        requests
    }

    /// Rows of the connection list: each connection of a process that passes
    /// the filter, itself passing the filter as a connection.
    pub fn filtered_connections(&self) -> (r: Vec<(&Process, &Connection)>)
        ensures
            r@.len() == rows(self.spec_filtered(), opt_view(self.filter_text)).len(),
            forall|k: int|
                0 <= k < r@.len() ==> *r@[k].0 == rows(self.spec_filtered(), opt_view(self.filter_text))[k].0
                    && *r@[k].1 == rows(self.spec_filtered(), opt_view(self.filter_text))[k].1,
    {
        let shown = self.filtered_processes();
        assert(shown@.map_values(|p: &Process| *p) =~= self.spec_filtered());
        filter_connections(&shown, &self.filter_text)
    }

    /// Records that the lookup request for `addr` could not be sent (its
    /// queue was full): the address leaves the pending set, so a later
    /// cycle requests it again.
    pub fn forget_request(&mut self, addr: &str)
        ensures
            final(self).dns_pending@ == old(self).dns_pending@.remove(addr@),
            final(self).dns_cache@ == old(self).dns_cache@,
            final(self).snapshot == old(self).snapshot,
    {
        self.dns_pending.remove(addr);
    }

    /// Moves the selection up in the active list.
    pub fn nav_up(&mut self)
        ensures
            final(self).snapshot == old(self).snapshot,
            final(self).active_tab == old(self).active_tab,
            final(self).filter_text == old(self).filter_text,
            old(self).active_tab == ActiveTab::Processes ==> final(self).process_index == (if old(
                self,
            ).process_index > 0 {
                old(self).process_index - 1
            } else {
                0
            }),
            old(self).active_tab != ActiveTab::Processes ==> final(self).process_index == old(
                self,
            ).process_index,
            old(self).active_tab == ActiveTab::Connections ==> final(self).connection_index == (if old(
                self,
            ).connection_index > 0 {
                old(self).connection_index - 1
            } else {
                0
            }),
            old(self).active_tab != ActiveTab::Connections ==> final(self).connection_index == old(
                self,
            ).connection_index,
    {
        match self.active_tab {
            ActiveTab::Processes => {
                self.process_index = self.process_index.saturating_sub(1);
            },
            ActiveTab::Connections => {
                self.connection_index = self.connection_index.saturating_sub(1);
            },
            ActiveTab::Overview => {},
        }
    }

    /// Moves the selection down in the active list; in the process list it
    /// stops at the last process that passes the filter.
    pub fn nav_down(&mut self)
        ensures
            final(self).snapshot == old(self).snapshot,
            final(self).active_tab == old(self).active_tab,
            final(self).filter_text == old(self).filter_text,
            old(self).active_tab == ActiveTab::Processes ==> final(self).process_index == (if old(
                self,
            ).process_index < last_index_of(old(self).spec_filtered().len()) {
                old(self).process_index + 1
            } else {
                old(self).process_index as int
            }),
            old(self).active_tab != ActiveTab::Processes ==> final(self).process_index == old(
                self,
            ).process_index,
            old(self).active_tab == ActiveTab::Connections ==> final(self).connection_index == (if old(
                self,
            ).connection_index < usize::MAX {
                old(self).connection_index + 1
            } else {
                old(self).connection_index as int
            }),
            old(self).active_tab != ActiveTab::Connections ==> final(self).connection_index == old(
                self,
            ).connection_index,
    {
        match self.active_tab {
            ActiveTab::Processes => {
                let max = self.filtered_processes().len().saturating_sub(1);
                if self.process_index < max {
                    self.process_index = self.process_index + 1;
                }
            },
            ActiveTab::Connections => {
                self.connection_index = self.connection_index.saturating_add(1);
            },
            ActiveTab::Overview => {},
        }
    }

    /// Advances the sort field along its ring.
    pub fn cycle_sort(&mut self)
        ensures
            final(self).sort_field == old(self).sort_field.spec_next(),
            final(self).snapshot == old(self).snapshot,
    {
        self.sort_field = self.sort_field.next();
    }

    /// Starts typing a filter, with an empty input.
    pub fn enter_filter(&mut self)
        ensures
            final(self).filtering,
            final(self).filter_input@.len() == 0,
            final(self).filter_text == old(self).filter_text,
    {
        self.filtering = true;
        self.filter_input = String::new();
    }

    /// Makes the typed input the active filter (an empty input clears it)
    /// and stops typing.
    pub fn apply_filter(&mut self)
        ensures
            !final(self).filtering,
            old(self).filter_input@.len() == 0 ==> final(self).filter_text is None,
            old(self).filter_input@.len() > 0 ==> final(self).filter_text == Some(
                old(self).filter_input,
            ),
            final(self).filter_input == old(self).filter_input,
    {
        self.filtering = false;
        if self.filter_input.as_str().is_empty() {
            self.filter_text = None;
        } else {
            self.filter_text = Some(self.filter_input.clone());
        }
    }

    /// Stops typing and clears both the input and the active filter.
    pub fn cancel_filter(&mut self)
        ensures
            !final(self).filtering,
            final(self).filter_text is None,
            final(self).filter_input@.len() == 0,
    {
        self.filtering = false;
        self.filter_text = None;
        self.filter_input = String::new();
    }

    /// From the process list: shows the connections of the selected process
    /// by filtering on its name.
    pub fn drill_down(&mut self)
        ensures
            old(self).active_tab != ActiveTab::Processes ==> *final(self) == *old(self),
            old(self).active_tab == ActiveTab::Processes ==> {
                &&& final(self).active_tab == ActiveTab::Connections
                &&& final(self).connection_index == 0
                &&& old(self).process_index < old(self).spec_filtered().len() ==> {
                    let name = old(self).spec_filtered()[old(self).process_index as int].name;
                    &&& final(self).filter_text == Some(name)
                    &&& final(self).filter_input == name
                }
                &&& old(self).process_index >= old(self).spec_filtered().len() ==> {
                    &&& final(self).filter_text == old(self).filter_text
                    &&& final(self).filter_input == old(self).filter_input
                }
            },
    {
        if self.active_tab == ActiveTab::Processes {
            let name = {
                let shown = self.filtered_processes();
                if self.process_index < shown.len() {
                    Some(shown[self.process_index].name.clone())
                } else {
                    None
                }
            };
            self.active_tab = ActiveTab::Connections;
            match name {
                Some(n) => {
                    self.filter_text = Some(n.clone());
                    self.filter_input = n;
                },
                None => {},
            }
            self.connection_index = 0;
        }
    }
}

/// While paused, any number of cycles leave the snapshot and the bandwidth
/// history as they were: `states` are the states after successive cycles,
/// each related to the one before as `update_data` guarantees for a paused
/// state.
pub proof fn lemma_pause_freezes(states: Seq<App>)
    requires
        states.len() > 0,
        states[0].paused,
        forall|k: int| 0 <= k < states.len() - 1 && states[k].paused ==> #[trigger] states[k + 1] == states[k],
    ensures
        forall|k: int|
            0 <= k < states.len() ==> (#[trigger] states[k]).snapshot == states[0].snapshot
                && states[k].bandwidth_history == states[0].bandwidth_history && states[k].paused,
    decreases states.len(),
{
    if states.len() > 1 {
        let t = states.drop_last();
        assert forall|k: int| 0 <= k < t.len() - 1 && t[k].paused implies #[trigger] t[k + 1] == t[k] by {
            assert(t[k + 1] == states[k + 1] && t[k] == states[k]);
        }
        lemma_pause_freezes(t);
        assert forall|k: int| 0 <= k < states.len() implies (#[trigger] states[k]).snapshot
            == states[0].snapshot && states[k].bandwidth_history == states[0].bandwidth_history
            && states[k].paused by {
            if k < states.len() - 1 {
                assert(t[k] == states[k]);
            } else {
                assert(t[k - 1] == states[k - 1]);
                assert(states[(k - 1) + 1] == states[k - 1]);
            }
        }
    }
}

} // verus!
