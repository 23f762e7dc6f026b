use vstd::prelude::*;

verus! {

/// Transport protocol of a connection.
#[derive(Debug, Clone)]
pub enum Protocol {
    Tcp,
    Udp,
    /// A tag that names neither TCP nor UDP, kept as it was written.
    Other(String),
}

pub ghost enum ProtocolView {
    Tcp,
    Udp,
    Other(Seq<char>),
}

impl View for Protocol {
    type V = ProtocolView;

    open spec fn view(&self) -> ProtocolView {
        match self {
            Protocol::Tcp => ProtocolView::Tcp,
            Protocol::Udp => ProtocolView::Udp,
            Protocol::Other(s) => ProtocolView::Other(s@),
        }
    }
}

/// Label of a protocol as shown and matched: `TCP`, `UDP`, or the tag.
pub open spec fn protocol_label(p: ProtocolView) -> Seq<char> {
    match p {
        ProtocolView::Tcp => seq!['T', 'C', 'P'],
        ProtocolView::Udp => seq!['U', 'D', 'P'],
        ProtocolView::Other(s) => s,
    }
}

impl Protocol {
    /// The protocol's label.
    pub fn label(&self) -> (r: String)
        ensures
            r@ == protocol_label(self@),
    {
        match self {
            Protocol::Tcp => {
                let cs: Vec<char> = vec!['T', 'C', 'P'];
                assert(cs@.subrange(0, 3) =~= seq!['T', 'C', 'P']);
                crate::text::string_of(&cs, 0, 3)
            },
            Protocol::Udp => {
                let cs: Vec<char> = vec!['U', 'D', 'P'];
                assert(cs@.subrange(0, 3) =~= seq!['U', 'D', 'P']);
                crate::text::string_of(&cs, 0, 3)
            },
            Protocol::Other(s) => s.clone(),
        }
    }
}

/// One connection of a process, as reported in one cycle.
#[derive(Debug, Clone)]
pub struct Connection {
    pub local_addr: String,
    pub local_port: u16,
    pub remote_addr: String,
    pub remote_port: u16,
    pub protocol: Protocol,
    pub state: String,
    pub interface: String,
    pub bytes_in: u64,
    pub bytes_out: u64,
    pub hostname: Option<String>,
}

pub ghost struct ConnectionView {
    pub local_addr: Seq<char>,
    pub local_port: u16,
    pub remote_addr: Seq<char>,
    pub remote_port: u16,
    pub protocol: ProtocolView,
    pub state: Seq<char>,
    pub interface: Seq<char>,
    pub bytes_in: u64,
    pub bytes_out: u64,
    pub hostname: Option<Seq<char>>,
}

pub open spec fn opt_view(o: Option<String>) -> Option<Seq<char>> {
    match o {
        Some(s) => Some(s@),
        None => None,
    }
}

impl View for Connection {
    type V = ConnectionView;

    open spec fn view(&self) -> ConnectionView {
        ConnectionView {
            local_addr: self.local_addr@,
            local_port: self.local_port,
            remote_addr: self.remote_addr@,
            remote_port: self.remote_port,
            protocol: self.protocol@,
            state: self.state@,
            interface: self.interface@,
            bytes_in: self.bytes_in,
            bytes_out: self.bytes_out,
            hostname: opt_view(self.hostname),
        }
    }
}

/// One process with its connections, as reported in one cycle.
///
/// `rate_in` and `rate_out` are the bytes moved since the previous cycle
/// (zero where there was none for the same name and pid); divided by the
/// polling interval they give bytes per second.
#[derive(Debug, Clone)]
pub struct Process {
    pub name: String,
    pub pid: u32,
    pub path: Option<String>,
    pub connections: Vec<Connection>,
    pub bytes_in: u64,
    pub bytes_out: u64,
    pub rate_in: u64,
    pub rate_out: u64,
}

pub ghost struct ProcessView {
    pub name: Seq<char>,
    pub pid: u32,
    pub path: Option<Seq<char>>,
    pub connections: Seq<ConnectionView>,
    pub bytes_in: u64,
    pub bytes_out: u64,
    pub rate_in: u64,
    pub rate_out: u64,
}

pub open spec fn conns_view(cs: Seq<Connection>) -> Seq<ConnectionView> {
    cs.map_values(|c: Connection| c@)
}

impl View for Process {
    type V = ProcessView;

    open spec fn view(&self) -> ProcessView {
        ProcessView {
            name: self.name@,
            pid: self.pid,
            path: opt_view(self.path),
            connections: conns_view(self.connections@),
            bytes_in: self.bytes_in,
            bytes_out: self.bytes_out,
            rate_in: self.rate_in,
            rate_out: self.rate_out,
        }
    }
}

pub open spec fn procs_view(ps: Seq<Process>) -> Seq<ProcessView> {
    ps.map_values(|p: Process| p@)
}

/// A process with empty fields, left in a slot of a list while the value
/// taken from it is edited.
pub(crate) fn blank_process() -> Process {
    Process {
        name: String::new(),
        pid: 0,
        path: None,
        connections: Vec::new(),
        bytes_in: 0,
        bytes_out: 0,
        rate_in: 0,
        rate_out: 0,
    }
}

impl Process {
    pub fn connection_count(&self) -> (r: usize)
        ensures
            r == self@.connections.len(),
    {
        self.connections.len()
    }
}

/// Ordering applied to the process list.
#[derive(Debug, Clone, Copy, PartialEq, Eq, Structural)]
pub enum SortField {
    Name,
    Pid,
    Connections,
    BytesIn,
    BytesOut,
    RateIn,
    RateOut,
}

impl SortField {
    /// The field that follows `self` in the ring of sort fields.
    pub open spec fn spec_next(self) -> SortField {
        match self {
            SortField::Name => SortField::Pid,
            SortField::Pid => SortField::Connections,
            SortField::Connections => SortField::BytesIn,
            SortField::BytesIn => SortField::BytesOut,
            SortField::BytesOut => SortField::RateIn,
            SortField::RateIn => SortField::RateOut,
            SortField::RateOut => SortField::Name,
        }
    }

    pub fn next(self) -> (r: SortField)
        ensures
            r == self.spec_next(),
    {
        match self {
            SortField::Name => SortField::Pid,
            SortField::Pid => SortField::Connections,
            SortField::Connections => SortField::BytesIn,
            SortField::BytesIn => SortField::BytesOut,
            SortField::BytesOut => SortField::RateIn,
            SortField::RateIn => SortField::RateOut,
            SortField::RateOut => SortField::Name,
        }
    }

    /// Short column label of the field.
    pub open spec fn spec_label(self) -> Seq<char> {
        match self {
            SortField::Name => seq!['N', 'a', 'm', 'e'],
            SortField::Pid => seq!['P', 'I', 'D'],
            SortField::Connections => seq!['C', 'o', 'n', 'n'],
            SortField::BytesIn => seq!['D', 'o', 'w', 'n'],
            SortField::BytesOut => seq!['U', 'p'],
            SortField::RateIn => seq!['R', 'a', 't', 'e', ' ', 'I', 'n'],
            SortField::RateOut => seq!['R', 'a', 't', 'e', ' ', 'O', 'u', 't'],
        }
    }

    pub fn label(self) -> (r: &'static str)
        ensures
            r@ == self.spec_label(),
    {
        proof {
            reveal_strlit("Name");
            reveal_strlit("PID");
            reveal_strlit("Conn");
            reveal_strlit("Down");
            reveal_strlit("Up");
            reveal_strlit("Rate In");
            reveal_strlit("Rate Out");
        }
        match self {
            SortField::Name => "Name",
            SortField::Pid => "PID",
            SortField::Connections => "Conn",
            SortField::BytesIn => "Down",
            SortField::BytesOut => "Up",
            SortField::RateIn => "Rate In",
            SortField::RateOut => "Rate Out",
        }
    }
}

/// Sum of `f` over a list of processes.
pub open spec fn sum_by(ps: Seq<Process>, f: spec_fn(Process) -> nat) -> nat
    decreases ps.len(),
{
    if ps.len() == 0 {
        0
    } else {
        sum_by(ps.drop_last(), f) + f(ps.last())
    }
}

pub open spec fn bytes_in_of(p: Process) -> nat {
    p.bytes_in as nat
}

pub open spec fn bytes_out_of(p: Process) -> nat {
    p.bytes_out as nat
}

pub open spec fn rate_in_of(p: Process) -> nat {
    p.rate_in as nat
}

pub open spec fn rate_out_of(p: Process) -> nat {
    p.rate_out as nat
}

pub open spec fn conns_of(p: Process) -> nat {
    p.connections@.len()
}

/// The processes of one cycle with their totals. The totals are computed
/// once, from the list, when the snapshot is built.
#[derive(Debug)]
pub struct NetworkSnapshot {
    pub processes: Vec<Process>,
    pub total_bytes_in: u128,
    pub total_bytes_out: u128,
    /// Bytes received by all processes since the previous cycle.
    pub total_rate_in: u128,
    /// Bytes sent by all processes since the previous cycle.
    pub total_rate_out: u128,
    pub total_connections: u128,
}

impl NetworkSnapshot {
    /// The totals agree with the process list.
    pub open spec fn wf(&self) -> bool {
        &&& self.total_bytes_in == sum_by(self.processes@, |p: Process| bytes_in_of(p))
        &&& self.total_bytes_out == sum_by(self.processes@, |p: Process| bytes_out_of(p))
        &&& self.total_rate_in == sum_by(self.processes@, |p: Process| rate_in_of(p))
        &&& self.total_rate_out == sum_by(self.processes@, |p: Process| rate_out_of(p))
        &&& self.total_connections == sum_by(self.processes@, |p: Process| conns_of(p))
    }

    /// Builds a snapshot of `processes`, computing its totals.
    pub fn from_processes(processes: Vec<Process>) -> (r: NetworkSnapshot)
        ensures
            r.processes@ == processes@,
            r.wf(),
    {
        let ghost ps = processes@;
        let mut bi: u128 = 0;
        let mut bo: u128 = 0;
        let mut ri: u128 = 0;
        let mut ro: u128 = 0;
        let mut nc: u128 = 0;
        let mut i: usize = 0;
        while i < processes.len()
            invariant
                ps == processes@,
                i <= ps.len(),
                bi == sum_by(ps.take(i as int), |p: Process| bytes_in_of(p)),
                bo == sum_by(ps.take(i as int), |p: Process| bytes_out_of(p)),
                ri == sum_by(ps.take(i as int), |p: Process| rate_in_of(p)),
                ro == sum_by(ps.take(i as int), |p: Process| rate_out_of(p)),
                nc == sum_by(ps.take(i as int), |p: Process| conns_of(p)),
                bi <= i * 0xffff_ffff_ffff_ffff,
                bo <= i * 0xffff_ffff_ffff_ffff,
                ri <= i * 0xffff_ffff_ffff_ffff,
                ro <= i * 0xffff_ffff_ffff_ffff,
                nc <= i * 0xffff_ffff_ffff_ffff,
            decreases ps.len() - i,
        {
            let p = &processes[i];
            assert(ps.take(i + 1).drop_last() =~= ps.take(i as int));
            assert(ps.take(i + 1).last() == ps[i as int]);
            assert((i + 1) * 0xffff_ffff_ffff_ffffu128 == i * 0xffff_ffff_ffff_ffffu128
                + 0xffff_ffff_ffff_ffffu128) by (nonlinear_arith);
            assert(i * 0xffff_ffff_ffff_ffffu128 <= 0xffff_ffff_ffff_ffff * 0xffff_ffff_ffff_ffffu128) by (nonlinear_arith)
                requires i <= 0xffff_ffff_ffff_ffffu64;
            bi = bi + p.bytes_in as u128;
            bo = bo + p.bytes_out as u128;
            ri = ri + p.rate_in as u128;
            ro = ro + p.rate_out as u128;
            nc = nc + p.connections.len() as u128;
            i = i + 1;
        }
        assert(ps.take(ps.len() as int) =~= ps);
        NetworkSnapshot {
            processes,
            total_bytes_in: bi,
            total_bytes_out: bo,
            total_rate_in: ri,
            total_rate_out: ro,
            total_connections: nc,
        }
    }
}

impl Default for NetworkSnapshot {
    fn default() -> (r: NetworkSnapshot)
        ensures
            r.processes@.len() == 0,
            r.wf(),
    {
        NetworkSnapshot::from_processes(Vec::new())
    }
}

} // verus!
