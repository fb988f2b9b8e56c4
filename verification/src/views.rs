//! Read-only metrics views: pure scans over live plus historical connections,
//! filtered by the filter predicate, with running maxima read from the
//! registry's counters (never recomputed from history).

use vstd::prelude::*;
use crate::conn::{hostname_view, Connection};
use crate::filters::{spec_matches, ConnectionFilter};
use crate::metrics::{
    count_where, find_host, find_mem, find_ph, find_pid, host_max, lemma_count_app,
    lemma_count_le_len, lemma_count_push, ph_max, pid_max, string_eq, MemorySeries,
};
use crate::monitor::{contains_u32, copy_conns, ConnectionMonitor};
use crate::process::{find_proc, Process};
use crate::text::contains_seq;
use vstd::string::StringExecFns;

verus! {

/// The resolved display name of a pid's process, if any.
pub open spec fn resolved_name(procs: Seq<Process>, pid: u32) -> Option<Seq<char>> {
    match find_proc(procs, pid) {
        Some(p) => match p.name {
            Some(n) => Some(n@),
            None => None,
        },
        None => None,
    }
}

/// Whether the filter accepts a connection, given the registry's process
/// records for name resolution.
pub open spec fn conn_matches(f: ConnectionFilter, c: Connection, procs: Seq<Process>) -> bool {
    spec_matches(f, c, resolved_name(procs, c.pid))
}

/// The host a connection displays under: its hostname, else its address text.
pub open spec fn host_or_addr(c: Connection) -> Seq<char> {
    match hostname_view(c) {
        Some(h) => h,
        None => c.remote_addr@,
    }
}

/// The connections of `s` accepted by the filter, in order.
pub open spec fn filtered_conns(
    s: Seq<Connection>,
    f: ConnectionFilter,
    procs: Seq<Process>,
) -> Seq<Connection>
    decreases s.len(),
{
    if s.len() == 0 {
        Seq::empty()
    } else {
        filtered_conns(s.drop_last(), f, procs) + (if conn_matches(f, s.last(), procs) {
            seq![s.last()]
        } else {
            Seq::empty()
        })
    }
}

/// A connection was active at time `t`: first seen at or before `t`, and
/// either seen again at or after `t` or still open.
pub open spec fn active_at(c: Connection, t: u64) -> bool {
    c.first_seen <= t && (t <= c.last_seen || !c.closed)
}

/// `t` lies inside the optional [start, end] window.
pub open spec fn in_window(t: u64, start: Option<u64>, end: Option<u64>) -> bool {
    &&& match start {
        Some(s) => t >= s,
        None => true,
    }
    &&& match end {
        Some(e) => t <= e,
        None => true,
    }
}

/// Connections active at `t` that the filter accepts.
pub open spec fn pred_active(f: ConnectionFilter, procs: Seq<Process>, t: u64) -> spec_fn(
    Connection,
) -> bool {
    |c: Connection| active_at(c, t) && conn_matches(f, c, procs)
}

/// The (timestamp, active count) series over the retained poll timestamps
/// inside the window, in timestamp order.
pub open spec fn history_points(
    ts: Seq<u64>,
    all: Seq<Connection>,
    f: ConnectionFilter,
    procs: Seq<Process>,
    start: Option<u64>,
    end: Option<u64>,
) -> Seq<(u64, usize)>
    decreases ts.len(),
{
    if ts.len() == 0 {
        Seq::empty()
    } else {
        history_points(ts.drop_last(), all, f, procs, start, end) + (if in_window(
            ts.last(),
            start,
            end,
        ) {
            seq![(ts.last(), count_where(all, pred_active(f, procs, ts.last())) as usize)]
        } else {
            Seq::empty()
        })
    }
}

/// The samples of a series inside the window, in order.
pub open spec fn windowed(s: Seq<(u64, u64)>, start: Option<u64>, end: Option<u64>) -> Seq<
    (u64, u64),
>
    decreases s.len(),
{
    if s.len() == 0 {
        Seq::empty()
    } else {
        windowed(s.drop_last(), start, end) + (if in_window(s.last().0, start, end) {
            seq![s.last()]
        } else {
            Seq::empty()
        })
    }
}

/// The pids the filter selects for memory history: the exact pid if set, else
/// the pids whose process name contains the name substring if set, else every
/// pid with a memory series, each in first-occurrence order.
pub open spec fn selected_pids(
    f: ConnectionFilter,
    procs: Seq<Process>,
    mem: Seq<MemorySeries>,
) -> Seq<u32>
    decreases procs.len(), mem.len(),
{
    match f.pid {
        Some(p) => seq![p],
        None => match f.process_name {
            Some(sub) => {
                if procs.len() == 0 {
                    Seq::empty()
                } else {
                    selected_pids(f, procs.drop_last(), mem) + (match procs.last().name {
                        Some(n) => if contains_seq(n@, sub@) {
                            seq![procs.last().pid]
                        } else {
                            Seq::empty()
                        },
                        None => Seq::empty(),
                    })
                }
            },
            None => {
                if mem.len() == 0 {
                    Seq::empty()
                } else {
                    selected_pids(f, procs, mem.drop_last()).push(mem.last().pid)
                }
            },
        },
    }
}

/// The memory-history view: each selected pid's windowed series, pids with an
/// empty windowed series omitted.
pub open spec fn mem_view(
    pids: Seq<u32>,
    mem: Seq<MemorySeries>,
    start: Option<u64>,
    end: Option<u64>,
) -> Seq<(u32, Seq<(u64, u64)>)>
    decreases pids.len(),
{
    if pids.len() == 0 {
        Seq::empty()
    } else {
        mem_view(pids.drop_last(), mem, start, end) + (match find_mem(mem, pids.last()) {
            Some(s) => if windowed(s, start, end).len() > 0 {
                seq![(pids.last(), windowed(s, start, end))]
            } else {
                Seq::empty()
            },
            None => Seq::empty(),
        })
    }
}

impl ConnectionMonitor {
    /// Resolved process name for a pid, as the filter predicate consumes it.
    fn resolved_name_ref(&self, pid: u32) -> (r: Option<&str>)
        ensures
            crate::filters::opt_ref_view(r) == resolved_name(self.processes@, pid),
    {
        match self.get_process(pid) {
            Some(p) => match &p.name {
                Some(n) => Some(n.as_str()),
                None => None,
            },
            None => None,
        }
    }

    /// The open connections the filter accepts, in registry order.
    pub fn get_filtered_active_connections(&self, filter: &ConnectionFilter) -> (r: Vec<
        Connection,
    >)
        ensures
            r@ == filtered_conns(self.connections@, *filter, self.processes@),
    {
        self.filter_conns(&self.connections, filter)
    }

    /// The closed connections the filter accepts, oldest first.
    pub fn get_filtered_historical_connections(&self, filter: &ConnectionFilter) -> (r: Vec<
        Connection,
    >)
        ensures
            r@ == filtered_conns(self.historical_connections@, *filter, self.processes@),
    {
        self.filter_conns(&self.historical_connections, filter)
    }

    /// Filters a connection table by the predicate, resolving names against
    /// the registry's process records.
    fn filter_conns(&self, conns: &Vec<Connection>, filter: &ConnectionFilter) -> (r: Vec<
        Connection,
    >)
        ensures
            r@ == filtered_conns(conns@, *filter, self.processes@),
    {
        let mut r: Vec<Connection> = Vec::new();
        let mut i: usize = 0;
        while i < conns.len()
            invariant
                0 <= i <= conns@.len(),
                r@ == filtered_conns(conns@.take(i as int), *filter, self.processes@),
            decreases conns@.len() - i,
        {
            let c = &conns[i];
            let name = self.resolved_name_ref(c.pid);
            let ghost r_old = r@;
            if filter.matches_connection(c, name) {
                r.push(c.clone());
            }
            proof {
                assert(conns@.take(i + 1).drop_last() =~= conns@.take(i as int));
                assert(conns@.take(i + 1).last() == conns@[i as int]);
                if conn_matches(*filter, conns@[i as int], self.processes@) {
                    assert(r@ =~= r_old + seq![conns@[i as int]]);
                } else {
                    assert(r@ =~= r_old + Seq::<Connection>::empty());
                }
            }
            i += 1;
        }
        proof {
            assert(conns@.take(conns@.len() as int) =~= conns@);
        }
        r
    }

    /// The process records the filter's pid and name criteria accept, in
    /// registry order (host and port criteria do not apply to processes).
    pub fn get_filtered_processes(&self, filter: &ConnectionFilter) -> (r: Vec<Process>)
        ensures
            r@ == filtered_procs(self.processes@, *filter),
    {
        let mut r: Vec<Process> = Vec::new();
        let mut i: usize = 0;
        while i < self.processes.len()
            invariant
                0 <= i <= self.processes@.len(),
                r@ == filtered_procs(self.processes@.take(i as int), *filter),
            decreases self.processes@.len() - i,
        {
            let p = &self.processes[i];
            let mut keep = true;
            if let Some(pid) = filter.pid {
                if p.pid != pid {
                    keep = false;
                }
            }
            if keep {
                if let Some(name_filter) = &filter.process_name {
                    match &p.name {
                        Some(n) => {
                            if !crate::text::str_contains(n.as_str(), name_filter.as_str()) {
                                keep = false;
                            }
                        },
                        None => {
                            keep = false;
                        },
                    }
                }
            }
            let ghost r_old = r@;
            if keep {
                r.push(p.clone());
            }
            proof {
                assert(self.processes@.take(i + 1).drop_last() =~= self.processes@.take(i as int));
                assert(self.processes@.take(i + 1).last() == self.processes@[i as int]);
                if proc_matches(self.processes@[i as int], *filter) {
                    assert(r@ =~= r_old + seq![self.processes@[i as int]]);
                } else {
                    assert(r@ =~= r_old + Seq::<Process>::empty());
                }
            }
            i += 1;
        }
        proof {
            assert(self.processes@.take(self.processes@.len() as int) =~= self.processes@);
        }
        r
    }

    /// Counts the connections accepted by the filter and active at `t`,
    /// over live and historical connections together.
    fn count_active_at(&self, filter: &ConnectionFilter, t: u64) -> (r: usize)
        requires
            self.all_conns().len() <= usize::MAX,
        ensures
            r == count_where(self.all_conns(), pred_active(*filter, self.processes@, t)),
    {
        let ghost pred = pred_active(*filter, self.processes@, t);
        let a = self.count_active_in(&self.connections, filter, t);
        let b = self.count_active_in(&self.historical_connections, filter, t);
        proof {
            lemma_count_app(self.connections@, self.historical_connections@, pred);
            lemma_count_le_len(self.connections@, pred);
            lemma_count_le_len(self.historical_connections@, pred);
        }
        a + b
    }

    /// Counts the filtered connections of one table active at `t`.
    fn count_active_in(&self, conns: &Vec<Connection>, filter: &ConnectionFilter, t: u64) -> (r:
        usize)
        ensures
            r == count_where(conns@, pred_active(*filter, self.processes@, t)),
    {
        let ghost pred = pred_active(*filter, self.processes@, t);
        let mut r: usize = 0;
        let mut i: usize = 0;
        while i < conns.len()
            invariant
                0 <= i <= conns@.len(),
                r == count_where(conns@.take(i as int), pred_active(*filter, self.processes@, t)),
            decreases conns@.len() - i,
        {
            let c = &conns[i];
            proof {
                lemma_count_le_len(
                    conns@.take(i as int),
                    pred_active(*filter, self.processes@, t),
                );
                assert(conns@.take(i as int).len() == i as int);
                assert(r <= i);
                assert(conns@.take(i + 1).drop_last() =~= conns@.take(i as int));
                assert(conns@.take(i + 1).last() == conns@[i as int]);
            }
            let was_active = c.first_seen <= t && (t <= c.last_seen || !c.closed);
            if was_active {
                let name = self.resolved_name_ref(c.pid);
                if filter.matches_connection(c, name) {
                    r = r + 1;
                }
            }
            i += 1;
        }
        proof {
            assert(conns@.take(conns@.len() as int) =~= conns@);
        }
        r
    }

    /// For every retained poll timestamp inside the window, the number of
    /// filtered connections active at that timestamp, in timestamp order.
    pub fn get_connection_history_filtered(
        &self,
        filter: &ConnectionFilter,
        start_time: Option<u64>,
        end_time: Option<u64>,
    ) -> (r: Vec<(u64, usize)>)
        requires
            self.all_conns().len() <= usize::MAX,
        ensures
            r@ == history_points(
                self.metrics.sample_timestamps@,
                self.all_conns(),
                *filter,
                self.processes@,
                start_time,
                end_time,
            ),
    {
        let ghost ts = self.metrics.sample_timestamps@;
        let mut r: Vec<(u64, usize)> = Vec::new();
        let mut i: usize = 0;
        while i < self.metrics.sample_timestamps.len()
            invariant
                self.all_conns().len() <= usize::MAX,
                ts == self.metrics.sample_timestamps@,
                0 <= i <= ts.len(),
                r@ == history_points(
                    ts.take(i as int),
                    self.all_conns(),
                    *filter,
                    self.processes@,
                    start_time,
                    end_time,
                ),
            decreases ts.len() - i,
        {
            let t = self.metrics.sample_timestamps[i];
            let mut inside = true;
            if let Some(s) = start_time {
                if t < s {
                    inside = false;
                }
            }
            if inside {
                if let Some(e) = end_time {
                    if t > e {
                        inside = false;
                    }
                }
            }
            let ghost r_old = r@;
            if inside {
                let count = self.count_active_at(filter, t);
                r.push((t, count));
            }
            proof {
                assert(ts.take(i + 1).drop_last() =~= ts.take(i as int));
                assert(ts.take(i + 1).last() == ts[i as int]);
                if in_window(ts[i as int], start_time, end_time) {
                    assert(r@ =~= r_old + seq![
                        (
                            ts[i as int],
                            count_where(
                                self.all_conns(),
                                pred_active(*filter, self.processes@, ts[i as int]),
                            ) as usize,
                        ),
                    ]);
                } else {
                    assert(r@ =~= r_old + Seq::<(u64, usize)>::empty());
                }
            }
            i += 1;
        }
        proof {
            assert(ts.take(ts.len() as int) =~= ts);
        }
        r
    }

    /// The memory series of the pids the filter selects, each series
    /// windowed; pids whose windowed series is empty are omitted.
    pub fn get_memory_history_filtered(
        &self,
        filter: &ConnectionFilter,
        start_time: Option<u64>,
        end_time: Option<u64>,
    ) -> (r: Vec<MemorySeries>)
        ensures
            r.deep_view() == mem_view(
                selected_pids(*filter, self.processes@, self.metrics.memory_history@),
                self.metrics.memory_history@,
                start_time,
                end_time,
            ),
    {
        let pids = self.collect_selected_pids(filter);
        let ghost mem = self.metrics.memory_history@;
        let mut r: Vec<MemorySeries> = Vec::new();
        let mut i: usize = 0;
        while i < pids.len()
            invariant
                mem == self.metrics.memory_history@,
                0 <= i <= pids@.len(),
                r.deep_view() == mem_view(pids@.take(i as int), mem, start_time, end_time),
            decreases pids@.len() - i,
        {
            let pid = pids[i];
            let ghost r_old = r.deep_view();
            match crate::metrics::find_mem_index(&self.metrics.memory_history, pid) {
                Some(mi) => {
                    let series = &self.metrics.memory_history[mi];
                    let w = window_samples(&series.samples, start_time, end_time);
                    if w.len() > 0 {
                        r.push(MemorySeries { pid, samples: w });
                    }
                    proof {
                        if windowed(series.samples@, start_time, end_time).len() > 0 {
                            assert(r.deep_view() =~= r_old + seq![
                                (pid, windowed(series.samples@, start_time, end_time)),
                            ]);
                        } else {
                            assert(r.deep_view() =~= r_old + Seq::<(u32, Seq<(u64, u64)>)>::empty());
                        }
                    }
                },
                None => {
                    proof {
                        assert(r.deep_view() =~= r_old + Seq::<(u32, Seq<(u64, u64)>)>::empty());
                    }
                },
            }
            proof {
                assert(pids@.take(i + 1).drop_last() =~= pids@.take(i as int));
                assert(pids@.take(i + 1).last() == pids@[i as int]);
            }
            i += 1;
        }
        proof {
            assert(pids@.take(pids@.len() as int) =~= pids@);
        }
        r
    }

    /// The pids the filter implies for memory history.
    fn collect_selected_pids(&self, filter: &ConnectionFilter) -> (r: Vec<u32>)
        ensures
            r@ == selected_pids(*filter, self.processes@, self.metrics.memory_history@),
    {
        let mut r: Vec<u32> = Vec::new();
        if let Some(pid) = filter.pid {
            r.push(pid);
            proof {
                assert(r@ =~= seq![pid]);
            }
            return r;
        }
        if let Some(sub) = &filter.process_name {
            let mut i: usize = 0;
            while i < self.processes.len()
                invariant
                    filter.pid is None,
                    filter.process_name == Some(*sub),
                    0 <= i <= self.processes@.len(),
                    r@ == selected_pids(
                        *filter,
                        self.processes@.take(i as int),
                        self.metrics.memory_history@,
                    ),
                decreases self.processes@.len() - i,
            {
                let p = &self.processes[i];
                let ghost r_old = r@;
                let keep = match &p.name {
                    Some(n) => crate::text::str_contains(n.as_str(), sub.as_str()),
                    None => false,
                };
                if keep {
                    r.push(p.pid);
                }
                proof {
                    assert(self.processes@.take(i + 1).drop_last() =~= self.processes@.take(
                        i as int,
                    ));
                    assert(self.processes@.take(i + 1).last() == self.processes@[i as int]);
                    if keep {
                        assert(r@ =~= r_old + seq![self.processes@[i as int].pid]);
                    } else {
                        assert(r@ =~= r_old + Seq::<u32>::empty());
                    }
                }
                i += 1;
            }
            proof {
                assert(self.processes@.take(self.processes@.len() as int) =~= self.processes@);
            }
            return r;
        }
        let mut i: usize = 0;
        while i < self.metrics.memory_history.len()
            invariant
                filter.pid is None,
                filter.process_name is None,
                0 <= i <= self.metrics.memory_history@.len(),
                r@ == selected_pids(
                    *filter,
                    self.processes@,
                    self.metrics.memory_history@.take(i as int),
                ),
            decreases self.metrics.memory_history@.len() - i,
        {
            r.push(self.metrics.memory_history[i].pid);
            proof {
                assert(self.metrics.memory_history@.take(i + 1).drop_last()
                    =~= self.metrics.memory_history@.take(i as int));
                assert(self.metrics.memory_history@.take(i + 1).last()
                    == self.metrics.memory_history@[i as int]);
            }
            i += 1;
        }
        proof {
            assert(self.metrics.memory_history@.take(self.metrics.memory_history@.len() as int)
                =~= self.metrics.memory_history@);
        }
        r
    }
}

/// Whether the filter's pid and name criteria accept a process record.
pub open spec fn proc_matches(p: Process, f: ConnectionFilter) -> bool {
    &&& match f.pid {
        Some(pid) => p.pid == pid,
        None => true,
    }
    &&& match f.process_name {
        Some(sub) => match p.name {
            Some(n) => contains_seq(n@, sub@),
            None => false,
        },
        None => true,
    }
}

/// The process records the filter accepts, in order.
pub open spec fn filtered_procs(s: Seq<Process>, f: ConnectionFilter) -> Seq<Process>
    decreases s.len(),
{
    if s.len() == 0 {
        Seq::empty()
    } else {
        filtered_procs(s.drop_last(), f) + (if proc_matches(s.last(), f) {
            seq![s.last()]
        } else {
            Seq::empty()
        })
    }
}

/// The samples of `v` inside the window, in order.
pub fn window_samples(v: &Vec<(u64, u64)>, start: Option<u64>, end: Option<u64>) -> (r: Vec<
    (u64, u64),
>)
    ensures
        r@ == windowed(v@, start, end),
{
    let mut r: Vec<(u64, u64)> = Vec::new();
    let mut i: usize = 0;
    while i < v.len()
        invariant
            0 <= i <= v@.len(),
            r@ == windowed(v@.take(i as int), start, end),
        decreases v@.len() - i,
    {
        let (t, m) = v[i];
        let mut inside = true;
        if let Some(s) = start {
            if t < s {
                inside = false;
            }
        }
        if inside {
            if let Some(e) = end {
                if t > e {
                    inside = false;
                }
            }
        }
        let ghost r_old = r@;
        if inside {
            r.push((t, m));
        }
        proof {
            assert(v@.take(i + 1).drop_last() =~= v@.take(i as int));
            assert(v@.take(i + 1).last() == v@[i as int]);
            if in_window(v@[i as int].0, start, end) {
                assert(r@ =~= r_old + seq![v@[i as int]]);
            } else {
                assert(r@ =~= r_old + Seq::<(u64, u64)>::empty());
            }
        }
        i += 1;
    }
    proof {
        assert(v@.take(v@.len() as int) =~= v@);
    }
    r
}

/// Summary row of the host view: one (host-or-address, port) group.
#[derive(Debug)]
pub struct HostMetrics {
    pub host: String,
    pub port: u16,
    pub current_connections: usize,
    pub total_connections: usize,
    pub max_concurrent: usize,
}

impl Clone for HostMetrics {
    /// A clone is equal to the original in every field.
    fn clone(&self) -> (r: Self)
        ensures
            r == *self,
    {
        HostMetrics {
            host: self.host.clone(),
            port: self.port,
            current_connections: self.current_connections,
            total_connections: self.total_connections,
            max_concurrent: self.max_concurrent,
        }
    }
}

/// Summary row of the process view: one pid group.
#[derive(Debug)]
pub struct ProcessMetrics {
    pub pid: u32,
    pub name: String,
    pub current_connections: usize,
    pub total_connections: usize,
    pub max_concurrent: usize,
    pub is_alive: bool,
}

impl Clone for ProcessMetrics {
    /// A clone is equal to the original in every field.
    fn clone(&self) -> (r: Self)
        ensures
            r == *self,
    {
        ProcessMetrics {
            pid: self.pid,
            name: self.name.clone(),
            current_connections: self.current_connections,
            total_connections: self.total_connections,
            max_concurrent: self.max_concurrent,
            is_alive: self.is_alive,
        }
    }
}

/// Summary row of the process-host view: one (pid, host, port) group.
#[derive(Debug)]
pub struct ProcessHostMetrics {
    pub pid: u32,
    pub process_name: String,
    pub host: String,
    pub port: u16,
    pub current_connections: usize,
    pub total_connections: usize,
    pub max_concurrent: usize,
    pub is_alive: bool,
}

impl Clone for ProcessHostMetrics {
    /// A clone is equal to the original in every field.
    fn clone(&self) -> (r: Self)
        ensures
            r == *self,
    {
        ProcessHostMetrics {
            pid: self.pid,
            process_name: self.process_name.clone(),
            host: self.host.clone(),
            port: self.port,
            current_connections: self.current_connections,
            total_connections: self.total_connections,
            max_concurrent: self.max_concurrent,
            is_alive: self.is_alive,
        }
    }
}

/// Matching connections of one host group.
pub open spec fn pred_host_group(
    f: ConnectionFilter,
    procs: Seq<Process>,
    h: Seq<char>,
    port: u16,
) -> spec_fn(Connection) -> bool {
    |c: Connection| conn_matches(f, c, procs) && host_or_addr(c) == h && c.remote_port == port
}

/// Open matching connections of one host group.
pub open spec fn pred_host_group_open(
    f: ConnectionFilter,
    procs: Seq<Process>,
    h: Seq<char>,
    port: u16,
) -> spec_fn(Connection) -> bool {
    |c: Connection| conn_matches(f, c, procs) && host_or_addr(c) == h && c.remote_port == port
        && !c.closed
}

/// Matching connections of one pid group.
pub open spec fn pred_pid_group(f: ConnectionFilter, procs: Seq<Process>, pid: u32) -> spec_fn(
    Connection,
) -> bool {
    |c: Connection| conn_matches(f, c, procs) && c.pid == pid
}

/// Open matching connections of one pid group.
pub open spec fn pred_pid_group_open(
    f: ConnectionFilter,
    procs: Seq<Process>,
    pid: u32,
) -> spec_fn(Connection) -> bool {
    |c: Connection| conn_matches(f, c, procs) && c.pid == pid && !c.closed
}

/// Matching connections of one process-host group.
pub open spec fn pred_ph_group(
    f: ConnectionFilter,
    procs: Seq<Process>,
    pid: u32,
    h: Seq<char>,
    port: u16,
) -> spec_fn(Connection) -> bool {
    |c: Connection| conn_matches(f, c, procs) && c.pid == pid && host_or_addr(c) == h
        && c.remote_port == port
}

/// Open matching connections of one process-host group.
pub open spec fn pred_ph_group_open(
    f: ConnectionFilter,
    procs: Seq<Process>,
    pid: u32,
    h: Seq<char>,
    port: u16,
) -> spec_fn(Connection) -> bool {
    |c: Connection| conn_matches(f, c, procs) && c.pid == pid && host_or_addr(c) == h
        && c.remote_port == port && !c.closed
}

/// A host key occurs in the key list.
pub open spec fn key_in_host(ks: Seq<(Seq<char>, u16)>, k: (Seq<char>, u16)) -> bool {
    exists|i: int| 0 <= i < ks.len() && (#[trigger] ks[i]) == k
}

/// A pid key occurs in the key list.
pub open spec fn key_in_pid(ks: Seq<u32>, k: u32) -> bool {
    exists|i: int| 0 <= i < ks.len() && (#[trigger] ks[i]) == k
}

/// A process-host key occurs in the key list.
pub open spec fn key_in_ph(ks: Seq<(u32, Seq<char>, u16)>, k: (u32, Seq<char>, u16)) -> bool {
    exists|i: int| 0 <= i < ks.len() && (#[trigger] ks[i]) == k
}

/// The distinct (host-or-address, port) keys of the matching connections, in
/// first-occurrence order.
pub open spec fn host_keys(s: Seq<Connection>, f: ConnectionFilter, procs: Seq<Process>) -> Seq<
    (Seq<char>, u16),
>
    decreases s.len(),
{
    if s.len() == 0 {
        Seq::empty()
    } else {
        let rest = host_keys(s.drop_last(), f, procs);
        if conn_matches(f, s.last(), procs) && !key_in_host(
            rest,
            (host_or_addr(s.last()), s.last().remote_port),
        ) {
            rest.push((host_or_addr(s.last()), s.last().remote_port))
        } else {
            rest
        }
    }
}

/// The distinct pids of the matching connections, in first-occurrence order.
pub open spec fn pid_keys(s: Seq<Connection>, f: ConnectionFilter, procs: Seq<Process>) -> Seq<u32>
    decreases s.len(),
{
    if s.len() == 0 {
        Seq::empty()
    } else {
        let rest = pid_keys(s.drop_last(), f, procs);
        if conn_matches(f, s.last(), procs) && !key_in_pid(rest, s.last().pid) {
            rest.push(s.last().pid)
        } else {
            rest
        }
    }
}

/// The distinct (pid, host-or-address, port) keys of the matching
/// connections, in first-occurrence order.
pub open spec fn ph_keys(s: Seq<Connection>, f: ConnectionFilter, procs: Seq<Process>) -> Seq<
    (u32, Seq<char>, u16),
>
    decreases s.len(),
{
    if s.len() == 0 {
        Seq::empty()
    } else {
        let rest = ph_keys(s.drop_last(), f, procs);
        if conn_matches(f, s.last(), procs) && !key_in_ph(
            rest,
            (s.last().pid, host_or_addr(s.last()), s.last().remote_port),
        ) {
            rest.push((s.last().pid, host_or_addr(s.last()), s.last().remote_port))
        } else {
            rest
        }
    }
}

/// The display name of a pid in the process view: its resolved name, else
/// "Unknown".
pub open spec fn display_name(procs: Seq<Process>, pid: u32) -> Seq<char> {
    match resolved_name(procs, pid) {
        Some(n) => n,
        None => "Unknown"@,
    }
}

/// The display name of a pid in the process-host view: its executable path,
/// else its name, else "Unknown".
pub open spec fn exe_display_name(procs: Seq<Process>, pid: u32) -> Seq<char> {
    match find_proc(procs, pid) {
        Some(p) => match p.exe {
            Some(e) => e@,
            None => match p.name {
                Some(n) => n@,
                None => "Unknown"@,
            },
        },
        None => "Unknown"@,
    }
}

impl ConnectionMonitor {
    /// The display host of a connection: hostname, else the address text.
    fn host_string(&self, c: &Connection) -> (r: String)
        ensures
            r@ == host_or_addr(*c),
    {
        match &c.remote_hostname {
            Some(h) => h.clone(),
            None => c.remote_addr.clone(),
        }
    }

    /// The registry's running maximum for one host key, zero when unknown.
    fn host_max_for(&self, host: &String, port: u16) -> (r: usize)
        ensures
            r == host_max(self.metrics.by_host@, host@, port),
    {
        match crate::metrics::find_host_index(&self.metrics.by_host, host, port) {
            Some(i) => self.metrics.by_host[i].max,
            None => 0,
        }
    }

    /// The registry's running maximum for one pid key, zero when unknown.
    fn pid_max_for(&self, pid: u32) -> (r: usize)
        ensures
            r == pid_max(self.metrics.by_pid@, pid),
    {
        match crate::metrics::find_pid_index(&self.metrics.by_pid, pid) {
            Some(i) => self.metrics.by_pid[i].max,
            None => 0,
        }
    }

    /// The registry's running maximum for one process-host key, zero when
    /// unknown.
    fn ph_max_for(&self, pid: u32, host: &String, port: u16) -> (r: usize)
        ensures
            r == ph_max(self.metrics.by_process_host@, pid, host@, port),
    {
        match crate::metrics::find_ph_index(&self.metrics.by_process_host, pid, host, port) {
            Some(i) => self.metrics.by_process_host[i].max,
            None => 0,
        }
    }

    /// The display name of a pid, "Unknown" when none is resolved.
    fn display_name_for(&self, pid: u32) -> (r: String)
        ensures
            r@ == display_name(self.processes@, pid),
    {
        match self.get_process(pid) {
            Some(p) => match &p.name {
                Some(n) => n.clone(),
                None => String::from_str("Unknown"),
            },
            None => String::from_str("Unknown"),
        }
    }

    /// The executable-preferring display name of a pid.
    fn exe_display_name_for(&self, pid: u32) -> (r: String)
        ensures
            r@ == exe_display_name(self.processes@, pid),
    {
        match self.get_process(pid) {
            Some(p) => match &p.exe {
                Some(e) => e.clone(),
                None => match &p.name {
                    Some(n) => n.clone(),
                    None => String::from_str("Unknown"),
                },
            },
            None => String::from_str("Unknown"),
        }
    }

    /// Whether a connection belongs to the given host group, under the
    /// filter.
    fn in_host_group(&self, c: &Connection, filter: &ConnectionFilter, host: &String, port: u16)
        -> (r: bool)
        ensures
            r == pred_host_group(*filter, self.processes@, host@, port)(*c),
    {
        let name = self.resolved_name_ref(c.pid);
        if !filter.matches_connection(c, name) {
            return false;
        }
        if c.remote_port != port {
            return false;
        }
        match &c.remote_hostname {
            Some(h) => string_eq(h, host),
            None => string_eq(&c.remote_addr, host),
        }
    }

    /// Counts the connections of one host group over live plus historical,
    /// all matches or open ones only.
    fn count_host_group(
        &self,
        filter: &ConnectionFilter,
        host: &String,
        port: u16,
        open_only: bool,
    ) -> (r: usize)
        requires
            self.all_conns().len() <= usize::MAX,
        ensures
            open_only ==> r == count_where(
                self.all_conns(),
                pred_host_group_open(*filter, self.processes@, host@, port),
            ),
            !open_only ==> r == count_where(
                self.all_conns(),
                pred_host_group(*filter, self.processes@, host@, port),
            ),
    {
        let ghost pred = if open_only {
            pred_host_group_open(*filter, self.processes@, host@, port)
        } else {
            pred_host_group(*filter, self.processes@, host@, port)
        };
        let mut r: usize = 0;
        let mut i: usize = 0;
        while i < self.connections.len()
            invariant
                self.all_conns().len() <= usize::MAX,
                pred == (if open_only {
                    pred_host_group_open(*filter, self.processes@, host@, port)
                } else {
                    pred_host_group(*filter, self.processes@, host@, port)
                }),
                0 <= i <= self.connections@.len(),
                r == count_where(self.connections@.take(i as int), pred),
            decreases self.connections@.len() - i,
        {
            let c = &self.connections[i];
            proof {
                lemma_count_le_len(self.connections@.take(i as int), pred);
                assert(self.connections@.take(i as int).len() == i as int);
                assert(self.connections@.take(i + 1).drop_last() =~= self.connections@.take(
                    i as int,
                ));
                assert(self.connections@.take(i + 1).last() == self.connections@[i as int]);
            }
            if self.in_host_group(c, filter, host, port) && (!open_only || !c.closed) {
                r = r + 1;
            }
            i += 1;
        }
        proof {
            assert(self.connections@.take(self.connections@.len() as int) =~= self.connections@);
            lemma_count_le_len(self.connections@, pred);
        }
        let mut j: usize = 0;
        let mut rh: usize = 0;
        while j < self.historical_connections.len()
            invariant
                self.all_conns().len() <= usize::MAX,
                pred == (if open_only {
                    pred_host_group_open(*filter, self.processes@, host@, port)
                } else {
                    pred_host_group(*filter, self.processes@, host@, port)
                }),
                0 <= j <= self.historical_connections@.len(),
                rh == count_where(self.historical_connections@.take(j as int), pred),
            decreases self.historical_connections@.len() - j,
        {
            let c = &self.historical_connections[j];
            proof {
                lemma_count_le_len(self.historical_connections@.take(j as int), pred);
                assert(self.historical_connections@.take(j as int).len() == j as int);
                assert(self.historical_connections@.take(j + 1).drop_last()
                    =~= self.historical_connections@.take(j as int));
                assert(self.historical_connections@.take(j + 1).last()
                    == self.historical_connections@[j as int]);
            }
            if self.in_host_group(c, filter, host, port) && (!open_only || !c.closed) {
                rh = rh + 1;
            }
            j += 1;
        }
        proof {
            assert(self.historical_connections@.take(self.historical_connections@.len() as int)
                =~= self.historical_connections@);
            lemma_count_le_len(self.historical_connections@, pred);
            lemma_count_app(self.connections@, self.historical_connections@, pred);
        }
        r + rh
    }

    /// The host view: one row per (host-or-address, port) key among the
    /// matching connections, in first-occurrence order, with the exact group
    /// counts and the registry's running maximum for that key.
    #[verifier::rlimit(100)]
    #[verifier::spinoff_prover]
    pub fn get_host_metrics(&self, filter: &ConnectionFilter) -> (r: Vec<HostMetrics>)
        requires
            self.all_conns().len() <= usize::MAX,
        ensures
            ({
                let ks = host_keys(self.all_conns(), *filter, self.processes@);
                &&& r@.len() == ks.len()
                &&& forall|x: int|
                    0 <= x < ks.len() ==> (#[trigger] r@[x]).host@ == ks[x].0 && r@[x].port
                        == ks[x].1 && r@[x].current_connections == count_where(
                        self.all_conns(),
                        pred_host_group_open(*filter, self.processes@, ks[x].0, ks[x].1),
                    ) && r@[x].total_connections == count_where(
                        self.all_conns(),
                        pred_host_group(*filter, self.processes@, ks[x].0, ks[x].1),
                    ) && r@[x].max_concurrent == host_max(self.metrics.by_host@, ks[x].0, ks[x].1)
            }),
    {
        let ghost all = self.all_conns();
        let mut r: Vec<HostMetrics> = Vec::new();
        let mut i: usize = 0;
        while i < self.connections.len()
            invariant
                all == self.all_conns(),
                self.all_conns().len() <= usize::MAX,
                0 <= i <= self.connections@.len(),
                host_view_ok(
                    r@,
                    host_keys(all.take(i as int), *filter, self.processes@),
                    all,
                    *filter,
                    self.processes@,
                    self.metrics.by_host@,
                ),
            decreases self.connections@.len() - i,
        {
            proof {
                assert(all[i as int] == self.connections@[i as int]);
            }
            let c = self.connections[i].clone();
            self.host_group_step(&c, filter, &mut r, Ghost(all), Ghost(i as int));
            i += 1;
        }
        let live_len = self.connections.len();
        let mut j: usize = 0;
        while j < self.historical_connections.len()
            invariant
                all == self.all_conns(),
                self.all_conns().len() <= usize::MAX,
                live_len == self.connections@.len(),
                0 <= j <= self.historical_connections@.len(),
                host_view_ok(
                    r@,
                    host_keys(all.take(live_len + j), *filter, self.processes@),
                    all,
                    *filter,
                    self.processes@,
                    self.metrics.by_host@,
                ),
            decreases self.historical_connections@.len() - j,
        {
            proof {
                assert(all[live_len + j] == self.historical_connections@[j as int]);
            }
            let c = self.historical_connections[j].clone();
            self.host_group_step(&c, filter, &mut r, Ghost(all), Ghost(live_len + j));
            j += 1;
        }
        proof {
            assert(all.take(all.len() as int) =~= all);
        }
        r
    }

    /// Processes the connection at position `pos` of the combined table for
    /// the host view: a new key gets its row, a known one changes nothing.
    #[verifier::rlimit(100)]
    #[verifier::spinoff_prover]
    fn host_group_step(
        &self,
        c: &Connection,
        filter: &ConnectionFilter,
        r: &mut Vec<HostMetrics>,
        Ghost(all): Ghost<Seq<Connection>>,
        Ghost(pos): Ghost<int>,
    )
        requires
            all == self.all_conns(),
            all.len() <= usize::MAX,
            0 <= pos < all.len(),
            *c == all[pos],
            host_view_ok(
                old(r)@,
                host_keys(all.take(pos), *filter, self.processes@),
                all,
                *filter,
                self.processes@,
                self.metrics.by_host@,
            ),
        ensures
            host_view_ok(
                final(r)@,
                host_keys(all.take(pos + 1), *filter, self.processes@),
                all,
                *filter,
                self.processes@,
                self.metrics.by_host@,
            ),
    {
        let ghost ks = host_keys(all.take(pos), *filter, self.processes@);
        let ghost ks1 = host_keys(all.take(pos + 1), *filter, self.processes@);
        proof {
            assert(all.take(pos + 1).drop_last() =~= all.take(pos));
            assert(all.take(pos + 1).last() == all[pos]);
        }
        let name = self.resolved_name_ref(c.pid);
        if !filter.matches_connection(c, name) {
            proof {
                assert(ks1 == ks);
            }
            return ;
        }
        let host = self.host_string(c);
        let port = c.remote_port;
        // is the key already present?
        let mut x: usize = 0;
        let mut found = false;
        while x < r.len() && !found
            invariant
                0 <= x <= r@.len(),
                !found ==> forall|y: int|
                    0 <= y < x ==> !((#[trigger] r@[y]).host@ == host@ && r@[y].port == port),
                found ==> exists|y: int|
                    0 <= y < r@.len() && (#[trigger] r@[y]).host@ == host@ && r@[y].port == port,
            decreases r@.len() - x, (if found { 0int } else { 1int }),
        {
            if r[x].port == port && string_eq(&r[x].host, &host) {
                found = true;
                proof {
                    assert((|y: int| 0 <= y < r@.len() && r@[y].host@ == host@ && r@[y].port
                        == port)(x as int));
                }
            } else {
                x += 1;
            }
        }
        if found {
            proof {
                let y = choose|y: int|
                    0 <= y < r@.len() && (#[trigger] r@[y]).host@ == host@ && r@[y].port == port;
                assert(ks[y] == (host@, port));
                assert(key_in_host(ks, (host_or_addr(all[pos]), all[pos].remote_port))) by {
                    assert((|z: int| 0 <= z < ks.len() && ks[z] == (host@, port))(y));
                }
                assert(ks1 == ks);
            }
            return ;
        }
        proof {
            assert(host_view_ok(r@, ks, all, *filter, self.processes@, self.metrics.by_host@));
            if key_in_host(ks, (host_or_addr(all[pos]), all[pos].remote_port)) {
                let y = choose|y: int|
                    0 <= y < ks.len() && (#[trigger] ks[y]) == (
                    host_or_addr(all[pos]),
                    all[pos].remote_port,
                );
                assert(ks[y].0 == host@ && ks[y].1 == port);
                assert(r@[y].host@ == ks[y].0 && r@[y].port == ks[y].1);
                assert(!(r@[y].host@ == host@ && r@[y].port == port));
                assert(false);
            }
            assert(ks1 == ks.push((host@, port)));
        }
        let current = self.count_host_group(filter, &host, port, true);
        let total = self.count_host_group(filter, &host, port, false);
        let max_concurrent = self.host_max_for(&host, port);
        let ghost r_old = r@;
        r.push(
            HostMetrics {
                host,
                port,
                current_connections: current,
                total_connections: total,
                max_concurrent,
            },
        );
        proof {
            assert forall|z: int| 0 <= z < ks1.len() implies (#[trigger] final(r)@[z]).host@
                == ks1[z].0 && final(r)@[z].port == ks1[z].1 && final(r)@[z].current_connections
                == count_where(
                all,
                pred_host_group_open(*filter, self.processes@, ks1[z].0, ks1[z].1),
            ) && final(r)@[z].total_connections == count_where(
                all,
                pred_host_group(*filter, self.processes@, ks1[z].0, ks1[z].1),
            ) && final(r)@[z].max_concurrent == host_max(
                self.metrics.by_host@,
                ks1[z].0,
                ks1[z].1,
            ) by {
                if z < ks.len() {
                    assert(final(r)@[z] == r_old[z]);
                    assert(ks1[z] == ks[z]);
                }
            }
        }
    }
}

/// The host view rows mirror the key list exactly: same length, and row `x`
/// carries key `x` with the exact counts and the recorded maximum.
pub open spec fn host_view_ok(
    rows: Seq<HostMetrics>,
    ks: Seq<(Seq<char>, u16)>,
    all: Seq<Connection>,
    f: ConnectionFilter,
    procs: Seq<Process>,
    by_host: Seq<crate::metrics::HostCounters>,
) -> bool {
    &&& rows.len() == ks.len()
    &&& forall|x: int|
        0 <= x < ks.len() ==> (#[trigger] rows[x]).host@ == ks[x].0 && rows[x].port == ks[x].1
            && rows[x].current_connections == count_where(
            all,
            pred_host_group_open(f, procs, ks[x].0, ks[x].1),
        ) && rows[x].total_connections == count_where(
            all,
            pred_host_group(f, procs, ks[x].0, ks[x].1),
        ) && rows[x].max_concurrent == host_max(by_host, ks[x].0, ks[x].1)
}

/// The process view rows mirror the pid key list exactly.
pub open spec fn pid_view_ok(
    rows: Seq<ProcessMetrics>,
    ks: Seq<u32>,
    all: Seq<Connection>,
    f: ConnectionFilter,
    procs: Seq<Process>,
    by_pid: Seq<crate::metrics::PidCounters>,
    alive: Seq<u32>,
) -> bool {
    &&& rows.len() == ks.len()
    &&& forall|x: int|
        0 <= x < ks.len() ==> (#[trigger] rows[x]).pid == ks[x] && rows[x].name@ == display_name(
            procs,
            ks[x],
        ) && rows[x].current_connections == count_where(all, pred_pid_group_open(f, procs, ks[x]))
            && rows[x].total_connections == count_where(all, pred_pid_group(f, procs, ks[x]))
            && rows[x].max_concurrent == pid_max(by_pid, ks[x]) && rows[x].is_alive
            == alive.contains(ks[x])
}

/// The process-host view rows mirror the key list exactly.
pub open spec fn ph_view_ok(
    rows: Seq<ProcessHostMetrics>,
    ks: Seq<(u32, Seq<char>, u16)>,
    all: Seq<Connection>,
    f: ConnectionFilter,
    procs: Seq<Process>,
    by_ph: Seq<crate::metrics::ProcessHostCounters>,
    alive: Seq<u32>,
) -> bool {
    &&& rows.len() == ks.len()
    &&& forall|x: int|
        0 <= x < ks.len() ==> (#[trigger] rows[x]).pid == ks[x].0 && rows[x].host@ == ks[x].1
            && rows[x].port == ks[x].2 && rows[x].process_name@ == exe_display_name(procs, ks[x].0)
            && rows[x].current_connections == count_where(
            all,
            pred_ph_group_open(f, procs, ks[x].0, ks[x].1, ks[x].2),
        ) && rows[x].total_connections == count_where(
            all,
            pred_ph_group(f, procs, ks[x].0, ks[x].1, ks[x].2),
        ) && rows[x].max_concurrent == ph_max(by_ph, ks[x].0, ks[x].1, ks[x].2) && rows[x].is_alive
            == alive.contains(ks[x].0)
}

impl ConnectionMonitor {
    /// Whether a connection belongs to the given pid group, under the filter.
    fn in_pid_group(&self, c: &Connection, filter: &ConnectionFilter, pid: u32) -> (r: bool)
        ensures
            r == pred_pid_group(*filter, self.processes@, pid)(*c),
    {
        let name = self.resolved_name_ref(c.pid);
        filter.matches_connection(c, name) && c.pid == pid
    }

    /// Counts the connections of one pid group over live plus historical.
    fn count_pid_group(&self, filter: &ConnectionFilter, pid: u32, open_only: bool) -> (r: usize)
        requires
            self.all_conns().len() <= usize::MAX,
        ensures
            open_only ==> r == count_where(
                self.all_conns(),
                pred_pid_group_open(*filter, self.processes@, pid),
            ),
            !open_only ==> r == count_where(
                self.all_conns(),
                pred_pid_group(*filter, self.processes@, pid),
            ),
    {
        let ghost pred = if open_only {
            pred_pid_group_open(*filter, self.processes@, pid)
        } else {
            pred_pid_group(*filter, self.processes@, pid)
        };
        let mut r: usize = 0;
        let mut i: usize = 0;
        while i < self.connections.len()
            invariant
                self.all_conns().len() <= usize::MAX,
                pred == (if open_only {
                    pred_pid_group_open(*filter, self.processes@, pid)
                } else {
                    pred_pid_group(*filter, self.processes@, pid)
                }),
                0 <= i <= self.connections@.len(),
                r == count_where(self.connections@.take(i as int), pred),
            decreases self.connections@.len() - i,
        {
            let c = &self.connections[i];
            proof {
                lemma_count_le_len(self.connections@.take(i as int), pred);
                assert(self.connections@.take(i as int).len() == i as int);
                assert(self.connections@.take(i + 1).drop_last() =~= self.connections@.take(
                    i as int,
                ));
                assert(self.connections@.take(i + 1).last() == self.connections@[i as int]);
            }
            if self.in_pid_group(c, filter, pid) && (!open_only || !c.closed) {
                r = r + 1;
            }
            i += 1;
        }
        proof {
            assert(self.connections@.take(self.connections@.len() as int) =~= self.connections@);
            lemma_count_le_len(self.connections@, pred);
        }
        let mut j: usize = 0;
        let mut rh: usize = 0;
        while j < self.historical_connections.len()
            invariant
                self.all_conns().len() <= usize::MAX,
                pred == (if open_only {
                    pred_pid_group_open(*filter, self.processes@, pid)
                } else {
                    pred_pid_group(*filter, self.processes@, pid)
                }),
                0 <= j <= self.historical_connections@.len(),
                rh == count_where(self.historical_connections@.take(j as int), pred),
            decreases self.historical_connections@.len() - j,
        {
            let c = &self.historical_connections[j];
            proof {
                lemma_count_le_len(self.historical_connections@.take(j as int), pred);
                assert(self.historical_connections@.take(j as int).len() == j as int);
                assert(self.historical_connections@.take(j + 1).drop_last()
                    =~= self.historical_connections@.take(j as int));
                assert(self.historical_connections@.take(j + 1).last()
                    == self.historical_connections@[j as int]);
            }
            if self.in_pid_group(c, filter, pid) && (!open_only || !c.closed) {
                rh = rh + 1;
            }
            j += 1;
        }
        proof {
            assert(self.historical_connections@.take(self.historical_connections@.len() as int)
                =~= self.historical_connections@);
            lemma_count_le_len(self.historical_connections@, pred);
            lemma_count_app(self.connections@, self.historical_connections@, pred);
        }
        r + rh
    }

    /// The process view: one row per pid among the matching connections, in
    /// first-occurrence order, with the exact group counts, the registry's
    /// running maximum, the display name and liveness.
    #[verifier::rlimit(100)]
    #[verifier::spinoff_prover]
    pub fn get_process_metrics(&self, filter: &ConnectionFilter) -> (r: Vec<ProcessMetrics>)
        requires
            self.all_conns().len() <= usize::MAX,
        ensures
            pid_view_ok(
                r@,
                pid_keys(self.all_conns(), *filter, self.processes@),
                self.all_conns(),
                *filter,
                self.processes@,
                self.metrics.by_pid@,
                self.alive_pids@,
            ),
    {
        let ghost all = self.all_conns();
        let mut r: Vec<ProcessMetrics> = Vec::new();
        let mut i: usize = 0;
        while i < self.connections.len()
            invariant
                all == self.all_conns(),
                self.all_conns().len() <= usize::MAX,
                0 <= i <= self.connections@.len(),
                pid_view_ok(
                    r@,
                    pid_keys(all.take(i as int), *filter, self.processes@),
                    all,
                    *filter,
                    self.processes@,
                    self.metrics.by_pid@,
                    self.alive_pids@,
                ),
            decreases self.connections@.len() - i,
        {
            proof {
                assert(all[i as int] == self.connections@[i as int]);
            }
            let c = self.connections[i].clone();
            self.pid_group_step(&c, filter, &mut r, Ghost(all), Ghost(i as int));
            i += 1;
        }
        let live_len = self.connections.len();
        let mut j: usize = 0;
        while j < self.historical_connections.len()
            invariant
                all == self.all_conns(),
                self.all_conns().len() <= usize::MAX,
                live_len == self.connections@.len(),
                0 <= j <= self.historical_connections@.len(),
                pid_view_ok(
                    r@,
                    pid_keys(all.take(live_len + j), *filter, self.processes@),
                    all,
                    *filter,
                    self.processes@,
                    self.metrics.by_pid@,
                    self.alive_pids@,
                ),
            decreases self.historical_connections@.len() - j,
        {
            proof {
                assert(all[live_len + j] == self.historical_connections@[j as int]);
            }
            let c = self.historical_connections[j].clone();
            self.pid_group_step(&c, filter, &mut r, Ghost(all), Ghost(live_len + j));
            j += 1;
        }
        proof {
            assert(all.take(all.len() as int) =~= all);
        }
        r
    }

    /// Processes one connection of the combined table for the process view.
    #[verifier::rlimit(100)]
    #[verifier::spinoff_prover]
    fn pid_group_step(
        &self,
        c: &Connection,
        filter: &ConnectionFilter,
        r: &mut Vec<ProcessMetrics>,
        Ghost(all): Ghost<Seq<Connection>>,
        Ghost(pos): Ghost<int>,
    )
        requires
            all == self.all_conns(),
            all.len() <= usize::MAX,
            0 <= pos < all.len(),
            *c == all[pos],
            pid_view_ok(
                old(r)@,
                pid_keys(all.take(pos), *filter, self.processes@),
                all,
                *filter,
                self.processes@,
                self.metrics.by_pid@,
                self.alive_pids@,
            ),
        ensures
            pid_view_ok(
                final(r)@,
                pid_keys(all.take(pos + 1), *filter, self.processes@),
                all,
                *filter,
                self.processes@,
                self.metrics.by_pid@,
                self.alive_pids@,
            ),
    {
        let ghost ks = pid_keys(all.take(pos), *filter, self.processes@);
        let ghost ks1 = pid_keys(all.take(pos + 1), *filter, self.processes@);
        proof {
            assert(all.take(pos + 1).drop_last() =~= all.take(pos));
            assert(all.take(pos + 1).last() == all[pos]);
        }
        let name = self.resolved_name_ref(c.pid);
        if !filter.matches_connection(c, name) {
            proof {
                assert(ks1 == ks);
            }
            return ;
        }
        let pid = c.pid;
        let mut x: usize = 0;
        let mut found = false;
        while x < r.len() && !found
            invariant
                0 <= x <= r@.len(),
                !found ==> forall|y: int| 0 <= y < x ==> (#[trigger] r@[y]).pid != pid,
                found ==> exists|y: int| 0 <= y < r@.len() && (#[trigger] r@[y]).pid == pid,
            decreases r@.len() - x, (if found { 0int } else { 1int }),
        {
            if r[x].pid == pid {
                found = true;
                proof {
                    assert((|y: int| 0 <= y < r@.len() && r@[y].pid == pid)(x as int));
                }
            } else {
                x += 1;
            }
        }
        if found {
            proof {
                let y = choose|y: int| 0 <= y < r@.len() && (#[trigger] r@[y]).pid == pid;
                assert(ks[y] == pid);
                assert(key_in_pid(ks, all[pos].pid)) by {
                    assert((|z: int| 0 <= z < ks.len() && ks[z] == pid)(y));
                }
                assert(ks1 == ks);
            }
            return ;
        }
        proof {
            assert(pid_view_ok(
                r@,
                ks,
                all,
                *filter,
                self.processes@,
                self.metrics.by_pid@,
                self.alive_pids@,
            ));
            if key_in_pid(ks, all[pos].pid) {
                let y = choose|y: int| 0 <= y < ks.len() && (#[trigger] ks[y]) == all[pos].pid;
                assert(r@[y].pid == ks[y]);
                assert(false);
            }
            assert(ks1 == ks.push(pid));
        }
        let current = self.count_pid_group(filter, pid, true);
        let total = self.count_pid_group(filter, pid, false);
        let max_concurrent = self.pid_max_for(pid);
        let display = self.display_name_for(pid);
        let is_alive = contains_u32(&self.alive_pids, pid);
        let ghost r_old = r@;
        r.push(
            ProcessMetrics {
                pid,
                name: display,
                current_connections: current,
                total_connections: total,
                max_concurrent,
                is_alive,
            },
        );
        proof {
            assert forall|z: int| 0 <= z < ks1.len() implies (#[trigger] final(r)@[z]).pid
                == ks1[z] && final(r)@[z].name@ == display_name(self.processes@, ks1[z]) && final(r)@[z].current_connections == count_where(
                all,
                pred_pid_group_open(*filter, self.processes@, ks1[z]),
            ) && final(r)@[z].total_connections == count_where(
                all,
                pred_pid_group(*filter, self.processes@, ks1[z]),
            ) && final(r)@[z].max_concurrent == pid_max(self.metrics.by_pid@, ks1[z]) && final(r)@[z].is_alive == self.alive_pids@.contains(ks1[z]) by {
                if z < ks.len() {
                    assert(final(r)@[z] == r_old[z]);
                    assert(ks1[z] == ks[z]);
                }
            }
        }
    }
}

impl ConnectionMonitor {
    /// Whether a connection belongs to the given process-host group.
    fn in_ph_group(
        &self,
        c: &Connection,
        filter: &ConnectionFilter,
        pid: u32,
        host: &String,
        port: u16,
    ) -> (r: bool)
        ensures
            r == pred_ph_group(*filter, self.processes@, pid, host@, port)(*c),
    {
        let name = self.resolved_name_ref(c.pid);
        if !filter.matches_connection(c, name) {
            return false;
        }
        if c.pid != pid || c.remote_port != port {
            return false;
        }
        match &c.remote_hostname {
            Some(h) => string_eq(h, host),
            None => string_eq(&c.remote_addr, host),
        }
    }

    /// Counts the connections of one process-host group over live plus
    /// historical.
    fn count_ph_group(
        &self,
        filter: &ConnectionFilter,
        pid: u32,
        host: &String,
        port: u16,
        open_only: bool,
    ) -> (r: usize)
        requires
            self.all_conns().len() <= usize::MAX,
        ensures
            open_only ==> r == count_where(
                self.all_conns(),
                pred_ph_group_open(*filter, self.processes@, pid, host@, port),
            ),
            !open_only ==> r == count_where(
                self.all_conns(),
                pred_ph_group(*filter, self.processes@, pid, host@, port),
            ),
    {
        let ghost pred = if open_only {
            pred_ph_group_open(*filter, self.processes@, pid, host@, port)
        } else {
            pred_ph_group(*filter, self.processes@, pid, host@, port)
        };
        let mut r: usize = 0;
        let mut i: usize = 0;
        while i < self.connections.len()
            invariant
                self.all_conns().len() <= usize::MAX,
                pred == (if open_only {
                    pred_ph_group_open(*filter, self.processes@, pid, host@, port)
                } else {
                    pred_ph_group(*filter, self.processes@, pid, host@, port)
                }),
                0 <= i <= self.connections@.len(),
                r == count_where(self.connections@.take(i as int), pred),
            decreases self.connections@.len() - i,
        {
            let c = &self.connections[i];
            proof {
                lemma_count_le_len(self.connections@.take(i as int), pred);
                assert(self.connections@.take(i as int).len() == i as int);
                assert(self.connections@.take(i + 1).drop_last() =~= self.connections@.take(
                    i as int,
                ));
                assert(self.connections@.take(i + 1).last() == self.connections@[i as int]);
            }
            if self.in_ph_group(c, filter, pid, host, port) && (!open_only || !c.closed) {
                r = r + 1;
            }
            i += 1;
        }
        proof {
            assert(self.connections@.take(self.connections@.len() as int) =~= self.connections@);
            lemma_count_le_len(self.connections@, pred);
        }
        let mut j: usize = 0;
        let mut rh: usize = 0;
        while j < self.historical_connections.len()
            invariant
                self.all_conns().len() <= usize::MAX,
                pred == (if open_only {
                    pred_ph_group_open(*filter, self.processes@, pid, host@, port)
                } else {
                    pred_ph_group(*filter, self.processes@, pid, host@, port)
                }),
                0 <= j <= self.historical_connections@.len(),
                rh == count_where(self.historical_connections@.take(j as int), pred),
            decreases self.historical_connections@.len() - j,
        {
            let c = &self.historical_connections[j];
            proof {
                lemma_count_le_len(self.historical_connections@.take(j as int), pred);
                assert(self.historical_connections@.take(j as int).len() == j as int);
                assert(self.historical_connections@.take(j + 1).drop_last()
                    =~= self.historical_connections@.take(j as int));
                assert(self.historical_connections@.take(j + 1).last()
                    == self.historical_connections@[j as int]);
            }
            if self.in_ph_group(c, filter, pid, host, port) && (!open_only || !c.closed) {
                rh = rh + 1;
            }
            j += 1;
        }
        proof {
            assert(self.historical_connections@.take(self.historical_connections@.len() as int)
                =~= self.historical_connections@);
            lemma_count_le_len(self.historical_connections@, pred);
            lemma_count_app(self.connections@, self.historical_connections@, pred);
        }
        r + rh
    }

    /// The process-host view: one row per (pid, host-or-address, port) key
    /// among the matching connections, in first-occurrence order, with the
    /// exact group counts, the registry's running maximum, the
    /// executable-preferring display name and liveness.
    #[verifier::rlimit(100)]
    #[verifier::spinoff_prover]
    pub fn get_process_host_metrics(&self, filter: &ConnectionFilter) -> (r: Vec<
        ProcessHostMetrics,
    >)
        requires
            self.all_conns().len() <= usize::MAX,
        ensures
            ph_view_ok(
                r@,
                ph_keys(self.all_conns(), *filter, self.processes@),
                self.all_conns(),
                *filter,
                self.processes@,
                self.metrics.by_process_host@,
                self.alive_pids@,
            ),
    {
        let ghost all = self.all_conns();
        let mut r: Vec<ProcessHostMetrics> = Vec::new();
        let mut i: usize = 0;
        while i < self.connections.len()
            invariant
                all == self.all_conns(),
                self.all_conns().len() <= usize::MAX,
                0 <= i <= self.connections@.len(),
                ph_view_ok(
                    r@,
                    ph_keys(all.take(i as int), *filter, self.processes@),
                    all,
                    *filter,
                    self.processes@,
                    self.metrics.by_process_host@,
                    self.alive_pids@,
                ),
            decreases self.connections@.len() - i,
        {
            proof {
                assert(all[i as int] == self.connections@[i as int]);
            }
            let c = self.connections[i].clone();
            self.ph_group_step(&c, filter, &mut r, Ghost(all), Ghost(i as int));
            i += 1;
        }
        let live_len = self.connections.len();
        let mut j: usize = 0;
        while j < self.historical_connections.len()
            invariant
                all == self.all_conns(),
                self.all_conns().len() <= usize::MAX,
                live_len == self.connections@.len(),
                0 <= j <= self.historical_connections@.len(),
                ph_view_ok(
                    r@,
                    ph_keys(all.take(live_len + j), *filter, self.processes@),
                    all,
                    *filter,
                    self.processes@,
                    self.metrics.by_process_host@,
                    self.alive_pids@,
                ),
            decreases self.historical_connections@.len() - j,
        {
            proof {
                assert(all[live_len + j] == self.historical_connections@[j as int]);
            }
            let c = self.historical_connections[j].clone();
            self.ph_group_step(&c, filter, &mut r, Ghost(all), Ghost(live_len + j));
            j += 1;
        }
        proof {
            assert(all.take(all.len() as int) =~= all);
        }
        r
    }

    /// Processes one connection of the combined table for the process-host
    /// view.
    #[verifier::rlimit(100)]
    #[verifier::spinoff_prover]
    fn ph_group_step(
        &self,
        c: &Connection,
        filter: &ConnectionFilter,
        r: &mut Vec<ProcessHostMetrics>,
        Ghost(all): Ghost<Seq<Connection>>,
        Ghost(pos): Ghost<int>,
    )
        requires
            all == self.all_conns(),
            all.len() <= usize::MAX,
            0 <= pos < all.len(),
            *c == all[pos],
            ph_view_ok(
                old(r)@,
                ph_keys(all.take(pos), *filter, self.processes@),
                all,
                *filter,
                self.processes@,
                self.metrics.by_process_host@,
                self.alive_pids@,
            ),
        ensures
            ph_view_ok(
                final(r)@,
                ph_keys(all.take(pos + 1), *filter, self.processes@),
                all,
                *filter,
                self.processes@,
                self.metrics.by_process_host@,
                self.alive_pids@,
            ),
    {
        let ghost ks = ph_keys(all.take(pos), *filter, self.processes@);
        let ghost ks1 = ph_keys(all.take(pos + 1), *filter, self.processes@);
        proof {
            assert(all.take(pos + 1).drop_last() =~= all.take(pos));
            assert(all.take(pos + 1).last() == all[pos]);
        }
        let name = self.resolved_name_ref(c.pid);
        if !filter.matches_connection(c, name) {
            proof {
                assert(ks1 == ks);
            }
            return ;
        }
        let pid = c.pid;
        let host = self.host_string(c);
        let port = c.remote_port;
        let mut x: usize = 0;
        let mut found = false;
        while x < r.len() && !found
            invariant
                0 <= x <= r@.len(),
                !found ==> forall|y: int|
                    0 <= y < x ==> !((#[trigger] r@[y]).pid == pid && r@[y].host@ == host@
                        && r@[y].port == port),
                found ==> exists|y: int|
                    0 <= y < r@.len() && (#[trigger] r@[y]).pid == pid && r@[y].host@ == host@
                        && r@[y].port == port,
            decreases r@.len() - x, (if found { 0int } else { 1int }),
        {
            if r[x].pid == pid && r[x].port == port && string_eq(&r[x].host, &host) {
                found = true;
                proof {
                    assert((|y: int|
                        0 <= y < r@.len() && r@[y].pid == pid && r@[y].host@ == host@ && r@[y].port
                            == port)(x as int));
                }
            } else {
                x += 1;
            }
        }
        if found {
            proof {
                let y = choose|y: int|
                    0 <= y < r@.len() && (#[trigger] r@[y]).pid == pid && r@[y].host@ == host@
                        && r@[y].port == port;
                assert(ks[y] == (pid, host@, port));
                assert(key_in_ph(ks, (all[pos].pid, host_or_addr(all[pos]), all[pos].remote_port)))
                    by {
                    assert((|z: int| 0 <= z < ks.len() && ks[z] == (pid, host@, port))(y));
                }
                assert(ks1 == ks);
            }
            return ;
        }
        proof {
            assert(ph_view_ok(
                r@,
                ks,
                all,
                *filter,
                self.processes@,
                self.metrics.by_process_host@,
                self.alive_pids@,
            ));
            if key_in_ph(ks, (all[pos].pid, host_or_addr(all[pos]), all[pos].remote_port)) {
                let y = choose|y: int|
                    0 <= y < ks.len() && (#[trigger] ks[y]) == (
                    all[pos].pid,
                    host_or_addr(all[pos]),
                    all[pos].remote_port,
                );
                assert(ks[y].0 == pid && ks[y].1 == host@ && ks[y].2 == port);
                assert(r@[y].pid == ks[y].0 && r@[y].host@ == ks[y].1 && r@[y].port == ks[y].2);
                assert(false);
            }
            assert(ks1 == ks.push((pid, host@, port)));
        }
        let current = self.count_ph_group(filter, pid, &host, port, true);
        let total = self.count_ph_group(filter, pid, &host, port, false);
        let max_concurrent = self.ph_max_for(pid, &host, port);
        let process_name = self.exe_display_name_for(pid);
        let is_alive = contains_u32(&self.alive_pids, pid);
        let ghost r_old = r@;
        r.push(
            ProcessHostMetrics {
                pid,
                process_name,
                host,
                port,
                current_connections: current,
                total_connections: total,
                max_concurrent,
                is_alive,
            },
        );
        proof {
            assert forall|z: int| 0 <= z < ks1.len() implies (#[trigger] final(r)@[z]).pid
                == ks1[z].0 && final(r)@[z].host@ == ks1[z].1 && final(r)@[z].port == ks1[z].2
                && final(r)@[z].process_name@ == exe_display_name(self.processes@, ks1[z].0)
                && final(r)@[z].current_connections == count_where(
                all,
                pred_ph_group_open(*filter, self.processes@, ks1[z].0, ks1[z].1, ks1[z].2),
            ) && final(r)@[z].total_connections == count_where(
                all,
                pred_ph_group(*filter, self.processes@, ks1[z].0, ks1[z].1, ks1[z].2),
            ) && final(r)@[z].max_concurrent == ph_max(
                self.metrics.by_process_host@,
                ks1[z].0,
                ks1[z].1,
                ks1[z].2,
            ) && final(r)@[z].is_alive == self.alive_pids@.contains(ks1[z].0) by {
                if z < ks.len() {
                    assert(final(r)@[z] == r_old[z]);
                    assert(ks1[z] == ks[z]);
                }
            }
        }
    }
}

} // verus!
