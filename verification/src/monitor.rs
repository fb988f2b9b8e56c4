//! The connection registry: the authoritative table of live and historical
//! connections and of processes. It owns identity matching by natural key,
//! open/close lifecycle transitions, counter maintenance with running maxima,
//! and bounded history retention.

use vstd::prelude::*;
use crate::conn::{hostname_view, nat_key, Connection};
use crate::metrics::{
    close_host, close_ph, close_pid, count_where, find_host, find_mem, find_pid, find_ph,
    host_space_ok, lemma_count_app, lemma_count_implies, lemma_count_le_len, lemma_count_pos, lemma_count_push,
    lemma_count_remove, lemma_count_update, ph_space_ok, pid_entry_ok, pid_space_ok, host_entry_ok, ph_entry_ok,
    pred_host_all, pred_host_open, pred_ph_all, pred_ph_open, pred_pid_all, pred_pid_open,
    record_open_host, record_open_ph, record_open_pid, ConnectionMetrics, HISTORY_CAP,
};
use crate::process::{find_proc, Process};
use crate::snapshot::{entry_key, snapshot_has_key, snapshot_has_pid, ProcSnapshot, SocketEntry};

verus! {

/// The registry. One writer refreshes it from snapshots; readers derive
/// views between refreshes.
pub struct ConnectionMonitor {
    /// Live (non-closed) connections; natural keys are pairwise distinct.
    pub connections: Vec<Connection>,
    /// Closed connections, retained forever.
    pub historical_connections: Vec<Connection>,
    /// Process records, created on first successful metadata lookup.
    pub processes: Vec<Process>,
    /// Pids alive (non-terminal status) in the latest process snapshot.
    pub alive_pids: Vec<u32>,
    /// Timestamp of the latest refresh.
    pub last_refresh: u64,
    /// Next connection identifier to assign; identifiers are never reused.
    pub next_id: u64,
    /// Counter and history state.
    pub metrics: ConnectionMetrics,
}

impl ConnectionMonitor {
    /// Every connection ever tracked: live first, then historical.
    pub open spec fn all_conns(self) -> Seq<Connection> {
        self.connections@ + self.historical_connections@
    }

    /// Live connections are open and their natural keys pairwise distinct.
    pub open spec fn live_wf(self) -> bool {
        &&& (forall|i: int|
            0 <= i < self.connections@.len() ==> !(#[trigger] self.connections@[i]).closed)
        &&& (forall|i: int, j: int|
            0 <= i < j < self.connections@.len() ==> nat_key(self.connections@[i]) != nat_key(
                self.connections@[j],
            ))
    }

    /// Historical connections are closed.
    pub open spec fn hist_wf(self) -> bool {
        forall|i: int|
            0 <= i < self.historical_connections@.len() ==> (#[trigger] self.historical_connections@[i]).closed
    }

    /// Identifiers are below the allocation counter and pairwise distinct.
    pub open spec fn ids_wf(self) -> bool {
        &&& (forall|i: int|
            0 <= i < self.all_conns().len() ==> (#[trigger] self.all_conns()[i]).id < self.next_id)
        &&& (forall|i: int, j: int|
            0 <= i < j < self.all_conns().len() ==> self.all_conns()[i].id != self.all_conns()[j].id)
    }

    /// Every key space carries exact counts: current-concurrent equals the
    /// open-connection count and total equals the all-time count, with the
    /// running maximum at least the current value.
    pub open spec fn counters_wf(self) -> bool {
        &&& pid_space_ok(self.metrics.by_pid@, self.connections@, self.all_conns())
        &&& host_space_ok(self.metrics.by_host@, self.connections@, self.all_conns())
        &&& ph_space_ok(self.metrics.by_process_host@, self.connections@, self.all_conns())
    }

    /// Bounded retention: the poll-timestamp series is sorted, within the cap
    /// and never ahead of the last refresh; every memory series is within the
    /// cap.
    pub open spec fn history_wf(self) -> bool {
        &&& self.metrics.sample_timestamps@.len() <= HISTORY_CAP
        &&& (forall|i: int, j: int|
            0 <= i < j < self.metrics.sample_timestamps@.len()
                ==> self.metrics.sample_timestamps@[i] <= self.metrics.sample_timestamps@[j])
        &&& (forall|i: int|
            0 <= i < self.metrics.sample_timestamps@.len() ==> self.metrics.sample_timestamps@[i]
                <= self.last_refresh)
        &&& (forall|i: int|
            0 <= i < self.metrics.memory_history@.len()
                ==> (#[trigger] self.metrics.memory_history@[i]).samples@.len() <= HISTORY_CAP)
        &&& (forall|i: int|
            0 <= i < self.metrics.memory_history@.len() ==> crate::metrics::samples_sorted(
                (#[trigger] self.metrics.memory_history@[i]).samples@,
            ) && crate::metrics::samples_at_most(
                self.metrics.memory_history@[i].samples@,
                self.last_refresh,
            ))
    }

    /// The registry invariant, established by the constructor and preserved
    /// by every operation.
    pub open spec fn wf(self) -> bool {
        &&& self.live_wf()
        &&& self.hist_wf()
        &&& self.ids_wf()
        &&& self.counters_wf()
        &&& self.history_wf()
    }

    /// An empty registry; the first snapshot is reconciled by `refresh`.
    pub fn new() -> (r: ConnectionMonitor)
        ensures
            r.wf(),
            r.connections@ =~= Seq::<Connection>::empty(),
            r.historical_connections@ =~= Seq::<Connection>::empty(),
            r.processes@ =~= Seq::<Process>::empty(),
            r.alive_pids@ =~= Seq::<u32>::empty(),
            r.metrics.by_pid@.len() == 0,
            r.metrics.by_host@.len() == 0,
            r.metrics.by_process_host@.len() == 0,
            r.metrics.sample_timestamps@ =~= Seq::<u64>::empty(),
            r.metrics.memory_history@.len() == 0,
            r.last_refresh == 0,
            r.next_id == 0,
    {
        let r = ConnectionMonitor {
            connections: Vec::new(),
            historical_connections: Vec::new(),
            processes: Vec::new(),
            alive_pids: Vec::new(),
            last_refresh: 0,
            next_id: 0,
            metrics: ConnectionMetrics::empty(),
        };
        proof {
            lemma_empty_counters_ok(r);
        }
        r
    }

    /// Clears all connections, counters, histories and process records.
    /// Identifiers keep counting up so none is ever reused.
    pub fn reset(&mut self, now: u64)
        ensures
            final(self).wf(),
            final(self).connections@ =~= Seq::<Connection>::empty(),
            final(self).historical_connections@ =~= Seq::<Connection>::empty(),
            final(self).processes@ =~= Seq::<Process>::empty(),
            final(self).metrics.by_pid@.len() == 0,
            final(self).metrics.by_host@.len() == 0,
            final(self).metrics.by_process_host@.len() == 0,
            final(self).metrics.sample_timestamps@ =~= Seq::<u64>::empty(),
            final(self).metrics.memory_history@.len() == 0,
            final(self).next_id == old(self).next_id,
            final(self).alive_pids@ == old(self).alive_pids@,
            final(self).last_refresh == now,
    {
        self.connections = Vec::new();
        self.historical_connections = Vec::new();
        self.processes = Vec::new();
        self.metrics = ConnectionMetrics::empty();
        self.last_refresh = now;
        proof {
            lemma_empty_counters_ok(*self);
        }
    }

    /// Index of the live connection carrying the entry's natural key, if any.
    fn find_live_index(&self, entry: &SocketEntry) -> (r: Option<usize>)
        ensures
            match r {
                Some(i) => i < self.connections@.len() && nat_key(self.connections@[i as int])
                    == entry_key(*entry),
                None => forall|i: int|
                    0 <= i < self.connections@.len() ==> nat_key(#[trigger] self.connections@[i])
                        != entry_key(*entry),
            },
    {
        let mut i: usize = 0;
        while i < self.connections.len()
            invariant
                0 <= i <= self.connections@.len(),
                forall|j: int|
                    0 <= j < i ==> nat_key(#[trigger] self.connections@[j]) != entry_key(*entry),
            decreases self.connections@.len() - i,
        {
            let c = &self.connections[i];
            if c.pid == entry.pid && c.local_port == entry.local_port && c.remote_port
                == entry.remote_port && crate::metrics::string_eq(&c.remote_addr, &entry.remote_addr)
            {
                return Some(i);
            }
            i += 1;
        }
        None
    }

    /// The live connections, in registry order. All of them are open.
    pub fn get_active_connections(&self) -> (r: Vec<Connection>)
        ensures
            r@ == self.connections@,
    {
        copy_conns(&self.connections)
    }

    /// The closed connections, oldest first.
    pub fn get_historical_connections(&self) -> (r: &Vec<Connection>)
        ensures
            r@ == self.historical_connections@,
    {
        &self.historical_connections
    }

    /// The process record for `pid`, if one was ever created.
    pub fn get_process(&self, pid: u32) -> (r: Option<&Process>)
        ensures
            match r {
                Some(p) => find_proc(self.processes@, pid) == Some(*p),
                None => find_proc(self.processes@, pid) is None,
            },
    {
        match crate::process::find_proc_index(&self.processes, pid) {
            Some(i) => Some(&self.processes[i]),
            None => None,
        }
    }

    /// All process records, in registry order.
    pub fn get_processes(&self) -> (r: Vec<Process>)
        ensures
            r@ == self.processes@,
    {
        let mut r: Vec<Process> = Vec::new();
        let mut i: usize = 0;
        while i < self.processes.len()
            invariant
                0 <= i <= self.processes@.len(),
                r@ == self.processes@.take(i as int),
            decreases self.processes@.len() - i,
        {
            r.push(self.processes[i].clone());
            proof {
                assert(self.processes@.take(i + 1) =~= self.processes@.take(i as int).push(
                    self.processes@[i as int],
                ));
            }
            i += 1;
        }
        proof {
            assert(self.processes@.take(self.processes@.len() as int) =~= self.processes@);
        }
        r
    }
}

/// Copies a connection vector element by element.
pub fn copy_conns(v: &Vec<Connection>) -> (r: Vec<Connection>)
    ensures
        r@ == v@,
{
    let mut r: Vec<Connection> = Vec::new();
    let mut i: usize = 0;
    while i < v.len()
        invariant
            0 <= i <= v@.len(),
            r@ == v@.take(i as int),
        decreases v@.len() - i,
    {
        r.push(v[i].clone());
        proof {
            assert(v@.take(i + 1) =~= v@.take(i as int).push(v@[i as int]));
        }
        i += 1;
    }
    proof {
        assert(v@.take(v@.len() as int) =~= v@);
    }
    r
}

/// Whether `x` occurs in `v`.
pub fn contains_u64(v: &Vec<u64>, x: u64) -> (r: bool)
    ensures
        r == v@.contains(x),
{
    let mut i: usize = 0;
    while i < v.len()
        invariant
            0 <= i <= v@.len(),
            forall|j: int| 0 <= j < i ==> v@[j] != x,
        decreases v@.len() - i,
    {
        if v[i] == x {
            return true;
        }
        i += 1;
    }
    false
}

/// Whether `x` occurs in `v`.
pub fn contains_u32(v: &Vec<u32>, x: u32) -> (r: bool)
    ensures
        r == v@.contains(x),
{
    let mut i: usize = 0;
    while i < v.len()
        invariant
            0 <= i <= v@.len(),
            forall|j: int| 0 <= j < i ==> v@[j] != x,
        decreases v@.len() - i,
    {
        if v[i] == x {
            return true;
        }
        i += 1;
    }
    false
}

/// With no connections at all, empty counter maps are consistent.
proof fn lemma_empty_counters_ok(m: ConnectionMonitor)
    requires
        m.connections@.len() == 0,
        m.historical_connections@.len() == 0,
        m.metrics.by_pid@.len() == 0,
        m.metrics.by_host@.len() == 0,
        m.metrics.by_process_host@.len() == 0,
    ensures
        m.counters_wf(),
{
    assert(m.all_conns() =~= Seq::<Connection>::empty());
    assert forall|p: u32| #[trigger]
        pid_entry_ok(m.metrics.by_pid@, m.connections@, m.all_conns(), p) by {
        assert(count_where(m.all_conns(), pred_pid_all(p)) == 0);
    }
    assert forall|h: Seq<char>, port: u16| #[trigger]
        host_entry_ok(m.metrics.by_host@, m.connections@, m.all_conns(), h, port) by {
        assert(count_where(m.all_conns(), pred_host_all(h, port)) == 0);
    }
    assert forall|pid: u32, h: Seq<char>, port: u16| #[trigger]
        ph_entry_ok(m.metrics.by_process_host@, m.connections@, m.all_conns(), pid, h, port) by {
        assert(count_where(m.all_conns(), pred_ph_all(pid, h, port)) == 0);
    }
}


/// The closed copy of a connection at time `now`.
pub open spec fn closed_version(c: Connection, now: u64) -> Connection {
    Connection { closed: true, last_seen: now, ..c }
}

/// Identity fields that persist across a re-observation: everything but the
/// TCP state and the last-seen time.
pub open spec fn same_flow(o: Connection, n: Connection) -> bool {
    &&& n.id == o.id
    &&& n.pid == o.pid
    &&& n.local_port == o.local_port
    &&& n.remote_port == o.remote_port
    &&& n.remote_addr == o.remote_addr
    &&& n.remote_hostname == o.remote_hostname
    &&& n.first_seen == o.first_seen
    &&& !n.closed
}

/// The elements of `s` whose id occurs in `seen`, in order.
pub open spec fn kept_conns(s: Seq<Connection>, seen: Seq<u64>) -> Seq<Connection>
    decreases s.len(),
{
    if s.len() == 0 {
        Seq::empty()
    } else {
        let rest = kept_conns(s.drop_last(), seen);
        if seen.contains(s.last().id) {
            rest.push(s.last())
        } else {
            rest
        }
    }
}

/// Pushing onto a sequence extends what it contains by exactly that element.
pub proof fn lemma_push_contains(s: Seq<u64>, x: u64, y: u64)
    ensures
        s.push(x).contains(y) == (s.contains(y) || x == y),
{
    if s.contains(y) {
        let w = choose|w: int| 0 <= w < s.len() && s[w] == y;
        assert(s.push(x)[w] == y);
    }
    if x == y {
        assert(s.push(x)[s.len() as int] == y);
    }
    if s.push(x).contains(y) {
        let w = choose|w: int| 0 <= w < s.push(x).len() && s.push(x)[w] == y;
        if w < s.len() {
            assert(s[w] == y);
        }
    }
}

impl ConnectionMonitor {
    /// Reconciles one socket entry against the live table: a live connection
    /// with the entry's natural key is re-observed (TCP state and last-seen
    /// updated, nothing counted); otherwise a new connection is created under
    /// a fresh id and counted under its pid key and, when a hostname was
    /// resolved, its host and process-host keys. Either way the connection's
    /// id is marked seen.
    #[verifier::rlimit(100)]
    #[verifier::spinoff_prover]
    fn apply_entry(&mut self, entry: &SocketEntry, now: u64, seen: &mut Vec<u64>)
        requires
            old(self).wf(),
            old(self).all_conns().len() < usize::MAX,
            old(self).next_id < u64::MAX,
        ensures
            final(self).wf(),
            final(self).historical_connections@ == old(self).historical_connections@,
            final(self).processes@ == old(self).processes@,
            final(self).alive_pids@ == old(self).alive_pids@,
            final(self).last_refresh == old(self).last_refresh,
            final(self).metrics.sample_timestamps@ == old(self).metrics.sample_timestamps@,
            final(self).metrics.memory_history@ == old(self).metrics.memory_history@,
            crate::metrics::counters_monotone(old(self).metrics, final(self).metrics),
            crate::metrics::counters_opened_step(old(self).metrics, final(self).metrics),
            ({
                // re-observed: the key was already live at index i
                exists|i: int|
                    {
                        &&& 0 <= i < old(self).connections@.len()
                        &&& nat_key(#[trigger] old(self).connections@[i]) == entry_key(*entry)
                        &&& final(self).connections@ == old(self).connections@.update(
                            i,
                            Connection {
                                state: entry.state,
                                last_seen: now,
                                ..old(self).connections@[i]
                            },
                        )
                        &&& final(seen)@ == old(seen)@.push(old(self).connections@[i].id)
                        &&& final(self).next_id == old(self).next_id
                        &&& final(self).metrics.by_pid@ == old(self).metrics.by_pid@
                        &&& final(self).metrics.by_host@ == old(self).metrics.by_host@
                        &&& final(self).metrics.by_process_host@ == old(self).metrics.by_process_host@
                    }
            } || {
                // newly created: no live connection carried the key
                &&& (forall|i: int|
                    0 <= i < old(self).connections@.len() ==> nat_key(
                        #[trigger] old(self).connections@[i],
                    ) != entry_key(*entry))
                &&& final(self).connections@.len() == old(self).connections@.len() + 1
                &&& final(self).connections@.drop_last() == old(self).connections@
                &&& nat_key(final(self).connections@.last()) == entry_key(*entry)
                &&& final(self).connections@.last().id == old(self).next_id
                &&& final(self).connections@.last().remote_hostname == entry.remote_hostname
                &&& final(self).connections@.last().state == entry.state
                &&& final(self).connections@.last().first_seen == now
                &&& final(self).connections@.last().last_seen == now
                &&& !final(self).connections@.last().closed
                &&& final(seen)@ == old(seen)@.push(old(self).next_id)
                &&& final(self).next_id == old(self).next_id + 1
            }),
    {
        let ghost live0 = self.connections@;
        let ghost hist0 = self.historical_connections@;
        let ghost all0 = self.all_conns();
        match self.find_live_index(entry) {
            Some(i) => {
                let id = self.connections[i].id;
                seen.push(id);
                let mut c = self.connections[i].clone();
                c.update_state(entry.state, now);
                let ghost cnew = c;
                self.connections[i] = c;
                proof {
                    let livef = self.connections@;
                    let allf = self.all_conns();
                    assert(allf =~= all0.update(i as int, cnew));
                    assert forall|p: u32| #[trigger]
                        pid_entry_ok(self.metrics.by_pid@, livef, allf, p) by {
                        assert(pid_entry_ok(self.metrics.by_pid@, live0, all0, p));
                        lemma_count_update(live0, i as int, cnew, pred_pid_open(p));
                        lemma_count_update(live0, i as int, cnew, pred_pid_all(p));
                        lemma_count_update(all0, i as int, cnew, pred_pid_all(p));
                    }
                    assert forall|h: Seq<char>, port: u16| #[trigger]
                        host_entry_ok(self.metrics.by_host@, livef, allf, h, port) by {
                        assert(host_entry_ok(self.metrics.by_host@, live0, all0, h, port));
                        lemma_count_update(live0, i as int, cnew, pred_host_open(h, port));
                        lemma_count_update(live0, i as int, cnew, pred_host_all(h, port));
                        lemma_count_update(all0, i as int, cnew, pred_host_all(h, port));
                    }
                    assert forall|pid: u32, h: Seq<char>, port: u16| #[trigger]
                        ph_entry_ok(self.metrics.by_process_host@, livef, allf, pid, h, port) by {
                        assert(ph_entry_ok(self.metrics.by_process_host@, live0, all0, pid, h, port));
                        lemma_count_update(live0, i as int, cnew, pred_ph_open(pid, h, port));
                        lemma_count_update(live0, i as int, cnew, pred_ph_all(pid, h, port));
                        lemma_count_update(all0, i as int, cnew, pred_ph_all(pid, h, port));
                    }
                    assert forall|x: int|
                        0 <= x < livef.len() implies nat_key(#[trigger] livef[x]) == nat_key(
                        live0[x],
                    ) && livef[x].closed == live0[x].closed by {}
                    assert forall|x: int, y: int|
                        0 <= x < y < livef.len() implies nat_key(livef[x]) != nat_key(
                        livef[y],
                    ) by {
                        assert(nat_key(live0[x]) != nat_key(live0[y]));
                    }
                    assert(self.live_wf());
                    assert(cnew.id == all0[i as int].id);
                    assert forall|x: int| 0 <= x < allf.len() implies (#[trigger] allf[x]).id
                        == all0[x].id by {}
                    assert forall|x: int, y: int|
                        0 <= x < y < allf.len() implies allf[x].id != allf[y].id by {
                        assert(all0[x].id != all0[y].id);
                    }
                    assert(self.wf());
                    crate::metrics::lemma_counters_monotone_refl(self.metrics);
                    crate::metrics::lemma_steps_same_maps(old(self).metrics, self.metrics);
                }
            },
            None => {
                let id = self.next_id;
                self.next_id = self.next_id + 1;
                seen.push(id);
                let hostname: Option<String> = match &entry.remote_hostname {
                    Some(h) => Some(h.clone()),
                    None => None,
                };
                let c = Connection::new(
                    id,
                    entry.pid,
                    entry.local_port,
                    entry.remote_port,
                    entry.remote_addr.clone(),
                    hostname,
                    entry.state,
                    now,
                );
                let ghost cnew = c;
                proof {
                    lemma_count_le_len(all0, pred_pid_all(entry.pid));
                    assert(pid_entry_ok(self.metrics.by_pid@, live0, all0, entry.pid));
                    lemma_count_app(live0, hist0, pred_pid_all(entry.pid));
                    lemma_count_le_len(live0, pred_pid_open(entry.pid));
                }
                record_open_pid(&mut self.metrics.by_pid, entry.pid);
                if let Some(h) = &entry.remote_hostname {
                    proof {
                        lemma_count_le_len(all0, pred_host_all(h@, entry.remote_port));
                        assert(host_entry_ok(
                            self.metrics.by_host@,
                            live0,
                            all0,
                            h@,
                            entry.remote_port,
                        ));
                        lemma_count_le_len(live0, pred_host_open(h@, entry.remote_port));
                        lemma_count_le_len(all0, pred_ph_all(entry.pid, h@, entry.remote_port));
                        assert(ph_entry_ok(
                            self.metrics.by_process_host@,
                            live0,
                            all0,
                            entry.pid,
                            h@,
                            entry.remote_port,
                        ));
                        lemma_count_le_len(live0, pred_ph_open(entry.pid, h@, entry.remote_port));
                    }
                    record_open_host(&mut self.metrics.by_host, h, entry.remote_port);
                    record_open_ph(&mut self.metrics.by_process_host, entry.pid, h, entry.remote_port);
                }
                self.connections.push(c);
                proof {
                    let livef = self.connections@;
                    let histf = self.historical_connections@;
                    let allf = self.all_conns();
                    assert(livef == live0.push(cnew));
                    assert(livef.drop_last() =~= live0);
                    // index map from the new combined sequence to the old one
                    assert forall|x: int| 0 <= x < allf.len() implies #[trigger] allf[x] == (if x
                        < live0.len() {
                        all0[x]
                    } else if x == live0.len() {
                        cnew
                    } else {
                        all0[x - 1]
                    }) by {}
                    // counts over the new sequences
                    assert forall|p: u32| #[trigger]
                        pid_entry_ok(self.metrics.by_pid@, livef, allf, p) by {
                        assert(pid_entry_ok(old(self).metrics.by_pid@, live0, all0, p));
                        lemma_count_push(live0, pred_pid_open(p), cnew);
                        lemma_count_push(live0, pred_pid_all(p), cnew);
                        lemma_count_app(live0, hist0, pred_pid_open(p));
                        lemma_count_app(live0, hist0, pred_pid_all(p));
                        lemma_count_app(livef, hist0, pred_pid_open(p));
                        lemma_count_app(livef, hist0, pred_pid_all(p));
                        if p != entry.pid {
                            assert(find_pid(self.metrics.by_pid@, p) == find_pid(
                                old(self).metrics.by_pid@,
                                p,
                            ));
                        } else {
                            lemma_count_implies(live0, pred_pid_open(p), pred_pid_all(p));
                        }
                    }
                    assert forall|h2: Seq<char>, p2: u16| #[trigger]
                        host_entry_ok(self.metrics.by_host@, livef, allf, h2, p2) by {
                        assert(host_entry_ok(old(self).metrics.by_host@, live0, all0, h2, p2));
                        lemma_count_push(live0, pred_host_open(h2, p2), cnew);
                        lemma_count_push(live0, pred_host_all(h2, p2), cnew);
                        lemma_count_app(live0, hist0, pred_host_open(h2, p2));
                        lemma_count_app(live0, hist0, pred_host_all(h2, p2));
                        lemma_count_app(livef, hist0, pred_host_open(h2, p2));
                        lemma_count_app(livef, hist0, pred_host_all(h2, p2));
                        match entry.remote_hostname {
                            Some(h) => {
                                if h2 == h@ && p2 == entry.remote_port {
                                    lemma_count_implies(
                                        live0,
                                        pred_host_open(h2, p2),
                                        pred_host_all(h2, p2),
                                    );
                                } else {
                                    assert(find_host(self.metrics.by_host@, h2, p2) == find_host(
                                        old(self).metrics.by_host@,
                                        h2,
                                        p2,
                                    ));
                                }
                            },
                            None => {
                                assert(find_host(self.metrics.by_host@, h2, p2) == find_host(
                                    old(self).metrics.by_host@,
                                    h2,
                                    p2,
                                ));
                            },
                        }
                    }
                    assert forall|q: u32, h2: Seq<char>, p2: u16| #[trigger]
                        ph_entry_ok(self.metrics.by_process_host@, livef, allf, q, h2, p2) by {
                        assert(ph_entry_ok(old(self).metrics.by_process_host@, live0, all0, q, h2, p2));
                        lemma_count_push(live0, pred_ph_open(q, h2, p2), cnew);
                        lemma_count_push(live0, pred_ph_all(q, h2, p2), cnew);
                        lemma_count_app(live0, hist0, pred_ph_open(q, h2, p2));
                        lemma_count_app(live0, hist0, pred_ph_all(q, h2, p2));
                        lemma_count_app(livef, hist0, pred_ph_open(q, h2, p2));
                        lemma_count_app(livef, hist0, pred_ph_all(q, h2, p2));
                        match entry.remote_hostname {
                            Some(h) => {
                                if q == entry.pid && h2 == h@ && p2 == entry.remote_port {
                                    lemma_count_implies(
                                        live0,
                                        pred_ph_open(q, h2, p2),
                                        pred_ph_all(q, h2, p2),
                                    );
                                } else {
                                    assert(find_ph(self.metrics.by_process_host@, q, h2, p2)
                                        == find_ph(old(self).metrics.by_process_host@, q, h2, p2));
                                }
                            },
                            None => {
                                assert(find_ph(self.metrics.by_process_host@, q, h2, p2) == find_ph(
                                    old(self).metrics.by_process_host@,
                                    q,
                                    h2,
                                    p2,
                                ));
                            },
                        }
                    }
                    // live keys stay pairwise distinct: the new key was absent
                    assert forall|x: int, y: int|
                        0 <= x < y < livef.len() implies nat_key(livef[x]) != nat_key(
                        livef[y],
                    ) by {
                        if y == livef.len() - 1 {
                            assert(nat_key(live0[x]) != entry_key(*entry));
                        }
                    }
                    // ids stay pairwise distinct and below the counter
                    assert forall|x: int, y: int|
                        0 <= x < y < allf.len() implies allf[x].id != allf[y].id by {
                        if y == live0.len() {
                            assert(allf[x].id == all0[x].id && all0[x].id < cnew.id);
                        } else if x == live0.len() {
                            assert(allf[y].id == all0[y - 1].id && all0[y - 1].id < cnew.id);
                        } else if x < live0.len() && y > live0.len() {
                            assert(all0[x].id != all0[y - 1].id);
                        } else if x < live0.len() && y < live0.len() {
                            assert(all0[x].id != all0[y].id);
                        } else {
                            assert(all0[x - 1].id != all0[y - 1].id);
                        }
                    }
                    assert forall|x: int| 0 <= x < allf.len() implies (#[trigger] allf[x]).id
                        < self.next_id by {
                        if x < live0.len() {
                            assert(all0[x].id < old(self).next_id);
                        } else if x > live0.len() {
                            assert(all0[x - 1].id < old(self).next_id);
                        }
                    }
                    assert(self.wf());
                    crate::metrics::lemma_open_monotone(
                        old(self).metrics,
                        self.metrics,
                        entry.pid,
                        crate::snapshot::entry_hostname_view(*entry),
                        entry.remote_port,
                    );
                    crate::metrics::lemma_opened_step_from_records(
                        old(self).metrics,
                        self.metrics,
                        entry.pid,
                        crate::snapshot::entry_hostname_view(*entry),
                        entry.remote_port,
                    );
                }
            },
        }
    }
}


/// After closing the open connection at `j` (moving its closed copy to the
/// history) and decrementing its pid entry, the pid space is consistent again.
#[verifier::spinoff_prover]
proof fn lemma_close_pid_space(
    by_a: Seq<crate::metrics::PidCounters>,
    by_f: Seq<crate::metrics::PidCounters>,
    live_a: Seq<Connection>,
    hist_a: Seq<Connection>,
    j: int,
    ccg: Connection,
)
    requires
        0 <= j < live_a.len(),
        !live_a[j].closed,
        ccg.pid == live_a[j].pid,
        ccg.closed,
        pid_space_ok(by_a, live_a, live_a + hist_a),
        ({
            let e = find_pid(by_a, live_a[j].pid)->Some_0;
            find_pid(by_a, live_a[j].pid) is Some && e.current >= 1 && find_pid(by_f, live_a[j].pid)
                == Some(
                crate::metrics::PidCounters { current: (e.current - 1) as usize, ..e },
            )
        }),
        forall|q: u32| q != live_a[j].pid ==> find_pid(by_f, q) == find_pid(by_a, q),
    ensures
        pid_space_ok(by_f, live_a.remove(j), live_a.remove(j) + hist_a.push(ccg)),
{
    let livef = live_a.remove(j);
    let allf = livef + hist_a.push(ccg);
    let all_a = live_a + hist_a;
    assert forall|p: u32| #[trigger] pid_entry_ok(by_f, livef, allf, p) by {
        assert(pid_entry_ok(by_a, live_a, all_a, p));
        lemma_count_remove(live_a, pred_pid_open(p), j);
        lemma_count_remove(live_a, pred_pid_all(p), j);
        lemma_count_push(hist_a, pred_pid_all(p), ccg);
        lemma_count_app(live_a, hist_a, pred_pid_all(p));
        lemma_count_app(livef, hist_a.push(ccg), pred_pid_all(p));
        if p != live_a[j].pid {
            assert(find_pid(by_f, p) == find_pid(by_a, p));
        }
    }
}

/// The host-space analogue of `lemma_close_pid_space`; when the closed
/// connection had no hostname, the host map is unchanged and no host count
/// moves.
#[verifier::spinoff_prover]
proof fn lemma_close_host_space(
    by_a: Seq<crate::metrics::HostCounters>,
    by_f: Seq<crate::metrics::HostCounters>,
    live_a: Seq<Connection>,
    hist_a: Seq<Connection>,
    j: int,
    ccg: Connection,
)
    requires
        0 <= j < live_a.len(),
        !live_a[j].closed,
        ccg.remote_hostname == live_a[j].remote_hostname,
        ccg.remote_port == live_a[j].remote_port,
        ccg.closed,
        host_space_ok(by_a, live_a, live_a + hist_a),
        match live_a[j].remote_hostname {
            Some(h) => ({
                let e = find_host(by_a, h@, live_a[j].remote_port)->Some_0;
                find_host(by_a, h@, live_a[j].remote_port) is Some && e.current >= 1 && find_host(
                    by_f,
                    h@,
                    live_a[j].remote_port,
                ) is Some && ({
                    let f = find_host(by_f, h@, live_a[j].remote_port)->Some_0;
                    f.host@ == h@ && f.port == live_a[j].remote_port && f.total == e.total
                        && f.current == e.current - 1 && f.max == e.max
                }) && forall|h2: Seq<char>, p2: u16|
                    !(h2 == h@ && p2 == live_a[j].remote_port) ==> find_host(by_f, h2, p2)
                        == find_host(by_a, h2, p2)
            }),
            None => by_f == by_a,
        },
    ensures
        host_space_ok(by_f, live_a.remove(j), live_a.remove(j) + hist_a.push(ccg)),
{
    let livef = live_a.remove(j);
    let allf = livef + hist_a.push(ccg);
    let all_a = live_a + hist_a;
    assert forall|h2: Seq<char>, p2: u16| #[trigger] host_entry_ok(by_f, livef, allf, h2, p2) by {
        assert(host_entry_ok(by_a, live_a, all_a, h2, p2));
        lemma_count_remove(live_a, pred_host_open(h2, p2), j);
        lemma_count_remove(live_a, pred_host_all(h2, p2), j);
        lemma_count_push(hist_a, pred_host_all(h2, p2), ccg);
        lemma_count_app(live_a, hist_a, pred_host_all(h2, p2));
        lemma_count_app(livef, hist_a.push(ccg), pred_host_all(h2, p2));
        match live_a[j].remote_hostname {
            Some(h) => {
                if !(h2 == h@ && p2 == live_a[j].remote_port) {
                    assert(find_host(by_f, h2, p2) == find_host(by_a, h2, p2));
                }
            },
            None => {},
        }
    }
}

/// The process-host-space analogue of `lemma_close_pid_space`.
#[verifier::spinoff_prover]
proof fn lemma_close_ph_space(
    by_a: Seq<crate::metrics::ProcessHostCounters>,
    by_f: Seq<crate::metrics::ProcessHostCounters>,
    live_a: Seq<Connection>,
    hist_a: Seq<Connection>,
    j: int,
    ccg: Connection,
)
    requires
        0 <= j < live_a.len(),
        !live_a[j].closed,
        ccg.pid == live_a[j].pid,
        ccg.remote_hostname == live_a[j].remote_hostname,
        ccg.remote_port == live_a[j].remote_port,
        ccg.closed,
        ph_space_ok(by_a, live_a, live_a + hist_a),
        match live_a[j].remote_hostname {
            Some(h) => ({
                let e = find_ph(by_a, live_a[j].pid, h@, live_a[j].remote_port)->Some_0;
                find_ph(by_a, live_a[j].pid, h@, live_a[j].remote_port) is Some && e.current >= 1
                    && find_ph(by_f, live_a[j].pid, h@, live_a[j].remote_port) is Some && ({
                    let f = find_ph(by_f, live_a[j].pid, h@, live_a[j].remote_port)->Some_0;
                    f.pid == live_a[j].pid && f.host@ == h@ && f.port == live_a[j].remote_port
                        && f.total == e.total && f.current == e.current - 1 && f.max == e.max
                }) && forall|q: u32, h2: Seq<char>, p2: u16|
                    !(q == live_a[j].pid && h2 == h@ && p2 == live_a[j].remote_port) ==> find_ph(
                        by_f,
                        q,
                        h2,
                        p2,
                    ) == find_ph(by_a, q, h2, p2)
            }),
            None => by_f == by_a,
        },
    ensures
        ph_space_ok(by_f, live_a.remove(j), live_a.remove(j) + hist_a.push(ccg)),
{
    let livef = live_a.remove(j);
    let allf = livef + hist_a.push(ccg);
    let all_a = live_a + hist_a;
    assert forall|q: u32, h2: Seq<char>, p2: u16| #[trigger]
        ph_entry_ok(by_f, livef, allf, q, h2, p2) by {
        assert(ph_entry_ok(by_a, live_a, all_a, q, h2, p2));
        lemma_count_remove(live_a, pred_ph_open(q, h2, p2), j);
        lemma_count_remove(live_a, pred_ph_all(q, h2, p2), j);
        lemma_count_push(hist_a, pred_ph_all(q, h2, p2), ccg);
        lemma_count_app(live_a, hist_a, pred_ph_all(q, h2, p2));
        lemma_count_app(livef, hist_a.push(ccg), pred_ph_all(q, h2, p2));
        match live_a[j].remote_hostname {
            Some(h) => {
                if !(q == live_a[j].pid && h2 == h@ && p2 == live_a[j].remote_port) {
                    assert(find_ph(by_f, q, h2, p2) == find_ph(by_a, q, h2, p2));
                }
            },
            None => {},
        }
    }
}

/// Moving the connection at `j` (under the same id) from the live table to
/// the end of the history keeps ids pairwise distinct, below the counter,
/// live keys pairwise distinct, and live connections open.
#[verifier::spinoff_prover]
proof fn lemma_close_shape(
    live_a: Seq<Connection>,
    hist_a: Seq<Connection>,
    j: int,
    ccg: Connection,
    next_id: u64,
)
    requires
        0 <= j < live_a.len(),
        ccg.id == live_a[j].id,
        forall|i: int| 0 <= i < live_a.len() ==> !(#[trigger] live_a[i]).closed,
        forall|x: int, y: int|
            0 <= x < y < live_a.len() ==> nat_key(live_a[x]) != nat_key(live_a[y]),
        forall|x: int|
            0 <= x < (live_a + hist_a).len() ==> (#[trigger] (live_a + hist_a)[x]).id < next_id,
        forall|x: int, y: int|
            0 <= x < y < (live_a + hist_a).len() ==> (live_a + hist_a)[x].id != (live_a
                + hist_a)[y].id,
    ensures
        forall|i: int|
            0 <= i < live_a.remove(j).len() ==> !(#[trigger] live_a.remove(j)[i]).closed,
        forall|x: int, y: int|
            0 <= x < y < live_a.remove(j).len() ==> nat_key(live_a.remove(j)[x]) != nat_key(
                live_a.remove(j)[y],
            ),
        forall|x: int|
            0 <= x < (live_a.remove(j) + hist_a.push(ccg)).len() ==> (#[trigger] (live_a.remove(j)
                + hist_a.push(ccg))[x]).id < next_id,
        forall|x: int, y: int|
            0 <= x < y < (live_a.remove(j) + hist_a.push(ccg)).len() ==> (live_a.remove(j)
                + hist_a.push(ccg))[x].id != (live_a.remove(j) + hist_a.push(ccg))[y].id,
{
    let livef = live_a.remove(j);
    let histf = hist_a.push(ccg);
    let allf = livef + histf;
    let all_a = live_a + hist_a;
    assert forall|x: int, y: int|
        0 <= x < y < livef.len() implies nat_key(livef[x]) != nat_key(livef[y]) by {
        let x0: int = if x < j {
            x
        } else {
            x + 1
        };
        let y0: int = if y < j {
            y
        } else {
            y + 1
        };
        assert(livef[x] == live_a[x0] && livef[y] == live_a[y0]);
        assert(nat_key(live_a[x0]) != nat_key(live_a[y0]));
    }
    assert forall|x: int| 0 <= x < allf.len() implies (#[trigger] allf[x]).id == (if x < j {
        all_a[x].id
    } else if x < allf.len() - 1 {
        all_a[x + 1].id
    } else {
        all_a[j].id
    }) by {
        if x < livef.len() {
            assert(allf[x] == livef[x]);
            if x < j {
                assert(livef[x] == live_a[x] && all_a[x] == live_a[x]);
            } else {
                assert(livef[x] == live_a[x + 1] && all_a[x + 1] == live_a[x + 1]);
            }
        } else if x < allf.len() - 1 {
            assert(allf[x] == histf[x - livef.len()]);
            assert(histf[x - livef.len()] == hist_a[x - livef.len()]);
            assert(all_a[x + 1] == hist_a[x + 1 - live_a.len()]);
        } else {
            assert(allf[x] == ccg);
            assert(all_a[j] == live_a[j]);
        }
    }
    assert forall|x: int, y: int|
        0 <= x < y < allf.len() implies allf[x].id != allf[y].id by {
        let x0: int = if x < j {
            x
        } else if x < allf.len() - 1 {
            x + 1
        } else {
            j
        };
        let y0: int = if y < j {
            y
        } else if y < allf.len() - 1 {
            y + 1
        } else {
            j
        };
        assert(allf[x].id == all_a[x0].id && allf[y].id == all_a[y0].id);
        assert(x0 != y0);
        if x0 < y0 {
            assert(all_a[x0].id != all_a[y0].id);
        } else {
            assert(all_a[y0].id != all_a[x0].id);
        }
    }
    assert forall|x: int| 0 <= x < allf.len() implies (#[trigger] allf[x]).id < next_id by {
        if x < j {
            assert(all_a[x].id < next_id);
        } else if x < allf.len() - 1 {
            assert(all_a[x + 1].id < next_id);
        } else {
            assert(all_a[j].id < next_id);
        }
    }
}


impl ConnectionMonitor {
    /// Closes the live connection at index `j`: it is marked closed with
    /// last-seen `now`, its counters are decremented (its host keys only when
    /// it had a resolved hostname), and it moves to the historical list.
    #[verifier::rlimit(100)]
    #[verifier::spinoff_prover]
    fn close_one(&mut self, j: usize, now: u64)
        requires
            old(self).wf(),
            j < old(self).connections@.len(),
        ensures
            final(self).wf(),
            final(self).processes@ == old(self).processes@,
            final(self).alive_pids@ == old(self).alive_pids@,
            final(self).last_refresh == old(self).last_refresh,
            final(self).next_id == old(self).next_id,
            final(self).metrics.sample_timestamps@ == old(self).metrics.sample_timestamps@,
            final(self).metrics.memory_history@ == old(self).metrics.memory_history@,
            crate::metrics::counters_monotone(old(self).metrics, final(self).metrics),
            crate::metrics::counters_closed_step(old(self).metrics, final(self).metrics),
            final(self).connections@ == old(self).connections@.remove(j as int),
            final(self).historical_connections@ == old(self).historical_connections@.push(
                closed_version(old(self).connections@[j as int], now),
            ),
    {
        let ghost live_a = self.connections@;
        let ghost hist_a = self.historical_connections@;
        let ghost all_a = self.all_conns();
        let ghost by_pid_a = self.metrics.by_pid@;
        let ghost by_host_a = self.metrics.by_host@;
        let ghost by_ph_a = self.metrics.by_process_host@;
        let mut cc = self.connections[j].clone();
        cc.mark_closed(now);
        let ghost ccg = cc;
        let c = self.connections.remove(j);
        proof {
            assert(ccg == closed_version(live_a[j as int], now));
            lemma_count_pos(live_a, pred_pid_open(c.pid), j as int);
            lemma_count_pos(all_a, pred_pid_all(c.pid), j as int);
            assert(pid_entry_ok(by_pid_a, live_a, all_a, c.pid));
        }
        close_pid(&mut self.metrics.by_pid, c.pid);
        if let Some(h) = &c.remote_hostname {
            proof {
                lemma_count_pos(live_a, pred_host_open(h@, c.remote_port), j as int);
                lemma_count_pos(all_a, pred_host_all(h@, c.remote_port), j as int);
                assert(host_entry_ok(by_host_a, live_a, all_a, h@, c.remote_port));
                lemma_count_pos(live_a, pred_ph_open(c.pid, h@, c.remote_port), j as int);
                lemma_count_pos(all_a, pred_ph_all(c.pid, h@, c.remote_port), j as int);
                assert(ph_entry_ok(by_ph_a, live_a, all_a, c.pid, h@, c.remote_port));
            }
            close_host(&mut self.metrics.by_host, h, c.remote_port);
            close_ph(&mut self.metrics.by_process_host, c.pid, h, c.remote_port);
        }
        self.historical_connections.push(cc);
        proof {
            let livef = self.connections@;
            let histf = self.historical_connections@;
            let cg = live_a[j as int];
            assert(livef == live_a.remove(j as int));
            assert(histf == hist_a.push(ccg));
            lemma_close_pid_space(by_pid_a, self.metrics.by_pid@, live_a, hist_a, j as int, ccg);
            lemma_close_host_space(by_host_a, self.metrics.by_host@, live_a, hist_a, j as int, ccg);
            lemma_close_ph_space(
                by_ph_a,
                self.metrics.by_process_host@,
                live_a,
                hist_a,
                j as int,
                ccg,
            );
            lemma_close_shape(live_a, hist_a, j as int, ccg, self.next_id);
            assert(self.all_conns() == livef + histf);
            assert(self.wf());
            crate::metrics::lemma_close_monotone(
                old(self).metrics,
                self.metrics,
                cg.pid,
                hostname_view(cg),
                cg.remote_port,
            );
            crate::metrics::lemma_closed_step_from_close(
                old(self).metrics,
                self.metrics,
                cg.pid,
                hostname_view(cg),
                cg.remote_port,
            );
        }
    }

}


/// `c` occurs in `s`.
pub open spec fn appears_in(c: Connection, s: Seq<Connection>) -> bool {
    exists|i: int| 0 <= i < s.len() && (#[trigger] s[i]) == c
}

/// `c` occurs in `s` at or after position `j`.
pub open spec fn appears_from(c: Connection, s: Seq<Connection>, j: int) -> bool {
    exists|i: int| j <= i < s.len() && (#[trigger] s[i]) == c
}

/// The closed copy of `c` stands in `hist` at or after position `from`.
pub open spec fn closed_into(c: Connection, hist: Seq<Connection>, from: int, now: u64) -> bool {
    exists|i: int| from <= i < hist.len() && (#[trigger] hist[i]) == closed_version(c, now)
}

/// `h` is the closed copy of some original that was not seen.
pub open spec fn from_unseen(
    h: Connection,
    live0: Seq<Connection>,
    seen: Seq<u64>,
    now: u64,
) -> bool {
    exists|j2: int|
        0 <= j2 < live0.len() && !seen.contains((#[trigger] live0[j2]).id) && h == closed_version(
            live0[j2],
            now,
        )
}

/// The first `j` live connections were all seen this tick.
pub open spec fn scan_prefix_seen(live: Seq<Connection>, seen: Seq<u64>, j: int) -> bool {
    forall|i: int| 0 <= i < j ==> seen.contains((#[trigger] live[i]).id)
}

/// Every current live connection is one of the originals.
pub open spec fn scan_live_subset(live: Seq<Connection>, live0: Seq<Connection>) -> bool {
    forall|i: int| 0 <= i < live.len() ==> appears_in(#[trigger] live[i], live0)
}

/// Every seen original is still live.
pub open spec fn scan_seen_persist(
    live: Seq<Connection>,
    live0: Seq<Connection>,
    seen: Seq<u64>,
) -> bool {
    forall|j2: int|
        0 <= j2 < live0.len() && seen.contains((#[trigger] live0[j2]).id) ==> appears_in(
            live0[j2],
            live,
        )
}

/// History only grew, and each addition is the closed copy of an unseen
/// original.
pub open spec fn scan_hist_grown(
    hist: Seq<Connection>,
    hist0: Seq<Connection>,
    live0: Seq<Connection>,
    seen: Seq<u64>,
    now: u64,
) -> bool {
    &&& hist.len() >= hist0.len()
    &&& hist.take(hist0.len() as int) == hist0
    &&& (forall|i: int|
        hist0.len() <= i < hist.len() ==> from_unseen(#[trigger] hist[i], live0, seen, now))
}

/// Every unseen original has been closed into the history or still waits in
/// the unscanned part of the live table.
pub open spec fn scan_unseen_placed(
    live: Seq<Connection>,
    hist: Seq<Connection>,
    live0: Seq<Connection>,
    hist0: Seq<Connection>,
    seen: Seq<u64>,
    j: int,
    now: u64,
) -> bool {
    forall|j2: int|
        0 <= j2 < live0.len() && !seen.contains((#[trigger] live0[j2]).id) ==> closed_into(
            live0[j2],
            hist,
            hist0.len() as int,
            now,
        ) || appears_from(live0[j2], live, j)
}

/// The element at `i` appears in its own sequence.
proof fn lemma_appears_at(s: Seq<Connection>, i: int)
    requires
        0 <= i < s.len(),
    ensures
        appears_in(s[i], s),
        appears_from(s[i], s, i),
{
    assert((|k: int| 0 <= k < s.len() && s[k] == s[i])(i));
    assert((|k: int| i <= k < s.len() && s[k] == s[i])(i));
}

/// With nothing scanned or moved, the scan bookkeeping holds trivially.
#[verifier::rlimit(100)]
#[verifier::spinoff_prover]
proof fn lemma_scan_init(live0: Seq<Connection>, hist0: Seq<Connection>, seen: Seq<u64>, now: u64)
    ensures
        scan_prefix_seen(live0, seen, 0),
        scan_live_subset(live0, live0),
        scan_seen_persist(live0, live0, seen),
        scan_hist_grown(hist0, hist0, live0, seen, now),
        scan_unseen_placed(live0, hist0, live0, hist0, seen, 0, now),
{
    assert(hist0.take(hist0.len() as int) =~= hist0);
    assert forall|i: int| 0 <= i < live0.len() implies appears_in(
        #[trigger] live0[i],
        live0,
    ) by {
        lemma_appears_at(live0, i);
    }
    assert forall|j2: int|
        0 <= j2 < live0.len() && seen.contains((#[trigger] live0[j2]).id) implies appears_in(
        live0[j2],
        live0,
    ) by {
        lemma_appears_at(live0, j2);
    }
    assert forall|j2: int|
        0 <= j2 < live0.len() && !seen.contains((#[trigger] live0[j2]).id) implies closed_into(
        live0[j2],
        hist0,
        hist0.len() as int,
        now,
    ) || appears_from(live0[j2], live0, 0) by {
        lemma_appears_at(live0, j2);
    }
}

/// Scanning past a seen connection moves only the frontier.
#[verifier::rlimit(100)]
#[verifier::spinoff_prover]
proof fn lemma_keep_unseen_placed(
    live: Seq<Connection>,
    hist: Seq<Connection>,
    live0: Seq<Connection>,
    hist0: Seq<Connection>,
    seen: Seq<u64>,
    j: int,
    now: u64,
)
    requires
        scan_unseen_placed(live, hist, live0, hist0, seen, j, now),
        0 <= j < live.len(),
        seen.contains(live[j].id),
    ensures
        scan_unseen_placed(live, hist, live0, hist0, seen, j + 1, now),
{
    assert forall|j2: int|
        0 <= j2 < live0.len() && !seen.contains((#[trigger] live0[j2]).id) implies closed_into(
        live0[j2],
        hist,
        hist0.len() as int,
        now,
    ) || appears_from(live0[j2], live, j + 1) by {
        if !closed_into(live0[j2], hist, hist0.len() as int, now) {
            let w = choose|w: int| j <= w < live.len() && (#[trigger] live[w]) == live0[j2];
            assert(live[w] == live0[j2]);
            assert(w != j);
            assert((|k: int| j + 1 <= k < live.len() && live[k] == live0[j2])(w));
        }
    }
}

/// Removing the scanned connection keeps the seen prefix in place.
#[verifier::rlimit(100)]
#[verifier::spinoff_prover]
proof fn lemma_remove_prefix_seen(live: Seq<Connection>, seen: Seq<u64>, j: int)
    requires
        scan_prefix_seen(live, seen, j),
        0 <= j < live.len(),
    ensures
        scan_prefix_seen(live.remove(j), seen, j),
{
    assert forall|i: int| 0 <= i < j implies seen.contains(
        (#[trigger] live.remove(j)[i]).id,
    ) by {
        assert(live.remove(j)[i] == live[i]);
    }
}

/// Removing an element keeps the live table a subset of the originals.
#[verifier::rlimit(100)]
#[verifier::spinoff_prover]
proof fn lemma_remove_live_subset(live: Seq<Connection>, live0: Seq<Connection>, j: int)
    requires
        scan_live_subset(live, live0),
        0 <= j < live.len(),
    ensures
        scan_live_subset(live.remove(j), live0),
{
    let livef = live.remove(j);
    assert forall|i: int| 0 <= i < livef.len() implies appears_in(
        #[trigger] livef[i],
        live0,
    ) by {
        let i0: int = if i < j {
            i
        } else {
            i + 1
        };
        assert(livef[i] == live[i0]);
        assert(appears_in(live[i0], live0));
    }
}

/// Removing an unseen connection keeps every seen original live.
#[verifier::rlimit(100)]
#[verifier::spinoff_prover]
proof fn lemma_remove_seen_persist(
    live: Seq<Connection>,
    live0: Seq<Connection>,
    seen: Seq<u64>,
    j: int,
)
    requires
        scan_seen_persist(live, live0, seen),
        0 <= j < live.len(),
        !seen.contains(live[j].id),
    ensures
        scan_seen_persist(live.remove(j), live0, seen),
{
    let livef = live.remove(j);
    assert forall|j2: int|
        0 <= j2 < live0.len() && seen.contains((#[trigger] live0[j2]).id) implies appears_in(
        live0[j2],
        livef,
    ) by {
        assert(appears_in(live0[j2], live));
        let w = choose|w: int| 0 <= w < live.len() && (#[trigger] live[w]) == live0[j2];
        assert(live[w].id == live0[j2].id);
        assert(w != j);
        let wf2: int = if w < j {
            w
        } else {
            w - 1
        };
        assert(livef[wf2] == live[w]);
        lemma_appears_at(livef, wf2);
    }
}

/// Closing an unseen connection into the history keeps the history account.
#[verifier::rlimit(100)]
#[verifier::spinoff_prover]
proof fn lemma_remove_hist_grown(
    live: Seq<Connection>,
    hist: Seq<Connection>,
    live0: Seq<Connection>,
    hist0: Seq<Connection>,
    seen: Seq<u64>,
    j: int,
    now: u64,
)
    requires
        scan_hist_grown(hist, hist0, live0, seen, now),
        scan_live_subset(live, live0),
        0 <= j < live.len(),
        !seen.contains(live[j].id),
    ensures
        scan_hist_grown(hist.push(closed_version(live[j], now)), hist0, live0, seen, now),
{
    let ccg = closed_version(live[j], now);
    let histf = hist.push(ccg);
    assert(histf.take(hist0.len() as int) =~= hist.take(hist0.len() as int));
    assert forall|i: int| hist0.len() <= i < histf.len() implies from_unseen(
        #[trigger] histf[i],
        live0,
        seen,
        now,
    ) by {
        if i < hist.len() {
            assert(histf[i] == hist[i]);
            assert(from_unseen(hist[i], live0, seen, now));
        } else {
            assert(histf[i] == ccg);
            assert(appears_in(live[j], live0));
            let w = choose|w: int| 0 <= w < live0.len() && (#[trigger] live0[w]) == live[j];
            assert(live0[w].id == live[j].id);
            assert((|j2: int|
                0 <= j2 < live0.len() && !seen.contains(live0[j2].id) && histf[i]
                    == closed_version(live0[j2], now))(w));
        }
    }
}

/// Closing the unseen connection at the frontier keeps every unseen original
/// accounted for.
#[verifier::rlimit(100)]
#[verifier::spinoff_prover]
proof fn lemma_remove_unseen_placed(
    live: Seq<Connection>,
    hist: Seq<Connection>,
    live0: Seq<Connection>,
    hist0: Seq<Connection>,
    seen: Seq<u64>,
    j: int,
    now: u64,
)
    requires
        scan_unseen_placed(live, hist, live0, hist0, seen, j, now),
        hist.len() >= hist0.len(),
        0 <= j < live.len(),
        !seen.contains(live[j].id),
    ensures
        scan_unseen_placed(
            live.remove(j),
            hist.push(closed_version(live[j], now)),
            live0,
            hist0,
            seen,
            j,
            now,
        ),
{
    let livef = live.remove(j);
    let ccg = closed_version(live[j], now);
    let histf = hist.push(ccg);
    assert forall|j2: int|
        0 <= j2 < live0.len() && !seen.contains((#[trigger] live0[j2]).id) implies closed_into(
        live0[j2],
        histf,
        hist0.len() as int,
        now,
    ) || appears_from(live0[j2], livef, j) by {
        if closed_into(live0[j2], hist, hist0.len() as int, now) {
            let w = choose|w: int|
                hist0.len() <= w < hist.len() && (#[trigger] hist[w]) == closed_version(
                    live0[j2],
                    now,
                );
            assert(histf[w] == hist[w]);
            assert((|k: int|
                hist0.len() <= k < histf.len() && histf[k] == closed_version(live0[j2], now))(w));
        } else if appears_from(live0[j2], live, j) {
            let w = choose|w: int| j <= w < live.len() && (#[trigger] live[w]) == live0[j2];
            if w == j {
                assert(live0[j2].id == live[j].id);
                assert(histf[histf.len() - 1] == ccg);
                assert((|k: int|
                    hist0.len() <= k < histf.len() && histf[k] == closed_version(live0[j2], now))(
                    histf.len() - 1,
                ));
            } else {
                assert(livef[w - 1] == live[w]);
                assert((|k: int| j <= k < livef.len() && livef[k] == live0[j2])(w - 1));
            }
        }
    }
}

impl ConnectionMonitor {
    /// Closes every live connection whose id was not seen this tick; seen
    /// connections survive unchanged. Afterwards every survivor is seen, the
    /// survivors and the new history entries all come from the previous live
    /// table, every seen connection survives, and every unseen one has moved
    /// to the history as a closed copy.
    #[verifier::rlimit(100)]
    #[verifier::spinoff_prover]
    fn close_unseen(&mut self, seen: &Vec<u64>, now: u64)
        requires
            old(self).wf(),
        ensures
            final(self).wf(),
            final(self).processes@ == old(self).processes@,
            final(self).alive_pids@ == old(self).alive_pids@,
            final(self).last_refresh == old(self).last_refresh,
            final(self).next_id == old(self).next_id,
            final(self).metrics.sample_timestamps@ == old(self).metrics.sample_timestamps@,
            final(self).metrics.memory_history@ == old(self).metrics.memory_history@,
            crate::metrics::counters_monotone(old(self).metrics, final(self).metrics),
            crate::metrics::counters_closed_step(old(self).metrics, final(self).metrics),
            scan_prefix_seen(final(self).connections@, seen@, final(self).connections@.len() as int),
            scan_live_subset(final(self).connections@, old(self).connections@),
            scan_seen_persist(final(self).connections@, old(self).connections@, seen@),
            scan_hist_grown(
                final(self).historical_connections@,
                old(self).historical_connections@,
                old(self).connections@,
                seen@,
                now,
            ),
            scan_unseen_placed(
                final(self).connections@,
                final(self).historical_connections@,
                old(self).connections@,
                old(self).historical_connections@,
                seen@,
                final(self).connections@.len() as int,
                now,
            ),
    {
        let ghost live0 = self.connections@;
        let ghost hist0 = self.historical_connections@;
        proof {
            lemma_scan_init(live0, hist0, seen@, now);
            crate::metrics::lemma_counters_monotone_refl(self.metrics);
            crate::metrics::lemma_steps_same_maps(self.metrics, self.metrics);
        }
        let mut j: usize = 0;
        while j < self.connections.len()
            invariant
                self.wf(),
                self.processes@ == old(self).processes@,
                self.alive_pids@ == old(self).alive_pids@,
                self.last_refresh == old(self).last_refresh,
                self.next_id == old(self).next_id,
                self.metrics.sample_timestamps@ == old(self).metrics.sample_timestamps@,
                self.metrics.memory_history@ == old(self).metrics.memory_history@,
                crate::metrics::counters_monotone(old(self).metrics, self.metrics),
                crate::metrics::counters_closed_step(old(self).metrics, self.metrics),
                live0 == old(self).connections@,
                hist0 == old(self).historical_connections@,
                0 <= j <= self.connections@.len(),
                scan_prefix_seen(self.connections@, seen@, j as int),
                scan_live_subset(self.connections@, live0),
                scan_seen_persist(self.connections@, live0, seen@),
                scan_hist_grown(self.historical_connections@, hist0, live0, seen@, now),
                scan_unseen_placed(
                    self.connections@,
                    self.historical_connections@,
                    live0,
                    hist0,
                    seen@,
                    j as int,
                    now,
                ),
            decreases self.connections@.len() - j,
        {
            let id = self.connections[j].id;
            if contains_u64(seen, id) {
                proof {
                    lemma_keep_unseen_placed(
                        self.connections@,
                        self.historical_connections@,
                        live0,
                        hist0,
                        seen@,
                        j as int,
                        now,
                    );
                }
                j += 1;
            } else {
                proof {
                    lemma_remove_prefix_seen(self.connections@, seen@, j as int);
                    lemma_remove_live_subset(self.connections@, live0, j as int);
                    lemma_remove_seen_persist(self.connections@, live0, seen@, j as int);
                    lemma_remove_hist_grown(
                        self.connections@,
                        self.historical_connections@,
                        live0,
                        hist0,
                        seen@,
                        j as int,
                        now,
                    );
                    lemma_remove_unseen_placed(
                        self.connections@,
                        self.historical_connections@,
                        live0,
                        hist0,
                        seen@,
                        j as int,
                        now,
                    );
                }
                let ghost mid_metrics = self.metrics;
                self.close_one(j, now);
                proof {
                    crate::metrics::lemma_counters_monotone_trans(
                        old(self).metrics,
                        mid_metrics,
                        self.metrics,
                    );
                    crate::metrics::lemma_closed_step_trans(
                        old(self).metrics,
                        mid_metrics,
                        self.metrics,
                    );
                }
            }
        }
    }
}



/// The process record after one upsert from a snapshot row: the name is
/// taken, the executable only when present, the memory maximum never drops.
pub open spec fn upserted_proc(o: Option<Process>, sn: ProcSnapshot, now: u64) -> Process {
    match o {
        Some(p) => Process {
            pid: p.pid,
            name: Some(sn.name),
            exe: if sn.exe is Some {
                sn.exe
            } else {
                p.exe
            },
            current_memory_usage: sn.memory,
            max_memory_usage: if sn.memory > p.max_memory_usage {
                sn.memory
            } else {
                p.max_memory_usage
            },
            first_seen: p.first_seen,
            last_seen: now,
        },
        None => Process {
            pid: sn.pid,
            name: Some(sn.name),
            exe: sn.exe,
            current_memory_usage: sn.memory,
            max_memory_usage: sn.memory,
            first_seen: now,
            last_seen: now,
        },
    }
}

/// The samples of a pid, or the empty series before its first sample.
pub open spec fn mem_or_empty(o: Option<Seq<(u64, u64)>>) -> Seq<(u64, u64)> {
    match o {
        Some(s) => s,
        None => Seq::empty(),
    }
}

impl ConnectionMonitor {
    /// Upserts the process record for `pid` from the snapshot's process table
    /// and appends a memory sample to its bounded series; a pid absent from
    /// the table changes nothing.
    #[verifier::rlimit(100)]
    #[verifier::spinoff_prover]
    fn update_process_info(&mut self, pid: u32, procs: &Vec<ProcSnapshot>, now: u64)
        requires
            old(self).wf(),
            now == old(self).last_refresh,
        ensures
            final(self).wf(),
            final(self).connections@ == old(self).connections@,
            final(self).historical_connections@ == old(self).historical_connections@,
            final(self).alive_pids@ == old(self).alive_pids@,
            final(self).last_refresh == old(self).last_refresh,
            final(self).next_id == old(self).next_id,
            final(self).metrics.by_pid@ == old(self).metrics.by_pid@,
            final(self).metrics.by_host@ == old(self).metrics.by_host@,
            final(self).metrics.by_process_host@ == old(self).metrics.by_process_host@,
            final(self).metrics.sample_timestamps@ == old(self).metrics.sample_timestamps@,
            match crate::snapshot::find_snap(procs@, pid) {
                None => final(self).processes@ == old(self).processes@ && final(self).metrics.memory_history@ == old(self).metrics.memory_history@,
                Some(sn) => {
                    &&& find_proc(final(self).processes@, pid) == Some(
                        upserted_proc(find_proc(old(self).processes@, pid), sn, now),
                    )
                    &&& (forall|q: u32|
                        q != pid ==> find_proc(final(self).processes@, q) == find_proc(
                            old(self).processes@,
                            q,
                        ))
                    &&& find_mem(final(self).metrics.memory_history@, pid) == Some(
                        crate::metrics::bounded_push(
                            mem_or_empty(find_mem(old(self).metrics.memory_history@, pid)),
                            (now, sn.memory),
                        ),
                    )
                    &&& (forall|q: u32|
                        q != pid ==> find_mem(final(self).metrics.memory_history@, q) == find_mem(
                            old(self).metrics.memory_history@,
                            q,
                        ))
                },
            },
    {
        let si = match crate::snapshot::find_snap_index(procs, pid) {
            Some(si) => si,
            None => {
                return ;
            },
        };
        let sn = &procs[si];
        match crate::process::find_proc_index(&self.processes, pid) {
            Some(i) => {
                let mut p = self.processes[i].clone();
                let exe: Option<String> = match &sn.exe {
                    Some(e) => Some(e.clone()),
                    None => None,
                };
                p.update(Some(sn.name.clone()), exe, sn.memory, now);
                proof {
                    crate::process::lemma_find_proc_update(
                        self.processes@,
                        i as int,
                        p,
                        pid,
                    );
                }
                self.processes[i] = p;
            },
            None => {
                let exe: Option<String> = match &sn.exe {
                    Some(e) => Some(e.clone()),
                    None => None,
                };
                let p = Process::new(pid, Some(sn.name.clone()), exe, sn.memory, now);
                proof {
                    crate::process::lemma_find_proc_push(self.processes@, p);
                }
                self.processes.push(p);
            },
        }
        let ghost mem_a = self.metrics.memory_history@;
        match crate::metrics::find_mem_index(&self.metrics.memory_history, pid) {
            Some(mi) => {
                let mut ms = self.metrics.memory_history[mi].clone();
                crate::metrics::push_bounded_sample(&mut ms.samples, (now, sn.memory));
                proof {
                    crate::metrics::lemma_bounded_push_len(
                        mem_a[mi as int].samples@,
                        (now, sn.memory),
                    );
                    crate::metrics::lemma_bounded_push_sorted(
                        mem_a[mi as int].samples@,
                        (now, sn.memory),
                    );
                    crate::metrics::lemma_find_mem_update(mem_a, mi as int, ms, pid);
                }
                self.metrics.memory_history[mi] = ms;
                proof {
                    assert forall|x: int|
                        0 <= x < self.metrics.memory_history@.len() implies (
                    #[trigger] self.metrics.memory_history@[x]).samples@.len()
                        <= crate::metrics::HISTORY_CAP && crate::metrics::samples_sorted(
                        self.metrics.memory_history@[x].samples@,
                    ) && crate::metrics::samples_at_most(
                        self.metrics.memory_history@[x].samples@,
                        self.last_refresh,
                    ) by {
                        if x != mi {
                            assert(self.metrics.memory_history@[x] == mem_a[x]);
                        }
                    }
                    assert(self.wf());
                }
            },
            None => {
                let mut samples: Vec<(u64, u64)> = Vec::new();
                samples.push((now, sn.memory));
                let ms = crate::metrics::MemorySeries { pid, samples };
                proof {
                    crate::metrics::lemma_find_mem_push(mem_a, ms);
                    assert(ms.samples@ =~= crate::metrics::bounded_push(
                        Seq::<(u64, u64)>::empty(),
                        (now, sn.memory),
                    ));
                }
                self.metrics.memory_history.push(ms);
                proof {
                    assert forall|x: int|
                        0 <= x < self.metrics.memory_history@.len() implies (
                    #[trigger] self.metrics.memory_history@[x]).samples@.len()
                        <= crate::metrics::HISTORY_CAP && crate::metrics::samples_sorted(
                        self.metrics.memory_history@[x].samples@,
                    ) && crate::metrics::samples_at_most(
                        self.metrics.memory_history@[x].samples@,
                        self.last_refresh,
                    ) by {
                        if x < mem_a.len() {
                            assert(self.metrics.memory_history@[x] == mem_a[x]);
                        }
                    }
                    assert(self.wf());
                }
            },
        }
    }
}

/// Some live connection carries the natural key `key`.
pub open spec fn key_live(key: (u32, u16, Seq<char>, u16), live: Seq<Connection>) -> bool {
    exists|i: int| 0 <= i < live.len() && nat_key(#[trigger] live[i]) == key
}

/// Some live connection continues the flow `o`: same identity fields, open.
pub open spec fn flow_survives(o: Connection, live: Seq<Connection>) -> bool {
    exists|i: int| 0 <= i < live.len() && same_flow(o, #[trigger] live[i])
}

/// The connection continues one of the old live flows: same identity fields.
pub open spec fn continues_some_flow(c: Connection, live0: Seq<Connection>) -> bool {
    exists|j: int| 0 <= j < live0.len() && same_flow(#[trigger] live0[j], c)
}

/// The connection's TCP state is the one carried by some snapshot entry with
/// its natural key.
pub open spec fn state_from_snapshot(c: Connection, sockets: Seq<SocketEntry>) -> bool {
    exists|k: int|
        0 <= k < sockets.len() && entry_key(#[trigger] sockets[k]) == nat_key(c)
            && sockets[k].state == c.state
}

/// The connection carries the natural key and the resolved hostname of some
/// snapshot entry.
pub open spec fn created_from(c: Connection, sockets: Seq<SocketEntry>) -> bool {
    exists|k: int|
        0 <= k < sockets.len() && entry_key(#[trigger] sockets[k]) == nat_key(c)
            && crate::snapshot::entry_hostname_view(sockets[k]) == hostname_view(c)
}

/// `h` is the closed copy, stamped `now`, of an old live connection whose
/// natural key the snapshot does not carry.
pub open spec fn closed_from(
    h: Connection,
    live0: Seq<Connection>,
    sockets: Seq<SocketEntry>,
    now: u64,
) -> bool {
    exists|j: int|
        0 <= j < live0.len() && h == closed_version(#[trigger] live0[j], now)
            && !snapshot_has_key(sockets, nat_key(live0[j]))
}

/// A connection's id was seen this tick exactly when its key stands in the
/// first `k` socket entries.
pub open spec fn ingest_seen_ok(
    live: Seq<Connection>,
    seen: Seq<u64>,
    sockets: Seq<SocketEntry>,
    k: int,
) -> bool {
    forall|i: int|
        0 <= i < live.len() ==> (seen.contains((#[trigger] live[i]).id) == snapshot_has_key(
            sockets.take(k),
            nat_key(live[i]),
        ))
}

/// Seen connections were stamped with the current tick.
pub open spec fn ingest_stamped(live: Seq<Connection>, seen: Seq<u64>, now: u64) -> bool {
    forall|i: int|
        0 <= i < live.len() && seen.contains((#[trigger] live[i]).id) ==> live[i].last_seen == now
}

/// Extending the scanned snapshot prefix by one entry extends the keys it
/// holds by exactly that entry's key.
proof fn lemma_has_key_take_succ(sockets: Seq<SocketEntry>, k: int, key: (u32, u16, Seq<char>, u16))
    requires
        0 <= k < sockets.len(),
    ensures
        snapshot_has_key(sockets.take(k + 1), key) == (snapshot_has_key(sockets.take(k), key)
            || entry_key(sockets[k]) == key),
{
    let a = sockets.take(k);
    let b = sockets.take(k + 1);
    if snapshot_has_key(a, key) {
        let w = choose|w: int| 0 <= w < a.len() && entry_key(#[trigger] a[w]) == key;
        assert(b[w] == a[w]);
        assert((|i: int| 0 <= i < b.len() && entry_key(b[i]) == key)(w));
    }
    if entry_key(sockets[k]) == key {
        assert(b[k] == sockets[k]);
        assert((|i: int| 0 <= i < b.len() && entry_key(b[i]) == key)(k));
    }
    if snapshot_has_key(b, key) {
        let w = choose|w: int| 0 <= w < b.len() && entry_key(#[trigger] b[w]) == key;
        if w < k {
            assert(a[w] == b[w]);
            assert((|i: int| 0 <= i < a.len() && entry_key(a[i]) == key)(w));
        } else {
            assert(b[w] == sockets[k]);
        }
    }
}

/// Re-observing the live connection at `i` keeps the seen bookkeeping in
/// step with the one further scanned snapshot entry.
#[verifier::rlimit(100)]
#[verifier::spinoff_prover]
proof fn lemma_ingest_found(
    live: Seq<Connection>,
    live1: Seq<Connection>,
    seen: Seq<u64>,
    sockets: Seq<SocketEntry>,
    k: int,
    i: int,
    now: u64,
    live0_len: int,
)
    requires
        0 <= k < sockets.len(),
        0 <= i < live.len(),
        nat_key(live[i]) == entry_key(sockets[k]),
        live1 == live.update(
            i,
            Connection { state: sockets[k].state, last_seen: now, ..live[i] },
        ),
        forall|x: int, y: int| 0 <= x < y < live.len() ==> nat_key(live[x]) != nat_key(live[y]),
        forall|x: int, y: int| 0 <= x < y < live.len() ==> live[x].id != live[y].id,
        ingest_seen_ok(live, seen, sockets, k),
        ingest_stamped(live, seen, now),
        forall|x: int|
            0 <= x < live.len() && seen.contains((#[trigger] live[x]).id) ==> state_from_snapshot(
                live[x],
                sockets,
            ),
        0 <= live0_len <= live.len(),
        forall|x: int| live0_len <= x < live.len() ==> created_from(#[trigger] live[x], sockets),
    ensures
        ingest_seen_ok(live1, seen.push(live[i].id), sockets, k + 1),
        ingest_stamped(live1, seen.push(live[i].id), now),
        forall|k2: int|
            0 <= k2 < k && key_live(entry_key(#[trigger] sockets[k2]), live) ==> key_live(
                entry_key(sockets[k2]),
                live1,
            ),
        key_live(entry_key(sockets[k]), live1),
        forall|x: int|
            0 <= x < live1.len() && seen.push(live[i].id).contains((#[trigger] live1[x]).id)
                ==> state_from_snapshot(live1[x], sockets),
        forall|x: int| live0_len <= x < live1.len() ==> created_from(#[trigger] live1[x], sockets),
{
    let id = live[i].id;
    let seen1 = seen.push(id);
    assert(live1[i] == (Connection { state: sockets[k].state, last_seen: now, ..live[i] }));
    assert forall|x: int| 0 <= x < live1.len() implies (seen1.contains(
        (#[trigger] live1[x]).id,
    ) == snapshot_has_key(sockets.take(k + 1), nat_key(live1[x]))) by {
        lemma_push_contains(seen, id, live1[x].id);
        lemma_has_key_take_succ(sockets, k, nat_key(live1[x]));
        assert(nat_key(live1[x]) == nat_key(live[x]));
        if x == i {
            assert(seen1.contains(live1[x].id));
            assert(snapshot_has_key(sockets.take(k + 1), nat_key(live1[x])));
        } else {
            assert(live1[x] == live[x]);
            if live[x].id == id {
                if x < i {
                    assert(live[x].id != live[i].id);
                } else {
                    assert(live[i].id != live[x].id);
                }
            }
            if entry_key(sockets[k]) == nat_key(live[x]) {
                if x < i {
                    assert(nat_key(live[x]) != nat_key(live[i]));
                } else {
                    assert(nat_key(live[i]) != nat_key(live[x]));
                }
            }
        }
    }
    assert forall|x: int|
        0 <= x < live1.len() && seen1.contains((#[trigger] live1[x]).id) implies live1[x].last_seen
        == now by {
        lemma_push_contains(seen, id, live1[x].id);
        if x != i {
            assert(live1[x] == live[x]);
            if live[x].id == id {
                if x < i {
                    assert(live[x].id != live[i].id);
                } else {
                    assert(live[i].id != live[x].id);
                }
            }
        }
    }
    assert forall|k2: int|
        0 <= k2 < k && key_live(entry_key(#[trigger] sockets[k2]), live) implies key_live(
        entry_key(sockets[k2]),
        live1,
    ) by {
        let w = choose|w: int|
            0 <= w < live.len() && nat_key(#[trigger] live[w]) == entry_key(sockets[k2]);
        assert(nat_key(live1[w]) == nat_key(live[w]));
        assert((|x: int| 0 <= x < live1.len() && nat_key(live1[x]) == entry_key(sockets[k2]))(w));
    }
    assert((|x: int| 0 <= x < live1.len() && nat_key(live1[x]) == entry_key(sockets[k]))(i));
    let seen1 = seen.push(id);
    assert forall|x: int|
        0 <= x < live1.len() && seen1.contains((#[trigger] live1[x]).id) implies
        state_from_snapshot(live1[x], sockets) by {
        lemma_push_contains(seen, id, live1[x].id);
        if x == i {
            assert((|kk: int|
                0 <= kk < sockets.len() && entry_key(sockets[kk]) == nat_key(live1[x])
                    && sockets[kk].state == live1[x].state)(k));
        } else {
            assert(live1[x] == live[x]);
            if live[x].id == id {
                if x < i {
                    assert(live[x].id != live[i].id);
                } else {
                    assert(live[i].id != live[x].id);
                }
            }
            assert(seen.contains(live[x].id));
        }
    }
    assert forall|x: int| live0_len <= x < live1.len() implies created_from(
        #[trigger] live1[x],
        sockets,
    ) by {
        if x == i {
            assert(created_from(live[i], sockets));
            let w = choose|w: int|
                0 <= w < sockets.len() && entry_key(#[trigger] sockets[w]) == nat_key(live[i])
                    && crate::snapshot::entry_hostname_view(sockets[w]) == hostname_view(live[i]);
            assert((|kk: int|
                0 <= kk < sockets.len() && entry_key(sockets[kk]) == nat_key(live1[x])
                    && crate::snapshot::entry_hostname_view(sockets[kk]) == hostname_view(
                    live1[x],
                ))(w));
        } else {
            assert(live1[x] == live[x]);
        }
    }
}

/// Creating a connection for a key no live connection carried keeps the seen
/// bookkeeping in step with the one further scanned snapshot entry.
#[verifier::rlimit(100)]
#[verifier::spinoff_prover]
proof fn lemma_ingest_new(
    live: Seq<Connection>,
    live1: Seq<Connection>,
    seen: Seq<u64>,
    sockets: Seq<SocketEntry>,
    k: int,
    c: Connection,
    now: u64,
    live0_len: int,
)
    requires
        0 <= k < sockets.len(),
        forall|x: int|
            0 <= x < live.len() ==> nat_key(#[trigger] live[x]) != entry_key(sockets[k]),
        live1 == live.push(c),
        nat_key(c) == entry_key(sockets[k]),
        c.last_seen == now,
        forall|x: int| 0 <= x < live.len() ==> (#[trigger] live[x]).id != c.id,
        ingest_seen_ok(live, seen, sockets, k),
        ingest_stamped(live, seen, now),
        c.state == sockets[k].state,
        crate::snapshot::entry_hostname_view(sockets[k]) == hostname_view(c),
        forall|x: int|
            0 <= x < live.len() && seen.contains((#[trigger] live[x]).id) ==> state_from_snapshot(
                live[x],
                sockets,
            ),
        0 <= live0_len <= live.len(),
        forall|x: int| live0_len <= x < live.len() ==> created_from(#[trigger] live[x], sockets),
    ensures
        ingest_seen_ok(live1, seen.push(c.id), sockets, k + 1),
        ingest_stamped(live1, seen.push(c.id), now),
        forall|k2: int|
            0 <= k2 < k && key_live(entry_key(#[trigger] sockets[k2]), live) ==> key_live(
                entry_key(sockets[k2]),
                live1,
            ),
        key_live(entry_key(sockets[k]), live1),
        forall|x: int|
            0 <= x < live1.len() && seen.push(c.id).contains((#[trigger] live1[x]).id)
                ==> state_from_snapshot(live1[x], sockets),
        forall|x: int| live0_len <= x < live1.len() ==> created_from(#[trigger] live1[x], sockets),
{
    let seen1 = seen.push(c.id);
    assert(live1[live.len() as int] == c);
    assert forall|x: int| 0 <= x < live1.len() implies (seen1.contains(
        (#[trigger] live1[x]).id,
    ) == snapshot_has_key(sockets.take(k + 1), nat_key(live1[x]))) by {
        lemma_push_contains(seen, c.id, live1[x].id);
        lemma_has_key_take_succ(sockets, k, nat_key(live1[x]));
        if x < live.len() {
            assert(live1[x] == live[x]);
            assert(live[x].id != c.id);
            assert(nat_key(live[x]) != entry_key(sockets[k]));
        } else {
            assert(live1[x] == c);
            assert(seen1.contains(c.id));
        }
    }
    assert forall|x: int|
        0 <= x < live1.len() && seen1.contains((#[trigger] live1[x]).id) implies live1[x].last_seen
        == now by {
        lemma_push_contains(seen, c.id, live1[x].id);
        if x < live.len() {
            assert(live1[x] == live[x]);
            assert(live[x].id != c.id);
        }
    }
    assert forall|k2: int|
        0 <= k2 < k && key_live(entry_key(#[trigger] sockets[k2]), live) implies key_live(
        entry_key(sockets[k2]),
        live1,
    ) by {
        let w = choose|w: int|
            0 <= w < live.len() && nat_key(#[trigger] live[w]) == entry_key(sockets[k2]);
        assert(live1[w] == live[w]);
        assert((|x: int| 0 <= x < live1.len() && nat_key(live1[x]) == entry_key(sockets[k2]))(w));
    }
    assert((|x: int| 0 <= x < live1.len() && nat_key(live1[x]) == entry_key(sockets[k]))(
        live.len() as int,
    ));
    assert forall|x: int|
        0 <= x < live1.len() && seen1.contains((#[trigger] live1[x]).id) implies
        state_from_snapshot(live1[x], sockets) by {
        lemma_push_contains(seen, c.id, live1[x].id);
        if x < live.len() {
            assert(live1[x] == live[x]);
            assert(live[x].id != c.id);
            assert(seen.contains(live[x].id));
        } else {
            assert(live1[x] == c);
            assert((|kk: int|
                0 <= kk < sockets.len() && entry_key(sockets[kk]) == nat_key(live1[x])
                    && sockets[kk].state == live1[x].state)(k));
        }
    }
    assert forall|x: int| live0_len <= x < live1.len() implies created_from(
        #[trigger] live1[x],
        sockets,
    ) by {
        if x < live.len() {
            assert(live1[x] == live[x]);
        } else {
            assert(live1[x] == c);
            assert((|kk: int|
                0 <= kk < sockets.len() && entry_key(sockets[kk]) == nat_key(live1[x])
                    && crate::snapshot::entry_hostname_view(sockets[kk]) == hostname_view(
                    live1[x],
                ))(k));
        }
    }
}

/// What the finished scan says about the surviving live table.
#[verifier::rlimit(100)]
#[verifier::spinoff_prover]
proof fn lemma_refresh_live_post(
    live0: Seq<Connection>,
    live1: Seq<Connection>,
    livef: Seq<Connection>,
    seen: Seq<u64>,
    sockets: Seq<SocketEntry>,
    old_next_id: u64,
    now: u64,
)
    requires
        live1.len() >= live0.len(),
        forall|j: int|
            0 <= j < live0.len() ==> same_flow(#[trigger] live0[j], live1[j]) && (live1[j]
                == live0[j] || seen.contains(live1[j].id)),
        forall|x: int|
            live0.len() <= x < live1.len() ==> (#[trigger] live1[x]).first_seen == now
                && live1[x].id >= old_next_id,
        forall|j: int| 0 <= j < live0.len() ==> (#[trigger] live0[j]).id < old_next_id,
        ingest_seen_ok(live1, seen, sockets, sockets.len() as int),
        sockets.take(sockets.len() as int) == sockets,
        ingest_stamped(live1, seen, now),
        forall|k: int|
            0 <= k < sockets.len() ==> key_live(entry_key(#[trigger] sockets[k]), live1),
        scan_prefix_seen(livef, seen, livef.len() as int),
        scan_live_subset(livef, live1),
        scan_seen_persist(livef, live1, seen),
        forall|x: int|
            0 <= x < live1.len() && seen.contains((#[trigger] live1[x]).id)
                ==> state_from_snapshot(live1[x], sockets),
        forall|x: int|
            live0.len() <= x < live1.len() ==> created_from(#[trigger] live1[x], sockets),
    ensures
        forall|i: int|
            0 <= i < livef.len() ==> snapshot_has_key(sockets, nat_key(#[trigger] livef[i]))
                && livef[i].last_seen == now && state_from_snapshot(livef[i], sockets),
        forall|k: int|
            0 <= k < sockets.len() ==> key_live(entry_key(#[trigger] sockets[k]), livef),
        forall|j: int|
            0 <= j < live0.len() && snapshot_has_key(sockets, nat_key(#[trigger] live0[j]))
                ==> flow_survives(live0[j], livef),
        forall|i: int|
            0 <= i < livef.len() && (#[trigger] livef[i]).id >= old_next_id ==> livef[i].first_seen
                == now && created_from(livef[i], sockets),
        forall|i: int|
            0 <= i < livef.len() ==> continues_some_flow(#[trigger] livef[i], live0) || livef[i].id
                >= old_next_id,
{
    assert forall|i: int| 0 <= i < livef.len() implies snapshot_has_key(
        sockets,
        nat_key(#[trigger] livef[i]),
    ) && livef[i].last_seen == now && state_from_snapshot(livef[i], sockets) by {
        assert(appears_in(livef[i], live1));
        let w = choose|w: int| 0 <= w < live1.len() && (#[trigger] live1[w]) == livef[i];
        assert(seen.contains(livef[i].id));
        assert(seen.contains(live1[w].id));
        assert(snapshot_has_key(sockets.take(sockets.len() as int), nat_key(live1[w])));
        assert(state_from_snapshot(live1[w], sockets));
    }
    assert forall|k: int| 0 <= k < sockets.len() implies key_live(
        entry_key(#[trigger] sockets[k]),
        livef,
    ) by {
        assert(key_live(entry_key(sockets[k]), live1));
        let w = choose|w: int|
            0 <= w < live1.len() && nat_key(#[trigger] live1[w]) == entry_key(sockets[k]);
        assert((|x: int| 0 <= x < sockets.len() && entry_key(sockets[x]) == nat_key(live1[w]))(k));
        assert(snapshot_has_key(sockets, nat_key(live1[w])));
        assert(snapshot_has_key(sockets.take(sockets.len() as int), nat_key(live1[w])));
        assert(seen.contains(live1[w].id));
        assert(appears_in(live1[w], livef));
        let w2 = choose|w2: int| 0 <= w2 < livef.len() && (#[trigger] livef[w2]) == live1[w];
        assert((|x: int| 0 <= x < livef.len() && nat_key(livef[x]) == entry_key(sockets[k]))(w2));
    }
    assert forall|j: int|
        0 <= j < live0.len() && snapshot_has_key(
            sockets,
            nat_key(#[trigger] live0[j]),
        ) implies flow_survives(live0[j], livef) by {
        assert(same_flow(live0[j], live1[j]));
        assert(nat_key(live1[j]) == nat_key(live0[j]));
        assert(snapshot_has_key(sockets.take(sockets.len() as int), nat_key(live1[j])));
        assert(seen.contains(live1[j].id));
        assert(appears_in(live1[j], livef));
        let w2 = choose|w2: int| 0 <= w2 < livef.len() && (#[trigger] livef[w2]) == live1[j];
        assert((|x: int| 0 <= x < livef.len() && same_flow(live0[j], livef[x]))(w2));
    }
    assert forall|i: int|
        0 <= i < livef.len() && (#[trigger] livef[i]).id >= old_next_id implies livef[i].first_seen
        == now && created_from(livef[i], sockets) by {
        assert(appears_in(livef[i], live1));
        let w = choose|w: int| 0 <= w < live1.len() && (#[trigger] live1[w]) == livef[i];
        if w < live0.len() {
            assert(same_flow(live0[w], live1[w]));
            assert(live1[w].id == live0[w].id);
        } else {
            assert(created_from(live1[w], sockets));
        }
    }
    assert forall|i: int|
        0 <= i < livef.len() implies continues_some_flow(#[trigger] livef[i], live0) || livef[i].id
        >= old_next_id by {
        assert(appears_in(livef[i], live1));
        let w = choose|w: int| 0 <= w < live1.len() && (#[trigger] live1[w]) == livef[i];
        if w < live0.len() {
            assert(same_flow(live0[w], live1[w]));
            assert((|j: int| 0 <= j < live0.len() && same_flow(live0[j], livef[i]))(w));
        }
    }
}

/// What the finished scan says about the grown history.
#[verifier::rlimit(100)]
#[verifier::spinoff_prover]
proof fn lemma_refresh_hist_post(
    live0: Seq<Connection>,
    live1: Seq<Connection>,
    livef: Seq<Connection>,
    histf: Seq<Connection>,
    hist0: Seq<Connection>,
    seen: Seq<u64>,
    sockets: Seq<SocketEntry>,
    now: u64,
)
    requires
        live1.len() >= live0.len(),
        forall|j: int|
            0 <= j < live0.len() ==> same_flow(#[trigger] live0[j], live1[j]) && (live1[j]
                == live0[j] || seen.contains(live1[j].id)),
        ingest_seen_ok(live1, seen, sockets, sockets.len() as int),
        sockets.take(sockets.len() as int) == sockets,
        forall|x: int|
            live0.len() <= x < live1.len() ==> seen.contains((#[trigger] live1[x]).id),
        scan_hist_grown(histf, hist0, live1, seen, now),
        scan_unseen_placed(livef, histf, live1, hist0, seen, livef.len() as int, now),
    ensures
        forall|j: int|
            0 <= j < live0.len() && !snapshot_has_key(sockets, nat_key(#[trigger] live0[j]))
                ==> closed_into(live0[j], histf, hist0.len() as int, now),
        forall|i: int|
            hist0.len() <= i < histf.len() ==> (#[trigger] histf[i]).closed && histf[i].last_seen
                == now && !snapshot_has_key(sockets, nat_key(histf[i])) && closed_from(
                histf[i],
                live0,
                sockets,
                now,
            ),
{
    assert forall|j: int|
        0 <= j < live0.len() && !snapshot_has_key(
            sockets,
            nat_key(#[trigger] live0[j]),
        ) implies closed_into(live0[j], histf, hist0.len() as int, now) by {
        assert(same_flow(live0[j], live1[j]));
        assert(nat_key(live1[j]) == nat_key(live0[j]));
        assert(!snapshot_has_key(sockets.take(sockets.len() as int), nat_key(live1[j])));
        assert(!seen.contains(live1[j].id));
        assert(live1[j] == live0[j]);
        assert(!appears_from(live1[j], livef, livef.len() as int)) by {
            if appears_from(live1[j], livef, livef.len() as int) {
                let w = choose|w: int|
                    livef.len() <= w < livef.len() && (#[trigger] livef[w]) == live1[j];
                assert(false);
            }
        }
        assert(closed_into(live1[j], histf, hist0.len() as int, now));
    }
    assert forall|i: int|
        hist0.len() <= i < histf.len() implies (#[trigger] histf[i]).closed && histf[i].last_seen
        == now && !snapshot_has_key(sockets, nat_key(histf[i])) && closed_from(
        histf[i],
        live0,
        sockets,
        now,
    ) by {
        assert(from_unseen(histf[i], live1, seen, now));
        let w = choose|w: int|
            0 <= w < live1.len() && !seen.contains((#[trigger] live1[w]).id) && histf[i]
                == closed_version(live1[w], now);
        assert(nat_key(histf[i]) == nat_key(live1[w]));
        assert(!snapshot_has_key(sockets.take(sockets.len() as int), nat_key(live1[w])));
        assert(w < live0.len());
        assert(live1[w] == live0[w]);
        assert((|j: int|
            0 <= j < live0.len() && histf[i] == closed_version(live0[j], now)
                && !snapshot_has_key(sockets, nat_key(live0[j])))(w));
    }
}

impl ConnectionMonitor {
    /// Reconciles one snapshot into the registry: every socket entry is
    /// matched by natural key against the live table (re-observed or newly
    /// created and counted), process records and bounded memory series are
    /// upserted per entry, connections absent from the snapshot are closed
    /// into the history, the poll timestamp is retained (bounded), and the
    /// alive-pid set is replaced. Counters stay exact (`wf`) and maxima and
    /// totals never decrease.
    #[verifier::rlimit(100)]
    #[verifier::spinoff_prover]
    pub fn refresh(&mut self, sockets: &Vec<SocketEntry>, procs: &Vec<ProcSnapshot>, now: u64)
        requires
            old(self).wf(),
            now >= old(self).last_refresh,
            old(self).all_conns().len() + sockets@.len() <= usize::MAX,
            old(self).next_id + sockets@.len() <= u64::MAX,
        ensures
            final(self).wf(),
            final(self).last_refresh == now,
            final(self).metrics.sample_timestamps@ == crate::metrics::bounded_push(
                old(self).metrics.sample_timestamps@,
                now,
            ),
            final(self).alive_pids@ == crate::snapshot::alive_pids_of(procs@),
            crate::metrics::counters_monotone(old(self).metrics, final(self).metrics),
            crate::metrics::counters_peak_ok(old(self).metrics, final(self).metrics),
            // every live connection afterwards has its key in the snapshot,
            // was stamped now, and carries the TCP state of a snapshot entry
            // with its key
            forall|i: int|
                0 <= i < final(self).connections@.len() ==> snapshot_has_key(
                    sockets@,
                    nat_key(#[trigger] final(self).connections@[i]),
                ) && final(self).connections@[i].last_seen == now && state_from_snapshot(
                    final(self).connections@[i],
                    sockets@,
                ),
            // every snapshot key has a live connection afterwards
            forall|k: int|
                0 <= k < sockets@.len() ==> key_live(
                    entry_key(#[trigger] sockets@[k]),
                    final(self).connections@,
                ),
            // re-observed connections keep their identity
            forall|j: int|
                0 <= j < old(self).connections@.len() && snapshot_has_key(
                    sockets@,
                    nat_key(#[trigger] old(self).connections@[j]),
                ) ==> flow_survives(old(self).connections@[j], final(self).connections@),
            // connections absent from the snapshot move closed into history
            forall|j: int|
                0 <= j < old(self).connections@.len() && !snapshot_has_key(
                    sockets@,
                    nat_key(#[trigger] old(self).connections@[j]),
                ) ==> closed_into(
                    old(self).connections@[j],
                    final(self).historical_connections@,
                    old(self).historical_connections@.len() as int,
                    now,
                ),
            // the history is append-only and new entries are closed now
            final(self).historical_connections@.len() >= old(self).historical_connections@.len(),
            final(self).historical_connections@.take(
                old(self).historical_connections@.len() as int,
            ) == old(self).historical_connections@,
            forall|i: int|
                old(self).historical_connections@.len() <= i < final(self).historical_connections@.len() ==> (#[trigger] final(self).historical_connections@[i]).closed && final(self).historical_connections@[i].last_seen
                    == now && !snapshot_has_key(
                    sockets@,
                    nat_key(final(self).historical_connections@[i]),
                ) && closed_from(
                    final(self).historical_connections@[i],
                    old(self).connections@,
                    sockets@,
                    now,
                ),
            // a connection with a fresh id is a new observation, created from
            // a snapshot entry whose key and resolved hostname it carries
            forall|i: int|
                0 <= i < final(self).connections@.len() && (#[trigger] final(self).connections@[i]).id >= old(self).next_id ==> final(self).connections@[i].first_seen
                    == now && created_from(final(self).connections@[i], sockets@),
            // and every live connection either continues an old flow or is
            // such a fresh observation
            forall|i: int|
                0 <= i < final(self).connections@.len() ==> continues_some_flow(
                    #[trigger] final(self).connections@[i],
                    old(self).connections@,
                ) || final(self).connections@[i].id >= old(self).next_id,
            // process records and memory series change only for pids the
            // snapshot mentions
            forall|p: u32|
                !(#[trigger] snapshot_has_pid(sockets@, p)) ==> find_proc(
                    final(self).processes@,
                    p,
                ) == find_proc(old(self).processes@, p) && find_mem(
                    final(self).metrics.memory_history@,
                    p,
                ) == find_mem(old(self).metrics.memory_history@, p),
    {
        let ghost live_0 = self.connections@;
        let ghost hist_0 = self.historical_connections@;
        let ghost m_0 = self.metrics;
        let ghost next_0 = self.next_id;
        self.last_refresh = now;
        let mut seen: Vec<u64> = Vec::new();
        proof {
            assert forall|x: int|
                0 <= x < self.metrics.memory_history@.len() implies crate::metrics::samples_at_most(
                (#[trigger] self.metrics.memory_history@[x]).samples@,
                self.last_refresh,
            ) by {
                assert(crate::metrics::samples_at_most(
                    self.metrics.memory_history@[x].samples@,
                    old(self).last_refresh,
                ));
            }
            assert(self.wf());
            crate::metrics::lemma_counters_monotone_refl(self.metrics);
            crate::metrics::lemma_peak_refl(m_0);
            assert(sockets@.take(0) =~= Seq::<SocketEntry>::empty());
            assert forall|j: int|
                0 <= j < live_0.len() implies (#[trigger] live_0[j]).id < next_0 by {
                assert(self.all_conns()[j] == live_0[j]);
            }
            assert forall|i: int| 0 <= i < live_0.len() implies (seen@.contains(
                (#[trigger] live_0[i]).id,
            ) == snapshot_has_key(sockets@.take(0), nat_key(live_0[i]))) by {
                if seen@.contains(live_0[i].id) {
                    let w = choose|w: int| 0 <= w < seen@.len() && seen@[w] == live_0[i].id;
                    assert(false);
                }
                if snapshot_has_key(sockets@.take(0), nat_key(live_0[i])) {
                    let w = choose|w: int|
                        0 <= w < sockets@.take(0).len() && entry_key(
                            #[trigger] sockets@.take(0)[w],
                        ) == nat_key(live_0[i]);
                    assert(false);
                }
            }
        }
        let mut k: usize = 0;
        while k < sockets.len()
            invariant
                self.wf(),
                self.historical_connections@ == hist_0,
                self.last_refresh == now,
                self.alive_pids@ == old(self).alive_pids@,
                self.metrics.sample_timestamps@ == m_0.sample_timestamps@,
                crate::metrics::counters_monotone(m_0, self.metrics),
                crate::metrics::counters_peak_ok(m_0, self.metrics),
                live_0 == old(self).connections@,
                hist_0 == old(self).historical_connections@,
                m_0 == old(self).metrics,
                next_0 == old(self).next_id,
                0 <= k <= sockets@.len(),
                self.all_conns().len() <= live_0.len() + hist_0.len() + k,
                next_0 <= self.next_id <= next_0 + k,
                live_0.len() + hist_0.len() + sockets@.len() <= usize::MAX,
                next_0 + sockets@.len() <= u64::MAX,
                self.connections@.len() >= live_0.len(),
                forall|j: int|
                    0 <= j < live_0.len() ==> same_flow(
                        #[trigger] live_0[j],
                        self.connections@[j],
                    ) && (self.connections@[j] == live_0[j] || seen@.contains(
                        self.connections@[j].id,
                    )),
                forall|x: int|
                    live_0.len() <= x < self.connections@.len() ==> (#[trigger] self.connections@[x]).first_seen
                        == now && self.connections@[x].id >= next_0,
                ingest_seen_ok(self.connections@, seen@, sockets@, k as int),
                ingest_stamped(self.connections@, seen@, now),
                forall|k2: int|
                    0 <= k2 < k ==> key_live(
                        entry_key(#[trigger] sockets@[k2]),
                        self.connections@,
                    ),
                forall|p: u32|
                    !(#[trigger] snapshot_has_pid(sockets@.take(k as int), p)) ==> find_proc(
                        self.processes@,
                        p,
                    ) == find_proc(old(self).processes@, p) && find_mem(
                        self.metrics.memory_history@,
                        p,
                    ) == find_mem(old(self).metrics.memory_history@, p),
                forall|x: int|
                    0 <= x < self.connections@.len() && seen@.contains(
                        (#[trigger] self.connections@[x]).id,
                    ) ==> state_from_snapshot(self.connections@[x], sockets@),
                forall|x: int|
                    live_0.len() <= x < self.connections@.len() ==> created_from(
                        #[trigger] self.connections@[x],
                        sockets@,
                    ),
            decreases sockets@.len() - k,
        {
            let ghost live_a = self.connections@;
            let ghost seen_a = seen@;
            let ghost metrics_a = self.metrics;
            let entry = &sockets[k];
            proof {
                assert forall|x: int, y: int|
                    0 <= x < y < live_a.len() implies live_a[x].id != live_a[y].id by {
                    assert(self.all_conns()[x] == live_a[x] && self.all_conns()[y] == live_a[y]);
                }
                assert forall|x: int|
                    0 <= x < live_a.len() implies (#[trigger] live_a[x]).id < self.next_id by {
                    assert(self.all_conns()[x] == live_a[x]);
                }
            }
            let ghost next_a = self.next_id;
            self.apply_entry(entry, now, &mut seen);
            proof {
                let live_b = self.connections@;
                if exists|i: int|
                    0 <= i < live_a.len() && nat_key(#[trigger] live_a[i]) == entry_key(
                        sockets@[k as int],
                    ) {
                    let i = choose|i: int|
                        {
                            &&& 0 <= i < live_a.len()
                            &&& nat_key(#[trigger] live_a[i]) == entry_key(*entry)
                            &&& live_b == live_a.update(
                                i,
                                Connection {
                                    state: entry.state,
                                    last_seen: now,
                                    ..live_a[i]
                                },
                            )
                            &&& seen@ == seen_a.push(live_a[i].id)
                        };
                    lemma_ingest_found(
                        live_a,
                        live_b,
                        seen_a,
                        sockets@,
                        k as int,
                        i,
                        now,
                        live_0.len() as int,
                    );
                    assert forall|j: int|
                        0 <= j < live_0.len() implies same_flow(
                        #[trigger] live_0[j],
                        live_b[j],
                    ) && (live_b[j] == live_0[j] || seen@.contains(live_b[j].id)) by {
                        lemma_push_contains(seen_a, live_a[i].id, live_b[j].id);
                        if j != i {
                            assert(live_b[j] == live_a[j]);
                        }
                    }
                    assert forall|x: int|
                        live_0.len() <= x < live_b.len() implies (#[trigger] live_b[x]).first_seen
                        == now && live_b[x].id >= next_0 by {
                        if x != i {
                            assert(live_b[x] == live_a[x]);
                        } else {
                            assert(live_b[i].first_seen == live_a[i].first_seen);
                            assert(live_b[i].id == live_a[i].id);
                        }
                    }
                } else {
                    assert(self.connections@ =~= live_a.push(self.connections@.last()));
                    assert(self.connections@.last().id == next_a);
                    assert forall|x: int|
                        0 <= x < live_a.len() implies (#[trigger] live_a[x]).id
                        != self.connections@.last().id by {
                        assert(live_a[x].id < next_a);
                    }
                    assert(crate::snapshot::entry_hostname_view(sockets@[k as int])
                        == hostname_view(self.connections@.last()));
                    lemma_ingest_new(
                        live_a,
                        self.connections@,
                        seen_a,
                        sockets@,
                        k as int,
                        self.connections@.last(),
                        now,
                        live_0.len() as int,
                    );
                    assert forall|j: int|
                        0 <= j < live_0.len() implies same_flow(
                        #[trigger] live_0[j],
                        self.connections@[j],
                    ) && (self.connections@[j] == live_0[j] || seen@.contains(
                        self.connections@[j].id,
                    )) by {
                        assert(self.connections@[j] == live_a[j]);
                        lemma_push_contains(
                            seen_a,
                            self.connections@.last().id,
                            self.connections@[j].id,
                        );
                    }
                    assert forall|x: int|
                        live_0.len() <= x < self.connections@.len() implies (
                    #[trigger] self.connections@[x]).first_seen == now && self.connections@[x].id
                        >= next_0 by {
                        if x < self.connections@.len() - 1 {
                            assert(self.connections@[x] == live_a[x]);
                        }
                    }
                }
            }
            let ghost metrics_b = self.metrics;
            let ghost procs_b = self.processes@;
            let ghost mem_b = metrics_b.memory_history@;
            proof {
                crate::metrics::lemma_peak_step(m_0, metrics_a, metrics_b);
            }
            self.update_process_info(entry.pid, procs, now);
            proof {
                crate::metrics::lemma_counters_monotone_trans(m_0, metrics_a, metrics_b);
                crate::metrics::lemma_counters_monotone_same_maps(m_0, metrics_b, self.metrics);
                crate::metrics::lemma_peak_same_maps(m_0, metrics_b, self.metrics);
                assert forall|p: u32|
                    !(#[trigger] snapshot_has_pid(sockets@.take(k + 1), p)) implies find_proc(
                    self.processes@,
                    p,
                ) == find_proc(old(self).processes@, p) && find_mem(
                    self.metrics.memory_history@,
                    p,
                ) == find_mem(old(self).metrics.memory_history@, p) by {
                    crate::snapshot::lemma_has_pid_take_succ(sockets@, k as int, p);
                    assert(p != sockets@[k as int].pid);
                    assert(find_proc(self.processes@, p) == find_proc(procs_b, p));
                    assert(find_mem(self.metrics.memory_history@, p) == find_mem(mem_b, p));
                }
            }
            k += 1;
        }
        proof {
            assert(sockets@.take(sockets@.len() as int) =~= sockets@);
        }
        let ghost live_1 = self.connections@;
        let ghost m_1 = self.metrics;
        proof {
            assert forall|x: int|
                live_0.len() <= x < live_1.len() implies seen@.contains(
                (#[trigger] live_1[x]).id,
            ) by {
                assert(created_from(live_1[x], sockets@));
                let w = choose|w: int|
                    0 <= w < sockets@.len() && entry_key(#[trigger] sockets@[w]) == nat_key(
                        live_1[x],
                    ) && crate::snapshot::entry_hostname_view(sockets@[w]) == hostname_view(
                        live_1[x],
                    );
                assert((|kk: int|
                    0 <= kk < sockets@.take(sockets@.len() as int).len() && entry_key(
                        sockets@.take(sockets@.len() as int)[kk],
                    ) == nat_key(live_1[x]))(w));
                assert(snapshot_has_key(
                    sockets@.take(sockets@.len() as int),
                    nat_key(live_1[x]),
                ));
            }
        }
        self.close_unseen(&seen, now);
        proof {
            crate::metrics::lemma_counters_monotone_trans(m_0, m_1, self.metrics);
            crate::metrics::lemma_peak_step(m_0, m_1, self.metrics);
            lemma_refresh_live_post(
                live_0,
                live_1,
                self.connections@,
                seen@,
                sockets@,
                next_0,
                now,
            );
            lemma_refresh_hist_post(
                live_0,
                live_1,
                self.connections@,
                self.historical_connections@,
                hist_0,
                seen@,
                sockets@,
                now,
            );
        }
        let ghost m_2 = self.metrics;
        let ghost ts_a = self.metrics.sample_timestamps@;
        crate::metrics::push_bounded_u64(&mut self.metrics.sample_timestamps, now);
        self.alive_pids = crate::snapshot::collect_alive_pids(procs);
        proof {
            crate::metrics::lemma_counters_monotone_same_maps(m_0, m_2, self.metrics);
            crate::metrics::lemma_peak_same_maps(m_0, m_2, self.metrics);
            let ts = self.metrics.sample_timestamps@;
            assert forall|i: int, j: int| 0 <= i < j < ts.len() implies ts[i] <= ts[j] by {
                if ts_a.len() + 1 > crate::metrics::HISTORY_CAP {
                    assert(ts[i] == ts_a.push(now)[i + 1]);
                    assert(ts[j] == ts_a.push(now)[j + 1]);
                } else {
                    assert(ts[i] == ts_a.push(now)[i]);
                    assert(ts[j] == ts_a.push(now)[j]);
                }
            }
            assert forall|i: int| 0 <= i < ts.len() implies ts[i] <= now by {
                if ts_a.len() + 1 > crate::metrics::HISTORY_CAP {
                    assert(ts[i] == ts_a.push(now)[i + 1]);
                } else {
                    assert(ts[i] == ts_a.push(now)[i]);
                }
            }
            assert(self.wf());
        }
    }
}

} // verus!
