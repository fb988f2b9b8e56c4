//! The registry's standing guarantees, stated on their own so a reader finds
//! them in one place. Each follows from the registry invariant `wf`, which
//! `ConnectionMonitor::new` establishes and `refresh` and `reset` preserve,
//! or from the monotonicity relation that `refresh` ensures.

use vstd::prelude::*;
use crate::conn::nat_key;
use crate::filters::ConnectionFilter;
use crate::metrics::{
    count_where, counters_monotone, counters_peak_ok, find_host, find_pid, find_ph,
    host_current, host_entry_ok, host_max, host_total, ph_current, ph_entry_ok, ph_max,
    ph_total, pid_current, pid_entry_ok, pid_max, pid_total, pred_host_all, pred_host_open,
    pred_ph_all, pred_ph_open, pred_pid_all, pred_pid_open, ConnectionMetrics, HISTORY_CAP,
};
use crate::monitor::ConnectionMonitor;
use crate::views::{host_keys, host_view_ok, HostMetrics};

verus! {

/// Every pid key's counters are exact at every instant: the current-concurrent
/// counter equals the number of open connections with that pid, the total
/// equals the number ever observed with that pid, and a pid without an entry
/// has no connection at all.
pub proof fn lemma_pid_counters_exact(m: ConnectionMonitor, pid: u32)
    requires
        m.wf(),
    ensures
        match find_pid(m.metrics.by_pid@, pid) {
            Some(e) => e.current == count_where(m.connections@, pred_pid_open(pid)) && e.total
                == count_where(m.all_conns(), pred_pid_all(pid)),
            None => count_where(m.all_conns(), pred_pid_all(pid)) == 0,
        },
{
    assert(pid_entry_ok(m.metrics.by_pid@, m.connections@, m.all_conns(), pid));
}

/// The host-key analogue: counters count only connections with a resolved
/// hostname.
pub proof fn lemma_host_counters_exact(m: ConnectionMonitor, h: Seq<char>, port: u16)
    requires
        m.wf(),
    ensures
        match find_host(m.metrics.by_host@, h, port) {
            Some(e) => e.current == count_where(m.connections@, pred_host_open(h, port)) && e.total
                == count_where(m.all_conns(), pred_host_all(h, port)),
            None => count_where(m.all_conns(), pred_host_all(h, port)) == 0,
        },
{
    assert(host_entry_ok(m.metrics.by_host@, m.connections@, m.all_conns(), h, port));
}

/// The process-host-key analogue.
pub proof fn lemma_ph_counters_exact(m: ConnectionMonitor, pid: u32, h: Seq<char>, port: u16)
    requires
        m.wf(),
    ensures
        match find_ph(m.metrics.by_process_host@, pid, h, port) {
            Some(e) => e.current == count_where(m.connections@, pred_ph_open(pid, h, port))
                && e.total == count_where(m.all_conns(), pred_ph_all(pid, h, port)),
            None => count_where(m.all_conns(), pred_ph_all(pid, h, port)) == 0,
        },
{
    assert(ph_entry_ok(m.metrics.by_process_host@, m.connections@, m.all_conns(), pid, h, port));
}

/// The running maximum of any key never falls below the key's current value.
pub proof fn lemma_max_at_least_current(m: ConnectionMonitor)
    requires
        m.wf(),
    ensures
        forall|p: u32| match #[trigger] find_pid(m.metrics.by_pid@, p) {
            Some(e) => e.current <= e.max,
            None => true,
        },
        forall|h: Seq<char>, port: u16| match #[trigger] find_host(m.metrics.by_host@, h, port) {
            Some(e) => e.current <= e.max,
            None => true,
        },
        forall|p: u32, h: Seq<char>, port: u16| match #[trigger] find_ph(
            m.metrics.by_process_host@,
            p,
            h,
            port,
        ) {
            Some(e) => e.current <= e.max,
            None => true,
        },
{
    assert forall|p: u32| match #[trigger] find_pid(m.metrics.by_pid@, p) {
        Some(e) => e.current <= e.max,
        None => true,
    } by {
        assert(pid_entry_ok(m.metrics.by_pid@, m.connections@, m.all_conns(), p));
    }
    assert forall|h: Seq<char>, port: u16| match #[trigger] find_host(
        m.metrics.by_host@,
        h,
        port,
    ) {
        Some(e) => e.current <= e.max,
        None => true,
    } by {
        assert(host_entry_ok(m.metrics.by_host@, m.connections@, m.all_conns(), h, port));
    }
    assert forall|p: u32, h: Seq<char>, port: u16| match #[trigger] find_ph(
        m.metrics.by_process_host@,
        p,
        h,
        port,
    ) {
        Some(e) => e.current <= e.max,
        None => true,
    } by {
        assert(ph_entry_ok(m.metrics.by_process_host@, m.connections@, m.all_conns(), p, h, port));
    }
}

/// Across any run of refreshes, the running maximum and the cumulative total
/// of every key never decrease: `refresh` ensures `counters_monotone` between
/// the states before and after.
pub proof fn lemma_maxima_never_shrink(
    a: ConnectionMetrics,
    b: ConnectionMetrics,
    pid: u32,
    h: Seq<char>,
    port: u16,
)
    requires
        counters_monotone(a, b),
    ensures
        pid_max(b.by_pid@, pid) >= pid_max(a.by_pid@, pid),
        pid_total(b.by_pid@, pid) >= pid_total(a.by_pid@, pid),
        host_max(b.by_host@, h, port) >= host_max(a.by_host@, h, port),
        host_total(b.by_host@, h, port) >= host_total(a.by_host@, h, port),
        ph_max(b.by_process_host@, pid, h, port) >= ph_max(a.by_process_host@, pid, h, port),
        ph_total(b.by_process_host@, pid, h, port) >= ph_total(a.by_process_host@, pid, h, port),
{
    reveal(counters_monotone);
}

/// The natural key (pid, local port, remote address, remote port) is unique
/// among the non-closed connections at every instant.
pub proof fn lemma_natural_key_unique(m: ConnectionMonitor, i: int, j: int)
    requires
        m.wf(),
        0 <= i < j < m.connections@.len(),
    ensures
        nat_key(m.connections@[i]) != nat_key(m.connections@[j]),
        !m.connections@[i].closed,
        !m.connections@[j].closed,
{
}

/// Two host-view results computed from the same registry state and filter
/// agree row for row: the views are pure reads, so calling one twice with no
/// intervening refresh yields identical results. The other views' contracts
/// pin their rows the same way.
pub proof fn lemma_host_view_deterministic(
    m: ConnectionMonitor,
    f: ConnectionFilter,
    r1: Seq<HostMetrics>,
    r2: Seq<HostMetrics>,
)
    requires
        host_view_ok(
            r1,
            host_keys(m.all_conns(), f, m.processes@),
            m.all_conns(),
            f,
            m.processes@,
            m.metrics.by_host@,
        ),
        host_view_ok(
            r2,
            host_keys(m.all_conns(), f, m.processes@),
            m.all_conns(),
            f,
            m.processes@,
            m.metrics.by_host@,
        ),
    ensures
        r1.len() == r2.len(),
        forall|x: int|
            0 <= x < r1.len() ==> (#[trigger] r1[x]).host@ == r2[x].host@ && r1[x].port
                == r2[x].port && r1[x].current_connections == r2[x].current_connections
                && r1[x].total_connections == r2[x].total_connections && r1[x].max_concurrent
                == r2[x].max_concurrent,
{
    let ks = host_keys(m.all_conns(), f, m.processes@);
    assert forall|x: int|
        0 <= x < r1.len() implies (#[trigger] r1[x]).host@ == r2[x].host@ && r1[x].port
        == r2[x].port && r1[x].current_connections == r2[x].current_connections
        && r1[x].total_connections == r2[x].total_connections && r1[x].max_concurrent
        == r2[x].max_concurrent by {
        assert(r1[x].host@ == ks[x].0);
        assert(r2[x].host@ == ks[x].0);
    }
}

/// Bounded retention: the poll-timestamp series and every per-pid memory
/// series stay within the retention cap however many refreshes have run.
pub proof fn lemma_retention_bounded(m: ConnectionMonitor)
    requires
        m.wf(),
    ensures
        m.metrics.sample_timestamps@.len() <= HISTORY_CAP,
        forall|i: int|
            0 <= i < m.metrics.memory_history@.len()
                ==> (#[trigger] m.metrics.memory_history@[i]).samples@.len() <= HISTORY_CAP,
{
}


/// Across one refresh, a running maximum can only grow by absorbing a current
/// value its key actually reached: it stays below the larger of its old value
/// and the old current plus the tick's newly opened connections for that key
/// (the total's rise). `refresh` ensures this relation between the states
/// before and after.
pub proof fn lemma_maxima_absorb_only_reached_peaks(
    a: ConnectionMetrics,
    b: ConnectionMetrics,
    pid: u32,
    h: Seq<char>,
    port: u16,
)
    requires
        counters_peak_ok(a, b),
    ensures
        pid_max(b.by_pid@, pid) <= vstd::math::max(
            pid_max(a.by_pid@, pid) as int,
            pid_current(a.by_pid@, pid) + (pid_total(b.by_pid@, pid) - pid_total(a.by_pid@, pid)),
        ),
        host_max(b.by_host@, h, port) <= vstd::math::max(
            host_max(a.by_host@, h, port) as int,
            host_current(a.by_host@, h, port) + (host_total(b.by_host@, h, port) - host_total(
                a.by_host@,
                h,
                port,
            )),
        ),
        ph_max(b.by_process_host@, pid, h, port) <= vstd::math::max(
            ph_max(a.by_process_host@, pid, h, port) as int,
            ph_current(a.by_process_host@, pid, h, port) + (ph_total(
                b.by_process_host@,
                pid,
                h,
                port,
            ) - ph_total(a.by_process_host@, pid, h, port)),
        ),
{
    reveal(crate::metrics::pid_max_peak);
    reveal(crate::metrics::host_max_peak);
    reveal(crate::metrics::ph_max_peak);
}

} // verus!
