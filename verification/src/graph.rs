//! The display buffer behind the live connections graph: a rolling series of
//! recent active-connection counts, refilled wholesale when the filter
//! changes and appended to once per sampling interval otherwise.

use vstd::prelude::*;
use crate::filters::{opt_view, ConnectionFilter};
use crate::metrics::string_eq;
use crate::monitor::ConnectionMonitor;
use crate::views::{filtered_conns, history_points};

verus! {

/// Two filters select the same connections: equal criteria, value for value.
pub open spec fn filter_equiv(a: ConnectionFilter, b: ConnectionFilter) -> bool {
    &&& a.pid == b.pid
    &&& opt_view(a.process_name) == opt_view(b.process_name)
    &&& opt_view(a.remote_host) == opt_view(b.remote_host)
    &&& a.remote_port == b.remote_port
}

/// Compares two filters field by field.
pub fn filter_eq(a: &ConnectionFilter, b: &ConnectionFilter) -> (r: bool)
    ensures
        r == filter_equiv(*a, *b),
{
    let pid_ok = match (a.pid, b.pid) {
        (Some(x), Some(y)) => x == y,
        (None, None) => true,
        _ => false,
    };
    let name_ok = match (&a.process_name, &b.process_name) {
        (Some(x), Some(y)) => string_eq(x, y),
        (None, None) => true,
        _ => false,
    };
    let host_ok = match (&a.remote_host, &b.remote_host) {
        (Some(x), Some(y)) => string_eq(x, y),
        (None, None) => true,
        _ => false,
    };
    let port_ok = match (a.remote_port, b.remote_port) {
        (Some(x), Some(y)) => x == y,
        (None, None) => true,
        _ => false,
    };
    pid_ok && name_ok && host_ok && port_ok
}

/// The history view's counts as graph points, keeping only the last `cap`.
pub open spec fn graph_data(points: Seq<(u64, usize)>, cap: int) -> Seq<u64> {
    let m = points.map_values(|p: (u64, usize)| p.1 as u64);
    if m.len() > cap {
        m.skip(m.len() - cap)
    } else {
        m
    }
}

/// The largest value of a series, zero when empty.
pub open spec fn seq_max(s: Seq<u64>) -> u64
    decreases s.len(),
{
    if s.len() == 0 {
        0
    } else if s.last() > seq_max(s.drop_last()) {
        s.last()
    } else {
        seq_max(s.drop_last())
    }
}

/// The rolling display buffer and its sampling state.
#[derive(Debug)]
pub struct ActiveConnectionsGraphWidget {
    /// The filter the buffer was built for.
    pub filter: ConnectionFilter,
    /// Capacity of the buffer: what the graph can show.
    pub max_points: usize,
    /// The buffered counts, oldest first.
    pub history_data: Vec<u64>,
    /// When the buffer last took a sample.
    pub last_sample_time: u64,
    /// Milliseconds between samples.
    pub sample_interval: u64,
}

impl ActiveConnectionsGraphWidget {
    /// An empty buffer for the empty filter, sampling every second.
    pub fn new() -> (r: Self)
        ensures
            r.filter.pid is None,
            r.filter.process_name is None,
            r.filter.remote_host is None,
            r.filter.remote_port is None,
            r.max_points == 100,
            r.history_data@.len() == 0,
            r.last_sample_time == 0,
            r.sample_interval == 1000,
    {
        ActiveConnectionsGraphWidget {
            filter: ConnectionFilter::new(),
            max_points: 100,
            history_data: Vec::new(),
            last_sample_time: 0,
            sample_interval: 1000,
        }
    }

    /// Returns the widget with the given capacity.
    pub fn with_max_points(self, points: usize) -> (r: Self)
        ensures
            r == (ActiveConnectionsGraphWidget { max_points: points, ..self }),
    {
        ActiveConnectionsGraphWidget { max_points: points, ..self }
    }

    /// Replaces the filter and refills the buffer wholesale from the history
    /// view.
    pub fn set_filter(&mut self, filter: ConnectionFilter, monitor: &ConnectionMonitor)
        requires
            monitor.all_conns().len() <= usize::MAX,
        ensures
            final(self).filter == filter,
            final(self).max_points == old(self).max_points,
            final(self).sample_interval == old(self).sample_interval,
            final(self).last_sample_time == old(self).last_sample_time,
            final(self).history_data@ == graph_data(
                history_points(
                    monitor.metrics.sample_timestamps@,
                    monitor.all_conns(),
                    filter,
                    monitor.processes@,
                    None,
                    None,
                ),
                old(self).max_points as int,
            ),
    {
        self.filter = filter;
        self.rebuild_history_data(monitor);
    }

    /// Refills the buffer from the history view for the current filter.
    fn rebuild_history_data(&mut self, monitor: &ConnectionMonitor)
        requires
            monitor.all_conns().len() <= usize::MAX,
        ensures
            final(self).filter == old(self).filter,
            final(self).max_points == old(self).max_points,
            final(self).sample_interval == old(self).sample_interval,
            final(self).last_sample_time == old(self).last_sample_time,
            final(self).history_data@ == graph_data(
                history_points(
                    monitor.metrics.sample_timestamps@,
                    monitor.all_conns(),
                    old(self).filter,
                    monitor.processes@,
                    None,
                    None,
                ),
                old(self).max_points as int,
            ),
    {
        let history = monitor.get_connection_history_filtered(&self.filter, None, None);
        let ghost points = history@;
        let mut data: Vec<u64> = Vec::new();
        let mut i: usize = 0;
        while i < history.len()
            invariant
                points == history@,
                0 <= i <= points.len(),
                data@ == points.take(i as int).map_values(|p: (u64, usize)| p.1 as u64),
            decreases points.len() - i,
        {
            data.push(history[i].1 as u64);
            proof {
                assert(points.take(i + 1).map_values(|p: (u64, usize)| p.1 as u64)
                    =~= points.take(i as int).map_values(|p: (u64, usize)| p.1 as u64).push(
                    points[i as int].1 as u64,
                ));
            }
            i += 1;
        }
        proof {
            assert(points.take(points.len() as int) =~= points);
        }
        if data.len() > self.max_points {
            let skip = data.len() - self.max_points;
            let ghost full = data@;
            let mut trimmed: Vec<u64> = Vec::new();
            let mut j: usize = skip;
            while j < data.len()
                invariant
                    full == data@,
                    skip <= j <= full.len(),
                    skip == full.len() - old(self).max_points,
                    trimmed@ == full.subrange(skip as int, j as int),
                decreases full.len() - j,
            {
                trimmed.push(data[j]);
                proof {
                    assert(full.subrange(skip as int, j + 1) =~= full.subrange(
                        skip as int,
                        j as int,
                    ).push(full[j as int]));
                }
                j += 1;
            }
            proof {
                assert(full.subrange(skip as int, full.len() as int) =~= full.skip(skip as int));
            }
            self.history_data = trimmed;
        } else {
            self.history_data = data;
        }
    }

    /// One display tick: a changed filter refills the buffer; otherwise, once
    /// the sampling interval has passed, the current filtered active count is
    /// appended and the oldest point evicted past the capacity.
    pub fn update(
        &mut self,
        current_filter: &ConnectionFilter,
        monitor: &ConnectionMonitor,
        now: u64,
    )
        requires
            monitor.all_conns().len() <= usize::MAX,
        ensures
            final(self).max_points == old(self).max_points,
            final(self).sample_interval == old(self).sample_interval,
            filter_equiv(final(self).filter, *current_filter),
            !filter_equiv(old(self).filter, *current_filter) ==> final(self).history_data@
                == graph_data(
                history_points(
                    monitor.metrics.sample_timestamps@,
                    monitor.all_conns(),
                    *current_filter,
                    monitor.processes@,
                    None,
                    None,
                ),
                old(self).max_points as int,
            ),
            filter_equiv(old(self).filter, *current_filter) && now >= old(self).last_sample_time
                + old(self).sample_interval ==> {
                let appended = old(self).history_data@.push(
                    filtered_conns(
                        monitor.connections@,
                        old(self).filter,
                        monitor.processes@,
                    ).len() as u64,
                );
                &&& final(self).history_data@ == (if appended.len() > old(self).max_points {
                    appended.skip(1)
                } else {
                    appended
                })
                &&& final(self).last_sample_time == now
            },
            filter_equiv(old(self).filter, *current_filter) && now < old(self).last_sample_time
                + old(self).sample_interval ==> final(self).history_data@ == old(
                self,
            ).history_data@ && final(self).last_sample_time == old(self).last_sample_time,
    {
        if !filter_eq(&self.filter, current_filter) {
            self.filter = current_filter.clone();
            self.rebuild_history_data(monitor);
            return ;
        }
        if now >= self.last_sample_time && now - self.last_sample_time >= self.sample_interval {
            let active = monitor.get_filtered_active_connections(&self.filter);
            let count = active.len() as u64;
            self.history_data.push(count);
            let ghost appended = self.history_data@;
            if self.history_data.len() > self.max_points {
                self.history_data.remove(0);
                proof {
                    assert(appended.remove(0) =~= appended.skip(1));
                }
            }
            self.last_sample_time = now;
        }
    }

    /// The largest buffered value, zero when the buffer is empty.
    pub fn get_max_value(&self) -> (r: u64)
        ensures
            r == seq_max(self.history_data@),
    {
        let mut m: u64 = 0;
        let mut i: usize = 0;
        while i < self.history_data.len()
            invariant
                0 <= i <= self.history_data@.len(),
                m == seq_max(self.history_data@.take(i as int)),
            decreases self.history_data@.len() - i,
        {
            proof {
                assert(self.history_data@.take(i + 1).drop_last() =~= self.history_data@.take(
                    i as int,
                ));
                assert(self.history_data@.take(i + 1).last() == self.history_data@[i as int]);
            }
            if self.history_data[i] > m {
                m = self.history_data[i];
            }
            i += 1;
        }
        proof {
            assert(self.history_data@.take(self.history_data@.len() as int)
                =~= self.history_data@);
        }
        m
    }

    /// The buffered points, oldest first, for rendering.
    pub fn history(&self) -> (r: &Vec<u64>)
        ensures
            r@ == self.history_data@,
    {
        &self.history_data
    }
}

} // verus!
