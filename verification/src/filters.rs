//! The filter predicate: a value object of up to four conjunctive criteria,
//! evaluated against a connection and its resolved process name.

use vstd::prelude::*;
use crate::conn::Connection;
use crate::text::{contains_seq, spec_dec, str_contains, u64_to_string};
use vstd::string::StringExecFns;

verus! {

/// Optional criteria; all present ones must hold (conjunction). An empty
/// filter matches everything. Substring criteria are case-sensitive.
#[derive(Debug)]
pub struct ConnectionFilter {
    /// Exact process id.
    pub pid: Option<u32>,
    /// Substring of the resolved process name.
    pub process_name: Option<String>,
    /// Substring of the hostname, falling back to the literal address text.
    pub remote_host: Option<String>,
    /// Exact remote port.
    pub remote_port: Option<u16>,
}

/// The view of an optional string criterion.
pub open spec fn opt_view(o: Option<String>) -> Option<Seq<char>> {
    match o {
        Some(s) => Some(s@),
        None => None,
    }
}

/// The pid criterion alone.
pub open spec fn pid_criterion(f: ConnectionFilter, c: Connection) -> bool {
    match f.pid {
        Some(p) => c.pid == p,
        None => true,
    }
}

/// The process-name criterion alone: it fails whenever no name is resolved.
pub open spec fn name_criterion(f: ConnectionFilter, name: Option<Seq<char>>) -> bool {
    match opt_view(f.process_name) {
        Some(sub) => match name {
            Some(n) => contains_seq(n, sub),
            None => false,
        },
        None => true,
    }
}

/// The remote-host criterion alone: the hostname is checked first, the
/// literal address text is the fallback.
pub open spec fn host_criterion(f: ConnectionFilter, c: Connection) -> bool {
    match opt_view(f.remote_host) {
        Some(sub) => match opt_view(c.remote_hostname) {
            Some(hn) => contains_seq(hn, sub) || contains_seq(c.remote_addr@, sub),
            None => contains_seq(c.remote_addr@, sub),
        },
        None => true,
    }
}

/// The remote-port criterion alone.
pub open spec fn port_criterion(f: ConnectionFilter, c: Connection) -> bool {
    match f.remote_port {
        Some(p) => c.remote_port == p,
        None => true,
    }
}

/// What the filter decides for a connection and its resolved process name.
pub open spec fn spec_matches(f: ConnectionFilter, c: Connection, name: Option<Seq<char>>) -> bool {
    pid_criterion(f, c) && name_criterion(f, name) && host_criterion(f, c) && port_criterion(f, c)
}

/// The view of an optional borrowed string.
pub open spec fn opt_ref_view(o: Option<&str>) -> Option<Seq<char>> {
    match o {
        Some(s) => Some(s@),
        None => None,
    }
}

/// A filter with every criterion set matches exactly when each criterion,
/// evaluated alone, matches: the criteria are conjunctive and independent.
pub proof fn lemma_filter_conjunction(
    f: ConnectionFilter,
    c: Connection,
    name: Option<Seq<char>>,
)
    ensures
        spec_matches(f, c, name) == (spec_matches(
            ConnectionFilter { pid: f.pid, process_name: None, remote_host: None, remote_port: None },
            c,
            name,
        ) && spec_matches(
            ConnectionFilter {
                pid: None,
                process_name: f.process_name,
                remote_host: None,
                remote_port: None,
            },
            c,
            name,
        ) && spec_matches(
            ConnectionFilter {
                pid: None,
                process_name: None,
                remote_host: f.remote_host,
                remote_port: None,
            },
            c,
            name,
        ) && spec_matches(
            ConnectionFilter { pid: None, process_name: None, remote_host: None, remote_port: f.remote_port },
            c,
            name,
        )),
{
}

impl Clone for ConnectionFilter {
    /// A clone is equal to the original in every field.
    fn clone(&self) -> (r: Self)
        ensures
            r == *self,
    {
        ConnectionFilter {
            pid: self.pid,
            process_name: match &self.process_name {
                Some(s) => Some(s.clone()),
                None => None,
            },
            remote_host: match &self.remote_host {
                Some(s) => Some(s.clone()),
                None => None,
            },
            remote_port: self.remote_port,
        }
    }
}

impl Default for ConnectionFilter {
    /// The empty filter: no criterion set.
    fn default() -> (r: Self)
        ensures
            r.pid is None,
            r.process_name is None,
            r.remote_host is None,
            r.remote_port is None,
    {
        ConnectionFilter { pid: None, process_name: None, remote_host: None, remote_port: None }
    }
}

/// The parts of a filter description, in field order.
pub open spec fn spec_parts(f: ConnectionFilter) -> Seq<Seq<char>> {
    (match f.pid {
        Some(p) => seq!["PID: "@ + spec_dec(p as nat)],
        None => seq![],
    }) + (match opt_view(f.process_name) {
        Some(n) => seq!["Process: "@ + n],
        None => seq![],
    }) + (match opt_view(f.remote_host) {
        Some(h) => seq!["Host: "@ + h],
        None => seq![],
    }) + (match f.remote_port {
        Some(p) => seq!["Port: "@ + spec_dec(p as nat)],
        None => seq![],
    })
}

/// The parts joined with a comma and a space.
pub open spec fn spec_join(parts: Seq<Seq<char>>) -> Seq<char>
    decreases parts.len(),
{
    if parts.len() == 0 {
        Seq::empty()
    } else if parts.len() == 1 {
        parts[0]
    } else {
        spec_join(parts.drop_last()) + ", "@ + parts.last()
    }
}

/// The one-line description of a filter.
pub open spec fn spec_description(f: ConnectionFilter) -> Seq<char> {
    if spec_parts(f).len() == 0 {
        "No filters"@
    } else {
        spec_join(spec_parts(f))
    }
}

impl ConnectionFilter {
    /// The empty filter.
    pub fn new() -> (r: Self)
        ensures
            r.pid is None,
            r.process_name is None,
            r.remote_host is None,
            r.remote_port is None,
    {
        Self::default()
    }

    /// Returns the filter with the pid criterion set.
    pub fn with_pid(self, pid: u32) -> (r: Self)
        ensures
            r == (ConnectionFilter { pid: Some(pid), ..self }),
    {
        ConnectionFilter { pid: Some(pid), ..self }
    }

    /// Returns the filter with the process-name criterion set.
    pub fn with_process_name(self, name: String) -> (r: Self)
        ensures
            r == (ConnectionFilter { process_name: Some(name), ..self }),
    {
        ConnectionFilter { process_name: Some(name), ..self }
    }

    /// Returns the filter with the remote-host criterion set.
    pub fn with_remote_host(self, host: String) -> (r: Self)
        ensures
            r == (ConnectionFilter { remote_host: Some(host), ..self }),
    {
        ConnectionFilter { remote_host: Some(host), ..self }
    }

    /// Returns the filter with the remote-port criterion set.
    pub fn with_remote_port(self, port: u16) -> (r: Self)
        ensures
            r == (ConnectionFilter { remote_port: Some(port), ..self }),
    {
        ConnectionFilter { remote_port: Some(port), ..self }
    }

    /// Whether no criterion is set; such a filter matches every connection.
    pub fn is_empty(&self) -> (r: bool)
        ensures
            r == (self.pid is None && self.process_name is None && self.remote_host is None
                && self.remote_port is None),
    {
        self.pid.is_none() && self.process_name.is_none() && self.remote_host.is_none()
            && self.remote_port.is_none()
    }

    /// Renders the active criteria, or "No filters".
    pub fn to_string(&self) -> (r: String)
        ensures
            r@ == spec_description(*self),
    {
        let mut parts: Vec<String> = Vec::new();
        if let Some(pid) = self.pid {
            let mut s = String::from_str("PID: ");
            s.append(u64_to_string(pid as u64).as_str());
            parts.push(s);
        }
        if let Some(process_name) = &self.process_name {
            let mut s = String::from_str("Process: ");
            s.append(process_name.as_str());
            parts.push(s);
        }
        if let Some(remote_host) = &self.remote_host {
            let mut s = String::from_str("Host: ");
            s.append(remote_host.as_str());
            parts.push(s);
        }
        if let Some(port) = self.remote_port {
            let mut s = String::from_str("Port: ");
            s.append(u64_to_string(port as u64).as_str());
            parts.push(s);
        }
        proof {
            assert(parts.deep_view() =~= spec_parts(*self));
        }
        if parts.len() == 0 {
            return String::from_str("No filters");
        }
        let mut r = String::new();
        let mut i: usize = 0;
        while i < parts.len()
            invariant
                parts.deep_view() == spec_parts(*self),
                0 <= i <= parts@.len(),
                r@ == spec_join(parts.deep_view().take(i as int)),
            decreases parts@.len() - i,
        {
            if i > 0 {
                r.append(", ");
            }
            r.append(parts[i].as_str());
            proof {
                let pv = parts.deep_view();
                assert(pv.take(i + 1).drop_last() =~= pv.take(i as int));
                assert(pv.take(i + 1).last() == pv[i as int]);
                if i == 0 {
                    assert(r@ =~= pv.take(1)[0]);
                }
            }
            i += 1;
        }
        proof {
            assert(parts.deep_view().take(parts@.len() as int) =~= parts.deep_view());
        }
        r
    }

    /// Evaluates the filter against a connection and the resolved name of its
    /// process, if any.
    pub fn matches_connection(&self, conn: &Connection, process_name: Option<&str>) -> (r: bool)
        ensures
            r == spec_matches(*self, *conn, opt_ref_view(process_name)),
    {
        if let Some(pid) = self.pid {
            if conn.pid != pid {
                return false;
            }
        }
        if let Some(process_filter) = &self.process_name {
            if let Some(name) = process_name {
                if !str_contains(name, process_filter.as_str()) {
                    return false;
                }
            } else {
                return false;
            }
        }
        if let Some(host_filter) = &self.remote_host {
            if let Some(hostname) = &conn.remote_hostname {
                if !str_contains(hostname.as_str(), host_filter.as_str()) {
                    if !str_contains(conn.remote_addr.as_str(), host_filter.as_str()) {
                        return false;
                    }
                }
            } else {
                if !str_contains(conn.remote_addr.as_str(), host_filter.as_str()) {
                    return false;
                }
            }
        }
        if let Some(port) = self.remote_port {
            if conn.remote_port != port {
                return false;
            }
        }
        true
    }
}

} // verus!
