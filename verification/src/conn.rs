//! One observed TCP socket flow, tracked across successive snapshots.

use vstd::prelude::*;

verus! {

/// TCP protocol state of a socket, as reported by the operating system.
/// Listening sockets are excluded upstream and never enter the registry.
#[derive(Clone, Copy, Debug, PartialEq, Eq, Structural)]
pub enum TcpState {
    Established,
    SynSent,
    SynReceived,
    FinWait1,
    FinWait2,
    TimeWait,
    Close,
    CloseWait,
    LastAck,
    Listen,
    Closing,
    Unknown,
}

/// One observed connection. Identity across snapshots is by the natural key
/// (pid, local port, remote address, remote port); `id` is a registry-assigned
/// identifier that is unique and never reused.
#[derive(Debug)]
pub struct Connection {
    /// Unique connection identifier, assigned by the registry at creation.
    pub id: u64,
    /// Owning process id.
    pub pid: u32,
    /// Local port.
    pub local_port: u16,
    /// Remote port.
    pub remote_port: u16,
    /// Textual form of the remote IP address.
    pub remote_addr: String,
    /// Reverse-resolved hostname, when one was available.
    pub remote_hostname: Option<String>,
    /// TCP state at the last observation.
    pub state: TcpState,
    /// When the connection was first observed.
    pub first_seen: u64,
    /// When the connection was last observed.
    pub last_seen: u64,
    /// Whether the connection has been inferred closed.
    pub closed: bool,
}

/// The natural key of a connection: the only identity the OS exposes.
pub open spec fn nat_key(c: Connection) -> (u32, u16, Seq<char>, u16) {
    (c.pid, c.local_port, c.remote_addr@, c.remote_port)
}

/// The hostname of a connection as a sequence, when resolved.
pub open spec fn hostname_view(c: Connection) -> Option<Seq<char>> {
    match c.remote_hostname {
        Some(h) => Some(h@),
        None => None,
    }
}

impl Clone for Connection {
    /// A clone is equal to the original in every field.
    fn clone(&self) -> (r: Self)
        ensures
            r == *self,
    {
        Connection {
            id: self.id,
            pid: self.pid,
            local_port: self.local_port,
            remote_port: self.remote_port,
            remote_addr: self.remote_addr.clone(),
            remote_hostname: match &self.remote_hostname {
                Some(h) => Some(h.clone()),
                None => None,
            },
            state: self.state,
            first_seen: self.first_seen,
            last_seen: self.last_seen,
            closed: self.closed,
        }
    }
}

impl Connection {
    /// Creates a freshly observed, open connection, first and last seen `now`.
    pub fn new(
        id: u64,
        pid: u32,
        local_port: u16,
        remote_port: u16,
        remote_addr: String,
        remote_hostname: Option<String>,
        state: TcpState,
        now: u64,
    ) -> (c: Connection)
        ensures
            c.id == id,
            c.pid == pid,
            c.local_port == local_port,
            c.remote_port == remote_port,
            c.remote_addr == remote_addr,
            c.remote_hostname == remote_hostname,
            c.state == state,
            c.first_seen == now,
            c.last_seen == now,
            !c.closed,
    {
        Connection {
            id,
            pid,
            local_port,
            remote_port,
            remote_addr,
            remote_hostname,
            state,
            first_seen: now,
            last_seen: now,
            closed: false,
        }
    }

    /// Records a re-observation: the TCP state and last-seen time change,
    /// nothing else does.
    pub fn update_state(&mut self, state: TcpState, now: u64)
        ensures
            *final(self) == (Connection { state, last_seen: now, ..*old(self) }),
    {
        self.state = state;
        self.last_seen = now;
    }

    /// Transitions the connection to closed; it is immutable afterwards.
    pub fn mark_closed(&mut self, now: u64)
        ensures
            *final(self) == (Connection { closed: true, last_seen: now, ..*old(self) }),
    {
        self.closed = true;
        self.last_seen = now;
    }
}

} // verus!
