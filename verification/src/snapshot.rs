//! Snapshot input types: one point-in-time read of the OS socket and process
//! tables, handed to the registry as plain values.

use vstd::prelude::*;
use crate::conn::TcpState;

verus! {

/// One non-listening TCP socket from a snapshot, with its remote address
/// already reverse-resolved (loopback and link-local addresses resolve to
/// no hostname).
#[derive(Debug)]
pub struct SocketEntry {
    pub pid: u32,
    pub local_port: u16,
    pub remote_port: u16,
    /// Textual form of the remote IP address.
    pub remote_addr: String,
    /// Reverse-resolved hostname, when one was available.
    pub remote_hostname: Option<String>,
    pub state: TcpState,
}

impl Clone for SocketEntry {
    /// A clone is equal to the original in every field.
    fn clone(&self) -> (r: Self)
        ensures
            r == *self,
    {
        SocketEntry {
            pid: self.pid,
            local_port: self.local_port,
            remote_port: self.remote_port,
            remote_addr: self.remote_addr.clone(),
            remote_hostname: match &self.remote_hostname {
                Some(h) => Some(h.clone()),
                None => None,
            },
            state: self.state,
        }
    }
}

/// Scheduling status of a process, reduced to what liveness checks read.
#[derive(Clone, Copy, Debug, PartialEq, Eq, Structural)]
pub enum ProcStatus {
    Run,
    Sleep,
    Idle,
    Dead,
    Zombie,
    Stopped,
    Unknown,
}

/// A status that counts as not alive: dead, zombie or stopped.
pub open spec fn is_terminal(s: ProcStatus) -> bool {
    s == ProcStatus::Dead || s == ProcStatus::Zombie || s == ProcStatus::Stopped
}

/// One process-table row from a snapshot.
#[derive(Debug)]
pub struct ProcSnapshot {
    pub pid: u32,
    pub name: String,
    pub exe: Option<String>,
    pub memory: u64,
    pub status: ProcStatus,
}

impl Clone for ProcSnapshot {
    /// A clone is equal to the original in every field.
    fn clone(&self) -> (r: Self)
        ensures
            r == *self,
    {
        ProcSnapshot {
            pid: self.pid,
            name: self.name.clone(),
            exe: match &self.exe {
                Some(e) => Some(e.clone()),
                None => None,
            },
            memory: self.memory,
            status: self.status,
        }
    }
}


/// The natural key carried by a socket entry.
pub open spec fn entry_key(e: SocketEntry) -> (u32, u16, Seq<char>, u16) {
    (e.pid, e.local_port, e.remote_addr@, e.remote_port)
}

/// The hostname of a socket entry as a sequence, when resolved.
pub open spec fn entry_hostname_view(e: SocketEntry) -> Option<Seq<char>> {
    match e.remote_hostname {
        Some(h) => Some(h@),
        None => None,
    }
}

/// Some socket entry of the snapshot carries the natural key `k`.
pub open spec fn snapshot_has_key(sockets: Seq<SocketEntry>, k: (u32, u16, Seq<char>, u16)) -> bool {
    exists|i: int| 0 <= i < sockets.len() && entry_key(#[trigger] sockets[i]) == k
}


/// The first process-table row with key `pid`.
pub open spec fn find_snap(s: Seq<ProcSnapshot>, pid: u32) -> Option<ProcSnapshot>
    decreases s.len(),
{
    if s.len() == 0 {
        None
    } else if s[0].pid == pid {
        Some(s[0])
    } else {
        find_snap(s.skip(1), pid)
    }
}

/// A scan that saw no key `pid` in the first `i` rows continues at `i`.
pub proof fn lemma_find_snap_from(s: Seq<ProcSnapshot>, pid: u32, i: int)
    requires
        0 <= i <= s.len(),
        forall|j: int| 0 <= j < i ==> s[j].pid != pid,
    ensures
        find_snap(s, pid) == find_snap(s.skip(i), pid),
    decreases i,
{
    if i > 0 {
        assert(s.skip(1).skip(i - 1) =~= s.skip(i));
        assert(forall|j: int| 0 <= j < i - 1 ==> s.skip(1)[j].pid != pid);
        lemma_find_snap_from(s.skip(1), pid, i - 1);
    } else {
        assert(s.skip(0) =~= s);
    }
}

/// Index of the first process-table row with key `pid`.
pub fn find_snap_index(v: &Vec<ProcSnapshot>, pid: u32) -> (r: Option<usize>)
    ensures
        match r {
            Some(i) => i < v@.len() && v@[i as int].pid == pid && find_snap(v@, pid) == Some(
                v@[i as int],
            ),
            None => find_snap(v@, pid) is None,
        },
{
    let mut i: usize = 0;
    while i < v.len()
        invariant
            0 <= i <= v@.len(),
            forall|j: int| 0 <= j < i ==> v@[j].pid != pid,
        decreases v@.len() - i,
    {
        if v[i].pid == pid {
            proof {
                lemma_find_snap_from(v@, pid, i as int);
            }
            return Some(i);
        }
        i += 1;
    }
    proof {
        lemma_find_snap_from(v@, pid, v@.len() as int);
        assert(v@.skip(v@.len() as int) =~= Seq::<ProcSnapshot>::empty());
    }
    None
}

/// The pids of the snapshot rows whose status is not terminal, in order.
pub open spec fn alive_pids_of(procs: Seq<ProcSnapshot>) -> Seq<u32>
    decreases procs.len(),
{
    if procs.len() == 0 {
        Seq::empty()
    } else {
        alive_pids_of(procs.drop_last()) + (if is_terminal(procs.last().status) {
            Seq::empty()
        } else {
            seq![procs.last().pid]
        })
    }
}

/// Collects the pids of the snapshot rows with a non-terminal status.
pub fn collect_alive_pids(procs: &Vec<ProcSnapshot>) -> (r: Vec<u32>)
    ensures
        r@ == alive_pids_of(procs@),
{
    let mut r: Vec<u32> = Vec::new();
    let mut i: usize = 0;
    while i < procs.len()
        invariant
            0 <= i <= procs@.len(),
            r@ == alive_pids_of(procs@.take(i as int)),
        decreases procs@.len() - i,
    {
        let keep = match procs[i].status {
            ProcStatus::Dead => false,
            ProcStatus::Zombie => false,
            ProcStatus::Stopped => false,
            _ => true,
        };
        if keep {
            r.push(procs[i].pid);
        }
        proof {
            assert(procs@.take(i + 1).drop_last() =~= procs@.take(i as int));
            assert(procs@.take(i + 1).last() == procs@[i as int]);
            if keep {
                assert(r@ =~= alive_pids_of(procs@.take(i as int)) + seq![procs@[i as int].pid]);
            } else {
                assert(r@ =~= alive_pids_of(procs@.take(i as int)) + Seq::<u32>::empty());
            }
        }
        i += 1;
    }
    proof {
        assert(procs@.take(procs@.len() as int) =~= procs@);
    }
    r
}


/// Some socket entry of the snapshot belongs to pid `p`.
pub open spec fn snapshot_has_pid(sockets: Seq<SocketEntry>, p: u32) -> bool {
    exists|i: int| 0 <= i < sockets.len() && (#[trigger] sockets[i]).pid == p
}

/// Extending the scanned snapshot prefix by one entry extends the pids it
/// holds by exactly that entry's pid.
pub proof fn lemma_has_pid_take_succ(sockets: Seq<SocketEntry>, k: int, p: u32)
    requires
        0 <= k < sockets.len(),
    ensures
        snapshot_has_pid(sockets.take(k + 1), p) == (snapshot_has_pid(sockets.take(k), p)
            || sockets[k].pid == p),
{
    let a = sockets.take(k);
    let b = sockets.take(k + 1);
    if snapshot_has_pid(a, p) {
        let w = choose|w: int| 0 <= w < a.len() && (#[trigger] a[w]).pid == p;
        assert(b[w] == a[w]);
        assert((|i: int| 0 <= i < b.len() && b[i].pid == p)(w));
    }
    if sockets[k].pid == p {
        assert(b[k] == sockets[k]);
        assert((|i: int| 0 <= i < b.len() && b[i].pid == p)(k));
    }
    if snapshot_has_pid(b, p) {
        let w = choose|w: int| 0 <= w < b.len() && (#[trigger] b[w]).pid == p;
        if w < k {
            assert(a[w] == b[w]);
            assert((|i: int| 0 <= i < a.len() && a[i].pid == p)(w));
        } else {
            assert(b[w] == sockets[k]);
        }
    }
}

} // verus!
