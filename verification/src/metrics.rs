//! Counter state owned by the registry: for each key space (pid, host:port,
//! pid x host x port) the cumulative total, the current-concurrent count and
//! the running maximum; plus bounded history series.

use vstd::prelude::*;
use crate::conn::{hostname_view, Connection};

verus! {

/// Capacity of every bounded history series: past it, the oldest entry is
/// evicted first.
pub const HISTORY_CAP: usize = 1000;

/// Counters for one pid key.
#[derive(Clone, Copy, Debug)]
pub struct PidCounters {
    pub pid: u32,
    pub total: usize,
    pub current: usize,
    pub max: usize,
}

/// Counters for one host:port key. Only connections with a resolved hostname
/// are counted here.
#[derive(Debug)]
pub struct HostCounters {
    pub host: String,
    pub port: u16,
    pub total: usize,
    pub current: usize,
    pub max: usize,
}

impl Clone for HostCounters {
    /// A clone is equal to the original in every field.
    fn clone(&self) -> (r: Self)
        ensures
            r == *self,
    {
        HostCounters {
            host: self.host.clone(),
            port: self.port,
            total: self.total,
            current: self.current,
            max: self.max,
        }
    }
}

/// Counters for one (pid, host, port) key. Only connections with a resolved
/// hostname are counted here.
#[derive(Debug)]
pub struct ProcessHostCounters {
    pub pid: u32,
    pub host: String,
    pub port: u16,
    pub total: usize,
    pub current: usize,
    pub max: usize,
}

impl Clone for ProcessHostCounters {
    /// A clone is equal to the original in every field.
    fn clone(&self) -> (r: Self)
        ensures
            r == *self,
    {
        ProcessHostCounters {
            pid: self.pid,
            host: self.host.clone(),
            port: self.port,
            total: self.total,
            current: self.current,
            max: self.max,
        }
    }
}

/// The bounded memory-sample series of one pid: (timestamp, bytes) pairs.
#[derive(Debug)]
pub struct MemorySeries {
    pub pid: u32,
    pub samples: Vec<(u64, u64)>,
}

impl DeepView for MemorySeries {
    type V = (u32, Seq<(u64, u64)>);

    /// A series is, in the abstract, its pid and its samples.
    open spec fn deep_view(&self) -> Self::V {
        (self.pid, self.samples@)
    }
}

/// Copies a sample series element by element.
pub fn copy_samples(v: &Vec<(u64, u64)>) -> (r: Vec<(u64, u64)>)
    ensures
        r@ == v@,
{
    let mut r: Vec<(u64, u64)> = Vec::new();
    let mut i: usize = 0;
    while i < v.len()
        invariant
            0 <= i <= v@.len(),
            r@ == v@.take(i as int),
        decreases v@.len() - i,
    {
        r.push(v[i]);
        proof {
            assert(v@.take(i + 1) =~= v@.take(i as int).push(v@[i as int]));
        }
        i += 1;
    }
    proof {
        assert(v@.take(v@.len() as int) =~= v@);
    }
    r
}

impl Clone for MemorySeries {
    /// A clone has the same pid and the same samples.
    fn clone(&self) -> (r: Self)
        ensures
            r.pid == self.pid,
            r.samples@ == self.samples@,
    {
        MemorySeries { pid: self.pid, samples: copy_samples(&self.samples) }
    }
}

/// String equality with its meaning visible to callers.
pub fn string_eq(a: &String, b: &String) -> (r: bool)
    ensures
        r == (a@ == b@),
{
    a.eq(b)
}

/// All counter and history state maintained by the registry.
#[derive(Debug)]
pub struct ConnectionMetrics {
    pub by_pid: Vec<PidCounters>,
    pub by_host: Vec<HostCounters>,
    pub by_process_host: Vec<ProcessHostCounters>,
    pub memory_history: Vec<MemorySeries>,
    pub sample_timestamps: Vec<u64>,
}

impl ConnectionMetrics {
    /// Fresh, empty counter state.
    pub fn empty() -> (r: ConnectionMetrics)
        ensures
            r.by_pid@ =~= Seq::<PidCounters>::empty(),
            r.by_host@ =~= Seq::<HostCounters>::empty(),
            r.by_process_host@ =~= Seq::<ProcessHostCounters>::empty(),
            r.memory_history@ =~= Seq::<MemorySeries>::empty(),
            r.sample_timestamps@ =~= Seq::<u64>::empty(),
    {
        ConnectionMetrics {
            by_pid: Vec::new(),
            by_host: Vec::new(),
            by_process_host: Vec::new(),
            memory_history: Vec::new(),
            sample_timestamps: Vec::new(),
        }
    }
}

// ---------------------------------------------------------------------------
// Counting connections that satisfy a predicate.
// ---------------------------------------------------------------------------
/// How many elements of `s` satisfy `p`.
pub open spec fn count_where(s: Seq<Connection>, p: spec_fn(Connection) -> bool) -> nat
    decreases s.len(),
{
    if s.len() == 0 {
        0
    } else {
        count_where(s.drop_last(), p) + (if p(s.last()) {
            1nat
        } else {
            0nat
        })
    }
}

/// Connections of pid `p` that are open.
pub open spec fn pred_pid_open(pid: u32) -> spec_fn(Connection) -> bool {
    |c: Connection| c.pid == pid && !c.closed
}

/// Connections of pid `p`, open or closed.
pub open spec fn pred_pid_all(pid: u32) -> spec_fn(Connection) -> bool {
    |c: Connection| c.pid == pid
}

/// Open connections resolved to hostname `h` on remote port `port`.
pub open spec fn pred_host_open(h: Seq<char>, port: u16) -> spec_fn(Connection) -> bool {
    |c: Connection| hostname_view(c) == Some(h) && c.remote_port == port && !c.closed
}

/// Connections resolved to hostname `h` on remote port `port`.
pub open spec fn pred_host_all(h: Seq<char>, port: u16) -> spec_fn(Connection) -> bool {
    |c: Connection| hostname_view(c) == Some(h) && c.remote_port == port
}

/// Open connections of pid `pid` resolved to `h` on port `port`.
pub open spec fn pred_ph_open(pid: u32, h: Seq<char>, port: u16) -> spec_fn(Connection) -> bool {
    |c: Connection| c.pid == pid && hostname_view(c) == Some(h) && c.remote_port == port
        && !c.closed
}

/// Connections of pid `pid` resolved to `h` on port `port`.
pub open spec fn pred_ph_all(pid: u32, h: Seq<char>, port: u16) -> spec_fn(Connection) -> bool {
    |c: Connection| c.pid == pid && hostname_view(c) == Some(h) && c.remote_port == port
}

/// A count never exceeds the length.
pub proof fn lemma_count_le_len(s: Seq<Connection>, p: spec_fn(Connection) -> bool)
    ensures
        count_where(s, p) <= s.len(),
    decreases s.len(),
{
    if s.len() > 0 {
        lemma_count_le_len(s.drop_last(), p);
    }
}

/// Appending one element adds one to the count exactly when it satisfies `p`.
pub proof fn lemma_count_push(s: Seq<Connection>, p: spec_fn(Connection) -> bool, c: Connection)
    ensures
        count_where(s.push(c), p) == count_where(s, p) + (if p(c) {
            1nat
        } else {
            0nat
        }),
{
    assert(s.push(c).drop_last() =~= s);
    assert(s.push(c).last() == c);
}

/// Counting distributes over concatenation.
pub proof fn lemma_count_app(a: Seq<Connection>, b: Seq<Connection>, p: spec_fn(Connection) -> bool)
    ensures
        count_where(a + b, p) == count_where(a, p) + count_where(b, p),
    decreases b.len(),
{
    if b.len() == 0 {
        assert(a + b =~= a);
    } else {
        assert((a + b).drop_last() =~= a + b.drop_last());
        assert((a + b).last() == b.last());
        lemma_count_app(a, b.drop_last(), p);
    }
}

/// Replacing an element with one on which `p` agrees preserves the count.
pub proof fn lemma_count_update(
    s: Seq<Connection>,
    i: int,
    c: Connection,
    p: spec_fn(Connection) -> bool,
)
    requires
        0 <= i < s.len(),
        p(c) == p(s[i]),
    ensures
        count_where(s.update(i, c), p) == count_where(s, p),
    decreases s.len(),
{
    if i == s.len() - 1 {
        assert(s.update(i, c).drop_last() =~= s.drop_last());
        assert(s.update(i, c).last() == c);
    } else {
        assert(s.update(i, c).drop_last() =~= s.drop_last().update(i, c));
        assert(s.update(i, c).last() == s.last());
        lemma_count_update(s.drop_last(), i, c, p);
    }
}

/// An element that satisfies `p` makes the count positive.
pub proof fn lemma_count_pos(s: Seq<Connection>, p: spec_fn(Connection) -> bool, i: int)
    requires
        0 <= i < s.len(),
        p(s[i]),
    ensures
        count_where(s, p) >= 1,
    decreases s.len(),
{
    if i == s.len() - 1 {
    } else {
        lemma_count_pos(s.drop_last(), p, i);
    }
}

/// A pointwise-weaker predicate counts no more.
pub proof fn lemma_count_implies(
    s: Seq<Connection>,
    p: spec_fn(Connection) -> bool,
    q: spec_fn(Connection) -> bool,
)
    requires
        forall|i: int| 0 <= i < s.len() && #[trigger] p(s[i]) ==> q(s[i]),
    ensures
        count_where(s, p) <= count_where(s, q),
    decreases s.len(),
{
    if s.len() > 0 {
        assert(forall|i: int|
            0 <= i < s.drop_last().len() && #[trigger] p(s.drop_last()[i]) ==> q(s.drop_last()[i]));
        lemma_count_implies(s.drop_last(), p, q);
    }
}

/// Removing the element at `i` lowers the count exactly when it satisfies `p`.
pub proof fn lemma_count_remove(s: Seq<Connection>, p: spec_fn(Connection) -> bool, i: int)
    requires
        0 <= i < s.len(),
    ensures
        count_where(s, p) == count_where(s.remove(i), p) + (if p(s[i]) {
            1nat
        } else {
            0nat
        }),
    decreases s.len(),
{
    if i == s.len() - 1 {
        assert(s.remove(i) =~= s.drop_last());
    } else {
        assert(s.remove(i).drop_last() =~= s.drop_last().remove(i));
        assert(s.remove(i).last() == s.last());
        lemma_count_remove(s.drop_last(), p, i);
    }
}

// ---------------------------------------------------------------------------
// Association-vector lookups, one per key space.
// ---------------------------------------------------------------------------
/// The first pid entry with key `pid`.
pub open spec fn find_pid(s: Seq<PidCounters>, pid: u32) -> Option<PidCounters>
    decreases s.len(),
{
    if s.len() == 0 {
        None
    } else if s[0].pid == pid {
        Some(s[0])
    } else {
        find_pid(s.skip(1), pid)
    }
}

/// The first host entry with key (`h`, `port`).
pub open spec fn find_host(s: Seq<HostCounters>, h: Seq<char>, port: u16) -> Option<HostCounters>
    decreases s.len(),
{
    if s.len() == 0 {
        None
    } else if s[0].host@ == h && s[0].port == port {
        Some(s[0])
    } else {
        find_host(s.skip(1), h, port)
    }
}

/// The first process-host entry with key (`pid`, `h`, `port`).
pub open spec fn find_ph(s: Seq<ProcessHostCounters>, pid: u32, h: Seq<char>, port: u16) -> Option<
    ProcessHostCounters,
>
    decreases s.len(),
{
    if s.len() == 0 {
        None
    } else if s[0].pid == pid && s[0].host@ == h && s[0].port == port {
        Some(s[0])
    } else {
        find_ph(s.skip(1), pid, h, port)
    }
}

/// The samples of the first memory series with key `pid`.
pub open spec fn find_mem(s: Seq<MemorySeries>, pid: u32) -> Option<Seq<(u64, u64)>>
    decreases s.len(),
{
    if s.len() == 0 {
        None
    } else if s[0].pid == pid {
        Some(s[0].samples@)
    } else {
        find_mem(s.skip(1), pid)
    }
}

/// A scan that saw no key `pid` in the first `i` entries continues at `i`.
proof fn lemma_find_pid_from(s: Seq<PidCounters>, pid: u32, i: int)
    requires
        0 <= i <= s.len(),
        forall|j: int| 0 <= j < i ==> s[j].pid != pid,
    ensures
        find_pid(s, pid) == find_pid(s.skip(i), pid),
    decreases i,
{
    if i > 0 {
        assert(s.skip(1).skip(i - 1) =~= s.skip(i));
        assert(forall|j: int| 0 <= j < i - 1 ==> s.skip(1)[j].pid != pid);
        lemma_find_pid_from(s.skip(1), pid, i - 1);
    } else {
        assert(s.skip(0) =~= s);
    }
}

proof fn lemma_find_host_from(s: Seq<HostCounters>, h: Seq<char>, port: u16, i: int)
    requires
        0 <= i <= s.len(),
        forall|j: int| 0 <= j < i ==> !(s[j].host@ == h && s[j].port == port),
    ensures
        find_host(s, h, port) == find_host(s.skip(i), h, port),
    decreases i,
{
    if i > 0 {
        assert(s.skip(1).skip(i - 1) =~= s.skip(i));
        assert(forall|j: int|
            0 <= j < i - 1 ==> !(s.skip(1)[j].host@ == h && s.skip(1)[j].port == port));
        lemma_find_host_from(s.skip(1), h, port, i - 1);
    } else {
        assert(s.skip(0) =~= s);
    }
}

proof fn lemma_find_ph_from(s: Seq<ProcessHostCounters>, pid: u32, h: Seq<char>, port: u16, i: int)
    requires
        0 <= i <= s.len(),
        forall|j: int|
            0 <= j < i ==> !(s[j].pid == pid && s[j].host@ == h && s[j].port == port),
    ensures
        find_ph(s, pid, h, port) == find_ph(s.skip(i), pid, h, port),
    decreases i,
{
    if i > 0 {
        assert(s.skip(1).skip(i - 1) =~= s.skip(i));
        assert(forall|j: int|
            0 <= j < i - 1 ==> !(s.skip(1)[j].pid == pid && s.skip(1)[j].host@ == h && s.skip(
                1,
            )[j].port == port));
        lemma_find_ph_from(s.skip(1), pid, h, port, i - 1);
    } else {
        assert(s.skip(0) =~= s);
    }
}

proof fn lemma_find_mem_from(s: Seq<MemorySeries>, pid: u32, i: int)
    requires
        0 <= i <= s.len(),
        forall|j: int| 0 <= j < i ==> s[j].pid != pid,
    ensures
        find_mem(s, pid) == find_mem(s.skip(i), pid),
    decreases i,
{
    if i > 0 {
        assert(s.skip(1).skip(i - 1) =~= s.skip(i));
        assert(forall|j: int| 0 <= j < i - 1 ==> s.skip(1)[j].pid != pid);
        lemma_find_mem_from(s.skip(1), pid, i - 1);
    } else {
        assert(s.skip(0) =~= s);
    }
}

/// Updating position `i`, the first occurrence of key `pid`, updates what the
/// scan finds for `pid` and nothing else.
pub proof fn lemma_find_pid_update(s: Seq<PidCounters>, i: int, e: PidCounters, pid: u32)
    requires
        0 <= i < s.len(),
        s[i].pid == pid,
        e.pid == pid,
        forall|j: int| 0 <= j < i ==> s[j].pid != pid,
    ensures
        find_pid(s.update(i, e), pid) == Some(e),
        forall|q: u32| q != pid ==> find_pid(s.update(i, e), q) == find_pid(s, q),
    decreases s.len(),
{
    if i == 0 {
        assert(s.update(0, e)[0] == e);
        assert forall|q: u32| q != pid implies find_pid(s.update(0, e), q) == find_pid(s, q) by {
            assert(s.update(0, e).skip(1) =~= s.skip(1));
        }
    } else {
        assert(s.update(i, e).skip(1) =~= s.skip(1).update(i - 1, e));
        assert(forall|j: int| 0 <= j < i - 1 ==> s.skip(1)[j].pid != pid);
        lemma_find_pid_update(s.skip(1), i - 1, e, pid);
        assert(s.update(i, e)[0] == s[0]);
        assert(s[0].pid != pid);
        assert(find_pid(s.update(i, e), pid) == find_pid(s.skip(1).update(i - 1, e), pid));
        assert forall|q: u32| q != pid implies find_pid(s.update(i, e), q) == find_pid(s, q) by {
            if s[0].pid != q {
                assert(find_pid(s.update(i, e), q) == find_pid(s.skip(1).update(i - 1, e), q));
                assert(find_pid(s, q) == find_pid(s.skip(1), q));
            }
        }
    }
}

pub proof fn lemma_find_host_update(
    s: Seq<HostCounters>,
    i: int,
    e: HostCounters,
    h: Seq<char>,
    port: u16,
)
    requires
        0 <= i < s.len(),
        s[i].host@ == h && s[i].port == port,
        e.host@ == h && e.port == port,
        forall|j: int| 0 <= j < i ==> !(s[j].host@ == h && s[j].port == port),
    ensures
        find_host(s.update(i, e), h, port) == Some(e),
        forall|h2: Seq<char>, p2: u16|
            !(h2 == h && p2 == port) ==> find_host(s.update(i, e), h2, p2) == find_host(s, h2, p2),
    decreases s.len(),
{
    if i == 0 {
        assert(s.update(0, e)[0] == e);
        assert forall|h2: Seq<char>, p2: u16| !(h2 == h && p2 == port) implies find_host(
            s.update(0, e),
            h2,
            p2,
        ) == find_host(s, h2, p2) by {
            assert(s.update(0, e).skip(1) =~= s.skip(1));
        }
    } else {
        assert(s.update(i, e).skip(1) =~= s.skip(1).update(i - 1, e));
        assert(forall|j: int|
            0 <= j < i - 1 ==> !(s.skip(1)[j].host@ == h && s.skip(1)[j].port == port));
        lemma_find_host_update(s.skip(1), i - 1, e, h, port);
        assert(s.update(i, e)[0] == s[0]);
        assert(!(s[0].host@ == h && s[0].port == port));
        assert(find_host(s.update(i, e), h, port) == find_host(
            s.skip(1).update(i - 1, e),
            h,
            port,
        ));
        assert forall|h2: Seq<char>, p2: u16| !(h2 == h && p2 == port) implies find_host(
            s.update(i, e),
            h2,
            p2,
        ) == find_host(s, h2, p2) by {
            if !(s[0].host@ == h2 && s[0].port == p2) {
                assert(find_host(s.update(i, e), h2, p2) == find_host(
                    s.skip(1).update(i - 1, e),
                    h2,
                    p2,
                ));
                assert(find_host(s, h2, p2) == find_host(s.skip(1), h2, p2));
            }
        }
    }
}

pub proof fn lemma_find_ph_update(
    s: Seq<ProcessHostCounters>,
    i: int,
    e: ProcessHostCounters,
    pid: u32,
    h: Seq<char>,
    port: u16,
)
    requires
        0 <= i < s.len(),
        s[i].pid == pid && s[i].host@ == h && s[i].port == port,
        e.pid == pid && e.host@ == h && e.port == port,
        forall|j: int|
            0 <= j < i ==> !(s[j].pid == pid && s[j].host@ == h && s[j].port == port),
    ensures
        find_ph(s.update(i, e), pid, h, port) == Some(e),
        forall|q: u32, h2: Seq<char>, p2: u16|
            !(q == pid && h2 == h && p2 == port) ==> find_ph(s.update(i, e), q, h2, p2) == find_ph(
                s,
                q,
                h2,
                p2,
            ),
    decreases s.len(),
{
    if i == 0 {
        assert(s.update(0, e)[0] == e);
        assert forall|q: u32, h2: Seq<char>, p2: u16|
            !(q == pid && h2 == h && p2 == port) implies find_ph(s.update(0, e), q, h2, p2)
            == find_ph(s, q, h2, p2) by {
            assert(s.update(0, e).skip(1) =~= s.skip(1));
        }
    } else {
        assert(s.update(i, e).skip(1) =~= s.skip(1).update(i - 1, e));
        assert(forall|j: int|
            0 <= j < i - 1 ==> !(s.skip(1)[j].pid == pid && s.skip(1)[j].host@ == h && s.skip(
                1,
            )[j].port == port));
        lemma_find_ph_update(s.skip(1), i - 1, e, pid, h, port);
        assert(s.update(i, e)[0] == s[0]);
        assert(!(s[0].pid == pid && s[0].host@ == h && s[0].port == port));
        assert(find_ph(s.update(i, e), pid, h, port) == find_ph(
            s.skip(1).update(i - 1, e),
            pid,
            h,
            port,
        ));
        assert forall|q: u32, h2: Seq<char>, p2: u16|
            !(q == pid && h2 == h && p2 == port) implies find_ph(s.update(i, e), q, h2, p2)
            == find_ph(s, q, h2, p2) by {
            if !(s[0].pid == q && s[0].host@ == h2 && s[0].port == p2) {
                assert(find_ph(s.update(i, e), q, h2, p2) == find_ph(
                    s.skip(1).update(i - 1, e),
                    q,
                    h2,
                    p2,
                ));
                assert(find_ph(s, q, h2, p2) == find_ph(s.skip(1), q, h2, p2));
            }
        }
    }
}

/// Appending an entry with a fresh key makes the scan find it for that key
/// and changes nothing else.
pub proof fn lemma_find_pid_push(s: Seq<PidCounters>, e: PidCounters)
    requires
        find_pid(s, e.pid) is None,
    ensures
        find_pid(s.push(e), e.pid) == Some(e),
        forall|q: u32| q != e.pid ==> find_pid(s.push(e), q) == find_pid(s, q),
    decreases s.len(),
{
    if s.len() == 0 {
        assert(s.push(e)[0] == e);
        assert forall|q: u32| q != e.pid implies find_pid(s.push(e), q) == find_pid(s, q) by {
            reveal_with_fuel(find_pid, 2);
            assert(s.push(e).skip(1) =~= Seq::<PidCounters>::empty());
        }
    } else {
        assert(s.push(e).skip(1) =~= s.skip(1).push(e));
        assert(s.push(e)[0] == s[0]);
        assert(s[0].pid != e.pid);
        lemma_find_pid_push(s.skip(1), e);
        assert(find_pid(s.push(e), e.pid) == find_pid(s.skip(1).push(e), e.pid));
        assert forall|q: u32| q != e.pid implies find_pid(s.push(e), q) == find_pid(s, q) by {
            if s[0].pid != q {
                assert(find_pid(s.push(e), q) == find_pid(s.skip(1).push(e), q));
                assert(find_pid(s, q) == find_pid(s.skip(1), q));
            }
        }
    }
}

pub proof fn lemma_find_host_push(s: Seq<HostCounters>, e: HostCounters)
    requires
        find_host(s, e.host@, e.port) is None,
    ensures
        find_host(s.push(e), e.host@, e.port) == Some(e),
        forall|h2: Seq<char>, p2: u16|
            !(h2 == e.host@ && p2 == e.port) ==> find_host(s.push(e), h2, p2) == find_host(
                s,
                h2,
                p2,
            ),
    decreases s.len(),
{
    if s.len() == 0 {
        assert(s.push(e)[0] == e);
        assert forall|h2: Seq<char>, p2: u16| !(h2 == e.host@ && p2 == e.port) implies find_host(
            s.push(e),
            h2,
            p2,
        ) == find_host(s, h2, p2) by {
            reveal_with_fuel(find_host, 2);
            assert(s.push(e).skip(1) =~= Seq::<HostCounters>::empty());
        }
    } else {
        assert(s.push(e).skip(1) =~= s.skip(1).push(e));
        assert(s.push(e)[0] == s[0]);
        assert(!(s[0].host@ == e.host@ && s[0].port == e.port));
        lemma_find_host_push(s.skip(1), e);
        assert(find_host(s.push(e), e.host@, e.port) == find_host(
            s.skip(1).push(e),
            e.host@,
            e.port,
        ));
        assert forall|h2: Seq<char>, p2: u16| !(h2 == e.host@ && p2 == e.port) implies find_host(
            s.push(e),
            h2,
            p2,
        ) == find_host(s, h2, p2) by {
            if !(s[0].host@ == h2 && s[0].port == p2) {
                assert(find_host(s.push(e), h2, p2) == find_host(s.skip(1).push(e), h2, p2));
                assert(find_host(s, h2, p2) == find_host(s.skip(1), h2, p2));
            }
        }
    }
}

pub proof fn lemma_find_ph_push(s: Seq<ProcessHostCounters>, e: ProcessHostCounters)
    requires
        find_ph(s, e.pid, e.host@, e.port) is None,
    ensures
        find_ph(s.push(e), e.pid, e.host@, e.port) == Some(e),
        forall|q: u32, h2: Seq<char>, p2: u16|
            !(q == e.pid && h2 == e.host@ && p2 == e.port) ==> find_ph(s.push(e), q, h2, p2)
                == find_ph(s, q, h2, p2),
    decreases s.len(),
{
    if s.len() == 0 {
        assert(s.push(e)[0] == e);
        assert forall|q: u32, h2: Seq<char>, p2: u16|
            !(q == e.pid && h2 == e.host@ && p2 == e.port) implies find_ph(s.push(e), q, h2, p2)
            == find_ph(s, q, h2, p2) by {
            reveal_with_fuel(find_ph, 2);
            assert(s.push(e).skip(1) =~= Seq::<ProcessHostCounters>::empty());
        }
    } else {
        assert(s.push(e).skip(1) =~= s.skip(1).push(e));
        assert(s.push(e)[0] == s[0]);
        assert(!(s[0].pid == e.pid && s[0].host@ == e.host@ && s[0].port == e.port));
        lemma_find_ph_push(s.skip(1), e);
        assert(find_ph(s.push(e), e.pid, e.host@, e.port) == find_ph(
            s.skip(1).push(e),
            e.pid,
            e.host@,
            e.port,
        ));
        assert forall|q: u32, h2: Seq<char>, p2: u16|
            !(q == e.pid && h2 == e.host@ && p2 == e.port) implies find_ph(s.push(e), q, h2, p2)
            == find_ph(s, q, h2, p2) by {
            if !(s[0].pid == q && s[0].host@ == h2 && s[0].port == p2) {
                assert(find_ph(s.push(e), q, h2, p2) == find_ph(s.skip(1).push(e), q, h2, p2));
                assert(find_ph(s, q, h2, p2) == find_ph(s.skip(1), q, h2, p2));
            }
        }
    }
}

pub proof fn lemma_find_mem_update(s: Seq<MemorySeries>, i: int, e: MemorySeries, pid: u32)
    requires
        0 <= i < s.len(),
        s[i].pid == pid,
        e.pid == pid,
        forall|j: int| 0 <= j < i ==> s[j].pid != pid,
    ensures
        find_mem(s.update(i, e), pid) == Some(e.samples@),
        forall|q: u32| q != pid ==> find_mem(s.update(i, e), q) == find_mem(s, q),
    decreases s.len(),
{
    if i == 0 {
        assert(s.update(0, e)[0] == e);
        assert forall|q: u32| q != pid implies find_mem(s.update(0, e), q) == find_mem(s, q) by {
            assert(s.update(0, e).skip(1) =~= s.skip(1));
        }
    } else {
        assert(s.update(i, e).skip(1) =~= s.skip(1).update(i - 1, e));
        assert(forall|j: int| 0 <= j < i - 1 ==> s.skip(1)[j].pid != pid);
        lemma_find_mem_update(s.skip(1), i - 1, e, pid);
        assert(s.update(i, e)[0] == s[0]);
        assert(s[0].pid != pid);
        assert(find_mem(s.update(i, e), pid) == find_mem(s.skip(1).update(i - 1, e), pid));
        assert forall|q: u32| q != pid implies find_mem(s.update(i, e), q) == find_mem(s, q) by {
            if s[0].pid != q {
                assert(find_mem(s.update(i, e), q) == find_mem(s.skip(1).update(i - 1, e), q));
                assert(find_mem(s, q) == find_mem(s.skip(1), q));
            }
        }
    }
}

pub proof fn lemma_find_mem_push(s: Seq<MemorySeries>, e: MemorySeries)
    requires
        find_mem(s, e.pid) is None,
    ensures
        find_mem(s.push(e), e.pid) == Some(e.samples@),
        forall|q: u32| q != e.pid ==> find_mem(s.push(e), q) == find_mem(s, q),
    decreases s.len(),
{
    if s.len() == 0 {
        assert(s.push(e)[0] == e);
        assert forall|q: u32| q != e.pid implies find_mem(s.push(e), q) == find_mem(s, q) by {
            reveal_with_fuel(find_mem, 2);
            assert(s.push(e).skip(1) =~= Seq::<MemorySeries>::empty());
        }
    } else {
        assert(s.push(e).skip(1) =~= s.skip(1).push(e));
        assert(s.push(e)[0] == s[0]);
        assert(s[0].pid != e.pid);
        lemma_find_mem_push(s.skip(1), e);
        assert(find_mem(s.push(e), e.pid) == find_mem(s.skip(1).push(e), e.pid));
        assert forall|q: u32| q != e.pid implies find_mem(s.push(e), q) == find_mem(s, q) by {
            if s[0].pid != q {
                assert(find_mem(s.push(e), q) == find_mem(s.skip(1).push(e), q));
                assert(find_mem(s, q) == find_mem(s.skip(1), q));
            }
        }
    }
}

// ---------------------------------------------------------------------------
// Executable lookups.
// ---------------------------------------------------------------------------
/// Index of the first pid entry with key `pid`.
pub fn find_pid_index(v: &Vec<PidCounters>, pid: u32) -> (r: Option<usize>)
    ensures
        match r {
            Some(i) => i < v@.len() && find_pid(v@, pid) == Some(v@[i as int]) && v@[i as int].pid
                == pid && forall|j: int| 0 <= j < i ==> v@[j].pid != pid,
            None => find_pid(v@, pid) is None,
        },
{
    let mut i: usize = 0;
    while i < v.len()
        invariant
            0 <= i <= v@.len(),
            forall|j: int| 0 <= j < i ==> v@[j].pid != pid,
        decreases v@.len() - i,
    {
        if v[i].pid == pid {
            proof {
                lemma_find_pid_from(v@, pid, i as int);
            }
            return Some(i);
        }
        i += 1;
    }
    proof {
        lemma_find_pid_from(v@, pid, v@.len() as int);
        assert(v@.skip(v@.len() as int) =~= Seq::<PidCounters>::empty());
    }
    None
}

/// Index of the first host entry with key (`host`, `port`).
pub fn find_host_index(v: &Vec<HostCounters>, host: &String, port: u16) -> (r: Option<usize>)
    ensures
        match r {
            Some(i) => i < v@.len() && find_host(v@, host@, port) == Some(v@[i as int])
                && v@[i as int].host@ == host@ && v@[i as int].port == port && forall|j: int|
                0 <= j < i ==> !(v@[j].host@ == host@ && v@[j].port == port),
            None => find_host(v@, host@, port) is None,
        },
{
    let mut i: usize = 0;
    while i < v.len()
        invariant
            0 <= i <= v@.len(),
            forall|j: int| 0 <= j < i ==> !(v@[j].host@ == host@ && v@[j].port == port),
        decreases v@.len() - i,
    {
        if v[i].port == port && string_eq(&v[i].host, host) {
            proof {
                lemma_find_host_from(v@, host@, port, i as int);
            }
            return Some(i);
        }
        i += 1;
    }
    proof {
        lemma_find_host_from(v@, host@, port, v@.len() as int);
        assert(v@.skip(v@.len() as int) =~= Seq::<HostCounters>::empty());
    }
    None
}

/// Index of the first process-host entry with key (`pid`, `host`, `port`).
pub fn find_ph_index(v: &Vec<ProcessHostCounters>, pid: u32, host: &String, port: u16) -> (r:
    Option<usize>)
    ensures
        match r {
            Some(i) => i < v@.len() && find_ph(v@, pid, host@, port) == Some(v@[i as int])
                && v@[i as int].pid == pid && v@[i as int].host@ == host@ && v@[i as int].port
                == port && forall|j: int|
                0 <= j < i ==> !(v@[j].pid == pid && v@[j].host@ == host@ && v@[j].port == port),
            None => find_ph(v@, pid, host@, port) is None,
        },
{
    let mut i: usize = 0;
    while i < v.len()
        invariant
            0 <= i <= v@.len(),
            forall|j: int|
                0 <= j < i ==> !(v@[j].pid == pid && v@[j].host@ == host@ && v@[j].port == port),
        decreases v@.len() - i,
    {
        if v[i].pid == pid && v[i].port == port && string_eq(&v[i].host, host) {
            proof {
                lemma_find_ph_from(v@, pid, host@, port, i as int);
            }
            return Some(i);
        }
        i += 1;
    }
    proof {
        lemma_find_ph_from(v@, pid, host@, port, v@.len() as int);
        assert(v@.skip(v@.len() as int) =~= Seq::<ProcessHostCounters>::empty());
    }
    None
}

/// Index of the first memory series with key `pid`.
pub fn find_mem_index(v: &Vec<MemorySeries>, pid: u32) -> (r: Option<usize>)
    ensures
        match r {
            Some(i) => i < v@.len() && v@[i as int].pid == pid && find_mem(v@, pid) == Some(
                v@[i as int].samples@,
            ) && forall|j: int| 0 <= j < i ==> v@[j].pid != pid,
            None => find_mem(v@, pid) is None,
        },
{
    let mut i: usize = 0;
    while i < v.len()
        invariant
            0 <= i <= v@.len(),
            forall|j: int| 0 <= j < i ==> v@[j].pid != pid,
        decreases v@.len() - i,
    {
        if v[i].pid == pid {
            proof {
                lemma_find_mem_from(v@, pid, i as int);
            }
            return Some(i);
        }
        i += 1;
    }
    proof {
        lemma_find_mem_from(v@, pid, v@.len() as int);
        assert(v@.skip(v@.len() as int) =~= Seq::<MemorySeries>::empty());
    }
    None
}

// ---------------------------------------------------------------------------
// Bounded series.
// ---------------------------------------------------------------------------
/// Appends to a bounded series: past `HISTORY_CAP` entries, the oldest is
/// dropped.
pub open spec fn bounded_push<T>(s: Seq<T>, x: T) -> Seq<T> {
    if s.len() + 1 > HISTORY_CAP {
        s.push(x).skip(1)
    } else {
        s.push(x)
    }
}

/// A bounded series stays within the cap.
pub proof fn lemma_bounded_push_len<T>(s: Seq<T>, x: T)
    requires
        s.len() <= HISTORY_CAP,
    ensures
        bounded_push(s, x).len() <= HISTORY_CAP,
        bounded_push(s, x).len() >= 1,
{
}

/// Pushes onto a bounded timestamp series, evicting the oldest entry past the
/// cap.
pub fn push_bounded_u64(v: &mut Vec<u64>, x: u64)
    ensures
        final(v)@ == bounded_push(old(v)@, x),
{
    v.push(x);
    if v.len() > HISTORY_CAP {
        v.remove(0);
        proof {
            assert(old(v)@.push(x).remove(0) =~= old(v)@.push(x).skip(1));
        }
    }
}

/// Pushes onto a bounded sample series, evicting the oldest entry past the
/// cap.
pub fn push_bounded_sample(v: &mut Vec<(u64, u64)>, x: (u64, u64))
    ensures
        final(v)@ == bounded_push(old(v)@, x),
{
    v.push(x);
    if v.len() > HISTORY_CAP {
        v.remove(0);
        proof {
            assert(old(v)@.push(x).remove(0) =~= old(v)@.push(x).skip(1));
        }
    }
}


// ---------------------------------------------------------------------------
// Key-space consistency: what each counter entry must say about the
// connection sequences, and the mutation steps that keep it true.
// ---------------------------------------------------------------------------
/// What holds of key `p` in the pid space: a present entry carries the exact
/// open count over `live` and the exact all-time count over `all`, below its
/// running maximum; an absent key has no connection at all.
pub open spec fn pid_entry_ok(
    by_pid: Seq<PidCounters>,
    live: Seq<Connection>,
    all: Seq<Connection>,
    p: u32,
) -> bool {
    match find_pid(by_pid, p) {
        Some(e) => e.pid == p && e.current == count_where(live, pred_pid_open(p)) && e.total
            == count_where(all, pred_pid_all(p)) && e.current <= e.max,
        None => count_where(all, pred_pid_all(p)) == 0,
    }
}

/// Every pid key is consistent.
pub open spec fn pid_space_ok(
    by_pid: Seq<PidCounters>,
    live: Seq<Connection>,
    all: Seq<Connection>,
) -> bool {
    forall|p: u32| #[trigger] pid_entry_ok(by_pid, live, all, p)
}

/// What holds of key (`h`, `port`) in the host space. Only connections with a
/// resolved hostname count here.
pub open spec fn host_entry_ok(
    by_host: Seq<HostCounters>,
    live: Seq<Connection>,
    all: Seq<Connection>,
    h: Seq<char>,
    port: u16,
) -> bool {
    match find_host(by_host, h, port) {
        Some(e) => e.host@ == h && e.port == port && e.current == count_where(
            live,
            pred_host_open(h, port),
        ) && e.total == count_where(all, pred_host_all(h, port)) && e.current <= e.max,
        None => count_where(all, pred_host_all(h, port)) == 0,
    }
}

/// Every host key is consistent.
pub open spec fn host_space_ok(
    by_host: Seq<HostCounters>,
    live: Seq<Connection>,
    all: Seq<Connection>,
) -> bool {
    forall|h: Seq<char>, port: u16| #[trigger] host_entry_ok(by_host, live, all, h, port)
}

/// What holds of key (`pid`, `h`, `port`) in the process-host space.
pub open spec fn ph_entry_ok(
    by_ph: Seq<ProcessHostCounters>,
    live: Seq<Connection>,
    all: Seq<Connection>,
    pid: u32,
    h: Seq<char>,
    port: u16,
) -> bool {
    match find_ph(by_ph, pid, h, port) {
        Some(e) => e.pid == pid && e.host@ == h && e.port == port && e.current == count_where(
            live,
            pred_ph_open(pid, h, port),
        ) && e.total == count_where(all, pred_ph_all(pid, h, port)) && e.current <= e.max,
        None => count_where(all, pred_ph_all(pid, h, port)) == 0,
    }
}

/// Every process-host key is consistent.
pub open spec fn ph_space_ok(
    by_ph: Seq<ProcessHostCounters>,
    live: Seq<Connection>,
    all: Seq<Connection>,
) -> bool {
    forall|pid: u32, h: Seq<char>, port: u16| #[trigger] ph_entry_ok(by_ph, live, all, pid, h, port)
}

/// The running maximum recorded for a pid key, zero when absent.
pub open spec fn pid_max(by_pid: Seq<PidCounters>, p: u32) -> nat {
    match find_pid(by_pid, p) {
        Some(e) => e.max as nat,
        None => 0,
    }
}

/// The running maximum recorded for a host key, zero when absent.
pub open spec fn host_max(by_host: Seq<HostCounters>, h: Seq<char>, port: u16) -> nat {
    match find_host(by_host, h, port) {
        Some(e) => e.max as nat,
        None => 0,
    }
}

/// The running maximum recorded for a process-host key, zero when absent.
pub open spec fn ph_max(by_ph: Seq<ProcessHostCounters>, pid: u32, h: Seq<char>, port: u16) -> nat {
    match find_ph(by_ph, pid, h, port) {
        Some(e) => e.max as nat,
        None => 0,
    }
}

/// The pid entry after recording one newly opened connection.
pub open spec fn opened_pid_entry(o: Option<PidCounters>, pid: u32) -> PidCounters {
    match o {
        Some(e) => PidCounters {
            pid,
            total: (e.total + 1) as usize,
            current: (e.current + 1) as usize,
            max: if e.current + 1 > e.max {
                (e.current + 1) as usize
            } else {
                e.max
            },
        },
        None => PidCounters { pid, total: 1, current: 1, max: 1 },
    }
}

/// Records one newly opened connection under its pid key: total and current
/// go up by one and the running maximum absorbs the new current.
pub fn record_open_pid(v: &mut Vec<PidCounters>, pid: u32)
    requires
        match find_pid(old(v)@, pid) {
            Some(e) => e.total < usize::MAX && e.current < usize::MAX,
            None => true,
        },
    ensures
        find_pid(final(v)@, pid) == Some(opened_pid_entry(find_pid(old(v)@, pid), pid)),
        forall|q: u32| q != pid ==> find_pid(final(v)@, q) == find_pid(old(v)@, q),
{
    match find_pid_index(v, pid) {
        Some(i) => {
            let e = v[i];
            let cur = e.current + 1;
            let updated = PidCounters {
                pid,
                total: e.total + 1,
                current: cur,
                max: if cur > e.max {
                    cur
                } else {
                    e.max
                },
            };
            proof {
                lemma_find_pid_update(v@, i as int, updated, pid);
            }
            v[i] = updated;
        },
        None => {
            let e = PidCounters { pid, total: 1, current: 1, max: 1 };
            proof {
                lemma_find_pid_push(v@, e);
            }
            v.push(e);
        },
    }
}

/// Records one closed connection under its pid key: current goes down by one.
pub fn close_pid(v: &mut Vec<PidCounters>, pid: u32)
    requires
        match find_pid(old(v)@, pid) {
            Some(e) => e.current >= 1,
            None => false,
        },
    ensures
        find_pid(final(v)@, pid) == Some(
            PidCounters {
                current: (find_pid(old(v)@, pid)->Some_0.current - 1) as usize,
                ..find_pid(old(v)@, pid)->Some_0
            },
        ),
        forall|q: u32| q != pid ==> find_pid(final(v)@, q) == find_pid(old(v)@, q),
{
    match find_pid_index(v, pid) {
        Some(i) => {
            let e = v[i];
            let updated = PidCounters { current: e.current - 1, ..e };
            proof {
                lemma_find_pid_update(v@, i as int, updated, pid);
            }
            v[i] = updated;
        },
        None => {
            proof {
                assert(false);
            }
        },
    }
}

/// The host entry after recording one newly opened connection.
pub open spec fn opened_host_entry(o: Option<HostCounters>, e: HostCounters) -> bool {
    match o {
        Some(p) => e.total == p.total + 1 && e.current == p.current + 1 && e.max == (if p.current
            + 1 > p.max {
            p.current + 1
        } else {
            p.max as int
        }),
        None => e.total == 1 && e.current == 1 && e.max == 1,
    }
}

/// Records one newly opened connection under its host key.
pub fn record_open_host(v: &mut Vec<HostCounters>, host: &String, port: u16)
    requires
        match find_host(old(v)@, host@, port) {
            Some(e) => e.total < usize::MAX && e.current < usize::MAX,
            None => true,
        },
    ensures
        match find_host(final(v)@, host@, port) {
            Some(e) => e.host@ == host@ && e.port == port && opened_host_entry(
                find_host(old(v)@, host@, port),
                e,
            ),
            None => false,
        },
        forall|h2: Seq<char>, p2: u16|
            !(h2 == host@ && p2 == port) ==> find_host(final(v)@, h2, p2) == find_host(
                old(v)@,
                h2,
                p2,
            ),
{
    match find_host_index(v, host, port) {
        Some(i) => {
            let cur = v[i].current + 1;
            let updated = HostCounters {
                host: v[i].host.clone(),
                port,
                total: v[i].total + 1,
                current: cur,
                max: if cur > v[i].max {
                    cur
                } else {
                    v[i].max
                },
            };
            proof {
                lemma_find_host_update(v@, i as int, updated, host@, port);
            }
            v[i] = updated;
        },
        None => {
            let e = HostCounters { host: host.clone(), port, total: 1, current: 1, max: 1 };
            proof {
                lemma_find_host_push(v@, e);
            }
            v.push(e);
        },
    }
}

/// Records one closed connection under its host key: current goes down by one.
pub fn close_host(v: &mut Vec<HostCounters>, host: &String, port: u16)
    requires
        match find_host(old(v)@, host@, port) {
            Some(e) => e.current >= 1,
            None => false,
        },
    ensures
        match (find_host(final(v)@, host@, port), find_host(old(v)@, host@, port)) {
            (Some(e), Some(p)) => e.host@ == host@ && e.port == port && e.total == p.total
                && e.current == p.current - 1 && e.max == p.max,
            _ => false,
        },
        forall|h2: Seq<char>, p2: u16|
            !(h2 == host@ && p2 == port) ==> find_host(final(v)@, h2, p2) == find_host(
                old(v)@,
                h2,
                p2,
            ),
{
    match find_host_index(v, host, port) {
        Some(i) => {
            let updated = HostCounters {
                host: v[i].host.clone(),
                port,
                total: v[i].total,
                current: v[i].current - 1,
                max: v[i].max,
            };
            proof {
                lemma_find_host_update(v@, i as int, updated, host@, port);
            }
            v[i] = updated;
        },
        None => {
            proof {
                assert(false);
            }
        },
    }
}

/// The process-host entry after recording one newly opened connection.
pub open spec fn opened_ph_entry(o: Option<ProcessHostCounters>, e: ProcessHostCounters) -> bool {
    match o {
        Some(p) => e.total == p.total + 1 && e.current == p.current + 1 && e.max == (if p.current
            + 1 > p.max {
            p.current + 1
        } else {
            p.max as int
        }),
        None => e.total == 1 && e.current == 1 && e.max == 1,
    }
}

/// Records one newly opened connection under its process-host key.
pub fn record_open_ph(v: &mut Vec<ProcessHostCounters>, pid: u32, host: &String, port: u16)
    requires
        match find_ph(old(v)@, pid, host@, port) {
            Some(e) => e.total < usize::MAX && e.current < usize::MAX,
            None => true,
        },
    ensures
        match find_ph(final(v)@, pid, host@, port) {
            Some(e) => e.pid == pid && e.host@ == host@ && e.port == port && opened_ph_entry(
                find_ph(old(v)@, pid, host@, port),
                e,
            ),
            None => false,
        },
        forall|q: u32, h2: Seq<char>, p2: u16|
            !(q == pid && h2 == host@ && p2 == port) ==> find_ph(final(v)@, q, h2, p2) == find_ph(
                old(v)@,
                q,
                h2,
                p2,
            ),
{
    match find_ph_index(v, pid, host, port) {
        Some(i) => {
            let cur = v[i].current + 1;
            let updated = ProcessHostCounters {
                pid,
                host: v[i].host.clone(),
                port,
                total: v[i].total + 1,
                current: cur,
                max: if cur > v[i].max {
                    cur
                } else {
                    v[i].max
                },
            };
            proof {
                lemma_find_ph_update(v@, i as int, updated, pid, host@, port);
            }
            v[i] = updated;
        },
        None => {
            let e = ProcessHostCounters {
                pid,
                host: host.clone(),
                port,
                total: 1,
                current: 1,
                max: 1,
            };
            proof {
                lemma_find_ph_push(v@, e);
            }
            v.push(e);
        },
    }
}

/// Records one closed connection under its process-host key.
pub fn close_ph(v: &mut Vec<ProcessHostCounters>, pid: u32, host: &String, port: u16)
    requires
        match find_ph(old(v)@, pid, host@, port) {
            Some(e) => e.current >= 1,
            None => false,
        },
    ensures
        match (find_ph(final(v)@, pid, host@, port), find_ph(old(v)@, pid, host@, port)) {
            (Some(e), Some(p)) => e.pid == pid && e.host@ == host@ && e.port == port && e.total
                == p.total && e.current == p.current - 1 && e.max == p.max,
            _ => false,
        },
        forall|q: u32, h2: Seq<char>, p2: u16|
            !(q == pid && h2 == host@ && p2 == port) ==> find_ph(final(v)@, q, h2, p2) == find_ph(
                old(v)@,
                q,
                h2,
                p2,
            ),
{
    match find_ph_index(v, pid, host, port) {
        Some(i) => {
            let updated = ProcessHostCounters {
                pid,
                host: v[i].host.clone(),
                port,
                total: v[i].total,
                current: v[i].current - 1,
                max: v[i].max,
            };
            proof {
                lemma_find_ph_update(v@, i as int, updated, pid, host@, port);
            }
            v[i] = updated;
        },
        None => {
            proof {
                assert(false);
            }
        },
    }
}


/// The cumulative total recorded for a pid key, zero when absent.
pub open spec fn pid_total(by_pid: Seq<PidCounters>, p: u32) -> nat {
    match find_pid(by_pid, p) {
        Some(e) => e.total as nat,
        None => 0,
    }
}

/// The cumulative total recorded for a host key, zero when absent.
pub open spec fn host_total(by_host: Seq<HostCounters>, h: Seq<char>, port: u16) -> nat {
    match find_host(by_host, h, port) {
        Some(e) => e.total as nat,
        None => 0,
    }
}

/// The cumulative total recorded for a process-host key, zero when absent.
pub open spec fn ph_total(by_ph: Seq<ProcessHostCounters>, pid: u32, h: Seq<char>, port: u16) -> nat {
    match find_ph(by_ph, pid, h, port) {
        Some(e) => e.total as nat,
        None => 0,
    }
}

/// Maxima and totals never shrink from `a` to `b`, in any key space.
#[verifier::opaque]
pub open spec fn counters_monotone(a: ConnectionMetrics, b: ConnectionMetrics) -> bool {
    &&& (forall|p: u32| #[trigger] pid_max(b.by_pid@, p) >= pid_max(a.by_pid@, p))
    &&& (forall|p: u32| #[trigger] pid_total(b.by_pid@, p) >= pid_total(a.by_pid@, p))
    &&& (forall|h: Seq<char>, port: u16| #[trigger] host_max(b.by_host@, h, port) >= host_max(
        a.by_host@,
        h,
        port,
    ))
    &&& (forall|h: Seq<char>, port: u16| #[trigger] host_total(b.by_host@, h, port) >= host_total(
        a.by_host@,
        h,
        port,
    ))
    &&& (forall|pid: u32, h: Seq<char>, port: u16| #[trigger] ph_max(
        b.by_process_host@,
        pid,
        h,
        port,
    ) >= ph_max(a.by_process_host@, pid, h, port))
    &&& (forall|pid: u32, h: Seq<char>, port: u16| #[trigger] ph_total(
        b.by_process_host@,
        pid,
        h,
        port,
    ) >= ph_total(a.by_process_host@, pid, h, port))
}


/// Monotonicity is reflexive.
pub proof fn lemma_counters_monotone_refl(a: ConnectionMetrics)
    ensures
        counters_monotone(a, a),
{
    reveal(counters_monotone);
}

/// Monotonicity composes.
pub proof fn lemma_counters_monotone_trans(
    a: ConnectionMetrics,
    b: ConnectionMetrics,
    c: ConnectionMetrics,
)
    requires
        counters_monotone(a, b),
        counters_monotone(b, c),
    ensures
        counters_monotone(a, c),
{
    reveal(counters_monotone);
}


/// Recording one opened connection only raises maxima and totals.
#[verifier::spinoff_prover]
pub proof fn lemma_open_monotone(
    a: ConnectionMetrics,
    b: ConnectionMetrics,
    pid: u32,
    hostname: Option<Seq<char>>,
    port: u16,
)
    requires
        match find_pid(a.by_pid@, pid) {
            Some(e) => e.total < usize::MAX && e.current < usize::MAX,
            None => true,
        },
        find_pid(b.by_pid@, pid) == Some(opened_pid_entry(find_pid(a.by_pid@, pid), pid)),
        forall|q: u32| q != pid ==> find_pid(b.by_pid@, q) == find_pid(a.by_pid@, q),
        match hostname {
            Some(h) => {
                &&& match find_host(b.by_host@, h, port) {
                    Some(e) => opened_host_entry(find_host(a.by_host@, h, port), e),
                    None => false,
                }
                &&& (forall|h2: Seq<char>, p2: u16|
                    !(h2 == h && p2 == port) ==> find_host(b.by_host@, h2, p2) == find_host(
                        a.by_host@,
                        h2,
                        p2,
                    ))
                &&& match find_ph(b.by_process_host@, pid, h, port) {
                    Some(e) => opened_ph_entry(find_ph(a.by_process_host@, pid, h, port), e),
                    None => false,
                }
                &&& (forall|q: u32, h2: Seq<char>, p2: u16|
                    !(q == pid && h2 == h && p2 == port) ==> find_ph(b.by_process_host@, q, h2, p2)
                        == find_ph(a.by_process_host@, q, h2, p2))
            },
            None => b.by_host@ == a.by_host@ && b.by_process_host@ == a.by_process_host@,
        },
    ensures
        counters_monotone(a, b),
{
    reveal(counters_monotone);
    assert forall|p: u32| #[trigger] pid_max(b.by_pid@, p) >= pid_max(a.by_pid@, p)
        && #[trigger] pid_total(b.by_pid@, p) >= pid_total(a.by_pid@, p) by {
        if p != pid {
            assert(find_pid(b.by_pid@, p) == find_pid(a.by_pid@, p));
        }
    }
    assert forall|h2: Seq<char>, p2: u16| #[trigger] host_max(b.by_host@, h2, p2) >= host_max(
        a.by_host@,
        h2,
        p2,
    ) && #[trigger] host_total(b.by_host@, h2, p2) >= host_total(a.by_host@, h2, p2) by {
        match hostname {
            Some(h) => {
                if !(h2 == h && p2 == port) {
                    assert(find_host(b.by_host@, h2, p2) == find_host(a.by_host@, h2, p2));
                }
            },
            None => {},
        }
    }
    assert forall|q: u32, h2: Seq<char>, p2: u16| #[trigger] ph_max(b.by_process_host@, q, h2, p2)
        >= ph_max(a.by_process_host@, q, h2, p2) && #[trigger] ph_total(
        b.by_process_host@,
        q,
        h2,
        p2,
    ) >= ph_total(a.by_process_host@, q, h2, p2) by {
        match hostname {
            Some(h) => {
                if !(q == pid && h2 == h && p2 == port) {
                    assert(find_ph(b.by_process_host@, q, h2, p2) == find_ph(
                        a.by_process_host@,
                        q,
                        h2,
                        p2,
                    ));
                }
            },
            None => {},
        }
    }
}

/// Closing one connection keeps every maximum and total unchanged.
#[verifier::spinoff_prover]
pub proof fn lemma_close_monotone(
    a: ConnectionMetrics,
    b: ConnectionMetrics,
    pid: u32,
    hostname: Option<Seq<char>>,
    port: u16,
)
    requires
        ({
            let e = find_pid(a.by_pid@, pid)->Some_0;
            find_pid(a.by_pid@, pid) is Some && e.current >= 1 && find_pid(b.by_pid@, pid) == Some(
                PidCounters { current: (e.current - 1) as usize, ..e },
            )
        }),
        forall|q: u32| q != pid ==> find_pid(b.by_pid@, q) == find_pid(a.by_pid@, q),
        match hostname {
            Some(h) => {
                &&& match (find_host(b.by_host@, h, port), find_host(a.by_host@, h, port)) {
                    (Some(e), Some(p)) => e.total == p.total && e.max == p.max,
                    _ => false,
                }
                &&& (forall|h2: Seq<char>, p2: u16|
                    !(h2 == h && p2 == port) ==> find_host(b.by_host@, h2, p2) == find_host(
                        a.by_host@,
                        h2,
                        p2,
                    ))
                &&& match (
                    find_ph(b.by_process_host@, pid, h, port),
                    find_ph(a.by_process_host@, pid, h, port),
                ) {
                    (Some(e), Some(p)) => e.total == p.total && e.max == p.max,
                    _ => false,
                }
                &&& (forall|q: u32, h2: Seq<char>, p2: u16|
                    !(q == pid && h2 == h && p2 == port) ==> find_ph(b.by_process_host@, q, h2, p2)
                        == find_ph(a.by_process_host@, q, h2, p2))
            },
            None => b.by_host@ == a.by_host@ && b.by_process_host@ == a.by_process_host@,
        },
    ensures
        counters_monotone(a, b),
{
    reveal(counters_monotone);
    assert forall|p: u32| #[trigger] pid_max(b.by_pid@, p) >= pid_max(a.by_pid@, p)
        && #[trigger] pid_total(b.by_pid@, p) >= pid_total(a.by_pid@, p) by {
        if p != pid {
            assert(find_pid(b.by_pid@, p) == find_pid(a.by_pid@, p));
        }
    }
    assert forall|h2: Seq<char>, p2: u16| #[trigger] host_max(b.by_host@, h2, p2) >= host_max(
        a.by_host@,
        h2,
        p2,
    ) && #[trigger] host_total(b.by_host@, h2, p2) >= host_total(a.by_host@, h2, p2) by {
        match hostname {
            Some(h) => {
                if !(h2 == h && p2 == port) {
                    assert(find_host(b.by_host@, h2, p2) == find_host(a.by_host@, h2, p2));
                }
            },
            None => {},
        }
    }
    assert forall|q: u32, h2: Seq<char>, p2: u16| #[trigger] ph_max(b.by_process_host@, q, h2, p2)
        >= ph_max(a.by_process_host@, q, h2, p2) && #[trigger] ph_total(
        b.by_process_host@,
        q,
        h2,
        p2,
    ) >= ph_total(a.by_process_host@, q, h2, p2) by {
        match hostname {
            Some(h) => {
                if !(q == pid && h2 == h && p2 == port) {
                    assert(find_ph(b.by_process_host@, q, h2, p2) == find_ph(
                        a.by_process_host@,
                        q,
                        h2,
                        p2,
                    ));
                }
            },
            None => {},
        }
    }
}


/// Monotonicity is untouched by changes outside the three counter maps.
pub proof fn lemma_counters_monotone_same_maps(
    a: ConnectionMetrics,
    b: ConnectionMetrics,
    c: ConnectionMetrics,
)
    requires
        counters_monotone(a, b),
        c.by_pid@ == b.by_pid@,
        c.by_host@ == b.by_host@,
        c.by_process_host@ == b.by_process_host@,
    ensures
        counters_monotone(a, c),
{
    reveal(counters_monotone);
}


/// The samples of a series are in nondecreasing time order.
pub open spec fn samples_sorted(s: Seq<(u64, u64)>) -> bool {
    forall|i: int, j: int| 0 <= i < j < s.len() ==> s[i].0 <= s[j].0
}

/// Every sample of the series is at or before time `t`.
pub open spec fn samples_at_most(s: Seq<(u64, u64)>, t: u64) -> bool {
    forall|i: int| 0 <= i < s.len() ==> (#[trigger] s[i]).0 <= t
}

/// A bounded push of a sample no earlier than the series keeps it sorted and
/// bounded by the new sample's time.
pub proof fn lemma_bounded_push_sorted(s: Seq<(u64, u64)>, x: (u64, u64))
    requires
        samples_sorted(s),
        samples_at_most(s, x.0),
    ensures
        samples_sorted(bounded_push(s, x)),
        samples_at_most(bounded_push(s, x), x.0),
{
    let b = bounded_push(s, x);
    assert forall|i: int, j: int| 0 <= i < j < b.len() implies b[i].0 <= b[j].0 by {
        if s.len() + 1 > HISTORY_CAP {
            assert(b[i] == s.push(x)[i + 1]);
            assert(b[j] == s.push(x)[j + 1]);
        } else {
            assert(b[i] == s.push(x)[i]);
            assert(b[j] == s.push(x)[j]);
        }
    }
    assert forall|i: int| 0 <= i < b.len() implies (#[trigger] b[i]).0 <= x.0 by {
        if s.len() + 1 > HISTORY_CAP {
            assert(b[i] == s.push(x)[i + 1]);
        } else {
            assert(b[i] == s.push(x)[i]);
        }
    }
}

/// The current-concurrent count recorded for a pid key, zero when absent.
pub open spec fn pid_current(by_pid: Seq<PidCounters>, p: u32) -> nat {
    match find_pid(by_pid, p) {
        Some(e) => e.current as nat,
        None => 0,
    }
}

/// The current-concurrent count recorded for a host key, zero when absent.
pub open spec fn host_current(by_host: Seq<HostCounters>, h: Seq<char>, port: u16) -> nat {
    match find_host(by_host, h, port) {
        Some(e) => e.current as nat,
        None => 0,
    }
}

/// The current-concurrent count recorded for a process-host key, zero when
/// absent.
pub open spec fn ph_current(by_ph: Seq<ProcessHostCounters>, pid: u32, h: Seq<char>, port: u16) -> nat {
    match find_ph(by_ph, pid, h, port) {
        Some(e) => e.current as nat,
        None => 0,
    }
}

/// The pid space after recording at most one opened connection.
#[verifier::opaque]
pub open spec fn pid_space_opened(a: ConnectionMetrics, b: ConnectionMetrics) -> bool {
    forall|p: u32|
        ((#[trigger] pid_total(b.by_pid@, p)) == pid_total(a.by_pid@, p) && pid_current(b.by_pid@, p) == pid_current(a.by_pid@, p) && pid_max(b.by_pid@, p) == pid_max(a.by_pid@, p)) || (
        pid_total(b.by_pid@, p) == pid_total(a.by_pid@, p) + 1 && pid_current(b.by_pid@, p) == pid_current(a.by_pid@, p) + 1 && pid_max(b.by_pid@, p) == vstd::math::max(
            pid_max(a.by_pid@, p) as int,
            pid_current(b.by_pid@, p) as int,
        ))
}

/// The pid space's totals are unchanged.
#[verifier::opaque]
pub open spec fn pid_totals_eq(a: ConnectionMetrics, b: ConnectionMetrics) -> bool {
    forall|p: u32| (#[trigger] pid_total(b.by_pid@, p)) == pid_total(a.by_pid@, p)
}

/// The pid space's maxima are unchanged.
#[verifier::opaque]
pub open spec fn pid_maxes_eq(a: ConnectionMetrics, b: ConnectionMetrics) -> bool {
    forall|p: u32| (#[trigger] pid_max(b.by_pid@, p)) == pid_max(a.by_pid@, p)
}

/// The pid space's currents did not rise.
#[verifier::opaque]
pub open spec fn pid_currents_le(a: ConnectionMetrics, b: ConnectionMetrics) -> bool {
    forall|p: u32| (#[trigger] pid_current(b.by_pid@, p)) <= pid_current(a.by_pid@, p)
}

/// The pid space's totals never fell.
#[verifier::opaque]
pub open spec fn pid_totals_ge(a: ConnectionMetrics, b: ConnectionMetrics) -> bool {
    forall|p: u32| (#[trigger] pid_total(b.by_pid@, p)) >= pid_total(a.by_pid@, p)
}

/// The pid space's currents rose at most with the totals.
#[verifier::opaque]
pub open spec fn pid_current_peak(a: ConnectionMetrics, b: ConnectionMetrics) -> bool {
    forall|p: u32| (#[trigger] pid_current(b.by_pid@, p)) <= pid_current(a.by_pid@, p) + (pid_total(b.by_pid@, p) - pid_total(a.by_pid@, p))
}

/// The pid space's maxima absorbed at most the reachable peak.
#[verifier::opaque]
pub open spec fn pid_max_peak(a: ConnectionMetrics, b: ConnectionMetrics) -> bool {
    forall|p: u32|
        (#[trigger] pid_max(b.by_pid@, p)) <= vstd::math::max(
            pid_max(a.by_pid@, p) as int,
            pid_current(a.by_pid@, p) + (pid_total(b.by_pid@, p) - pid_total(a.by_pid@, p)),
        )
}

/// The host space after recording at most one opened connection.
#[verifier::opaque]
pub open spec fn host_space_opened(a: ConnectionMetrics, b: ConnectionMetrics) -> bool {
    forall|h: Seq<char>, port: u16|
        ((#[trigger] host_total(b.by_host@, h, port)) == host_total(a.by_host@, h, port) && host_current(b.by_host@, h, port) == host_current(a.by_host@, h, port) && host_max(b.by_host@, h, port) == host_max(a.by_host@, h, port)) || (
        host_total(b.by_host@, h, port) == host_total(a.by_host@, h, port) + 1 && host_current(b.by_host@, h, port) == host_current(a.by_host@, h, port) + 1 && host_max(b.by_host@, h, port) == vstd::math::max(
            host_max(a.by_host@, h, port) as int,
            host_current(b.by_host@, h, port) as int,
        ))
}

/// The host space's totals are unchanged.
#[verifier::opaque]
pub open spec fn host_totals_eq(a: ConnectionMetrics, b: ConnectionMetrics) -> bool {
    forall|h: Seq<char>, port: u16| (#[trigger] host_total(b.by_host@, h, port)) == host_total(a.by_host@, h, port)
}

/// The host space's maxima are unchanged.
#[verifier::opaque]
pub open spec fn host_maxes_eq(a: ConnectionMetrics, b: ConnectionMetrics) -> bool {
    forall|h: Seq<char>, port: u16| (#[trigger] host_max(b.by_host@, h, port)) == host_max(a.by_host@, h, port)
}

/// The host space's currents did not rise.
#[verifier::opaque]
pub open spec fn host_currents_le(a: ConnectionMetrics, b: ConnectionMetrics) -> bool {
    forall|h: Seq<char>, port: u16| (#[trigger] host_current(b.by_host@, h, port)) <= host_current(a.by_host@, h, port)
}

/// The host space's totals never fell.
#[verifier::opaque]
pub open spec fn host_totals_ge(a: ConnectionMetrics, b: ConnectionMetrics) -> bool {
    forall|h: Seq<char>, port: u16| (#[trigger] host_total(b.by_host@, h, port)) >= host_total(a.by_host@, h, port)
}

/// The host space's currents rose at most with the totals.
#[verifier::opaque]
pub open spec fn host_current_peak(a: ConnectionMetrics, b: ConnectionMetrics) -> bool {
    forall|h: Seq<char>, port: u16| (#[trigger] host_current(b.by_host@, h, port)) <= host_current(a.by_host@, h, port) + (host_total(b.by_host@, h, port) - host_total(a.by_host@, h, port))
}

/// The host space's maxima absorbed at most the reachable peak.
#[verifier::opaque]
pub open spec fn host_max_peak(a: ConnectionMetrics, b: ConnectionMetrics) -> bool {
    forall|h: Seq<char>, port: u16|
        (#[trigger] host_max(b.by_host@, h, port)) <= vstd::math::max(
            host_max(a.by_host@, h, port) as int,
            host_current(a.by_host@, h, port) + (host_total(b.by_host@, h, port) - host_total(a.by_host@, h, port)),
        )
}

/// The ph space after recording at most one opened connection.
#[verifier::opaque]
pub open spec fn ph_space_opened(a: ConnectionMetrics, b: ConnectionMetrics) -> bool {
    forall|pid: u32, h: Seq<char>, port: u16|
        ((#[trigger] ph_total(b.by_process_host@, pid, h, port)) == ph_total(a.by_process_host@, pid, h, port) && ph_current(b.by_process_host@, pid, h, port) == ph_current(a.by_process_host@, pid, h, port) && ph_max(b.by_process_host@, pid, h, port) == ph_max(a.by_process_host@, pid, h, port)) || (
        ph_total(b.by_process_host@, pid, h, port) == ph_total(a.by_process_host@, pid, h, port) + 1 && ph_current(b.by_process_host@, pid, h, port) == ph_current(a.by_process_host@, pid, h, port) + 1 && ph_max(b.by_process_host@, pid, h, port) == vstd::math::max(
            ph_max(a.by_process_host@, pid, h, port) as int,
            ph_current(b.by_process_host@, pid, h, port) as int,
        ))
}

/// The ph space's totals are unchanged.
#[verifier::opaque]
pub open spec fn ph_totals_eq(a: ConnectionMetrics, b: ConnectionMetrics) -> bool {
    forall|pid: u32, h: Seq<char>, port: u16| (#[trigger] ph_total(b.by_process_host@, pid, h, port)) == ph_total(a.by_process_host@, pid, h, port)
}

/// The ph space's maxima are unchanged.
#[verifier::opaque]
pub open spec fn ph_maxes_eq(a: ConnectionMetrics, b: ConnectionMetrics) -> bool {
    forall|pid: u32, h: Seq<char>, port: u16| (#[trigger] ph_max(b.by_process_host@, pid, h, port)) == ph_max(a.by_process_host@, pid, h, port)
}

/// The ph space's currents did not rise.
#[verifier::opaque]
pub open spec fn ph_currents_le(a: ConnectionMetrics, b: ConnectionMetrics) -> bool {
    forall|pid: u32, h: Seq<char>, port: u16| (#[trigger] ph_current(b.by_process_host@, pid, h, port)) <= ph_current(a.by_process_host@, pid, h, port)
}

/// The ph space's totals never fell.
#[verifier::opaque]
pub open spec fn ph_totals_ge(a: ConnectionMetrics, b: ConnectionMetrics) -> bool {
    forall|pid: u32, h: Seq<char>, port: u16| (#[trigger] ph_total(b.by_process_host@, pid, h, port)) >= ph_total(a.by_process_host@, pid, h, port)
}

/// The ph space's currents rose at most with the totals.
#[verifier::opaque]
pub open spec fn ph_current_peak(a: ConnectionMetrics, b: ConnectionMetrics) -> bool {
    forall|pid: u32, h: Seq<char>, port: u16| (#[trigger] ph_current(b.by_process_host@, pid, h, port)) <= ph_current(a.by_process_host@, pid, h, port) + (ph_total(b.by_process_host@, pid, h, port) - ph_total(a.by_process_host@, pid, h, port))
}

/// The ph space's maxima absorbed at most the reachable peak.
#[verifier::opaque]
pub open spec fn ph_max_peak(a: ConnectionMetrics, b: ConnectionMetrics) -> bool {
    forall|pid: u32, h: Seq<char>, port: u16|
        (#[trigger] ph_max(b.by_process_host@, pid, h, port)) <= vstd::math::max(
            ph_max(a.by_process_host@, pid, h, port) as int,
            ph_current(a.by_process_host@, pid, h, port) + (ph_total(b.by_process_host@, pid, h, port) - ph_total(a.by_process_host@, pid, h, port)),
        )
}

/// One opened connection was recorded between `a` and `b`: every key is
/// untouched, except that at most one key per space took one more total and
/// one more current, its maximum absorbing the new current.
pub open spec fn counters_opened_step(a: ConnectionMetrics, b: ConnectionMetrics) -> bool {
    pid_space_opened(a, b) && host_space_opened(a, b) && ph_space_opened(a, b)
}

/// Only closures were recorded between `a` and `b`: totals and maxima of
/// every key unchanged, currents never up.
pub open spec fn counters_closed_step(a: ConnectionMetrics, b: ConnectionMetrics) -> bool {
    pid_totals_eq(a, b) && pid_maxes_eq(a, b) && pid_currents_le(a, b) && host_totals_eq(a, b) && host_maxes_eq(a, b) && host_currents_le(a, b) && ph_totals_eq(a, b) && ph_maxes_eq(a, b) && ph_currents_le(a, b)
}

/// Between `a` and `b`, every key's current rose at most by its total's rise,
/// and its running maximum absorbed at most that peak: a maximum only ever
/// records a current value the key actually reached.
pub open spec fn counters_peak_ok(a: ConnectionMetrics, b: ConnectionMetrics) -> bool {
    pid_totals_ge(a, b) && pid_current_peak(a, b) && pid_max_peak(a, b) && host_totals_ge(a, b) && host_current_peak(a, b) && host_max_peak(a, b) && ph_totals_ge(a, b) && ph_current_peak(a, b) && ph_max_peak(a, b)
}

/// Unchanged counter maps are an opened step (the untouched case) and a
/// closed step.
#[verifier::rlimit(100)]
#[verifier::spinoff_prover]
pub proof fn lemma_steps_same_maps(a: ConnectionMetrics, b: ConnectionMetrics)
    requires
        b.by_pid@ == a.by_pid@,
        b.by_host@ == a.by_host@,
        b.by_process_host@ == a.by_process_host@,
    ensures
        counters_opened_step(a, b),
        counters_closed_step(a, b),
{
    reveal(pid_space_opened);
    reveal(pid_totals_eq);
    reveal(pid_maxes_eq);
    reveal(pid_currents_le);
    reveal(pid_totals_ge);
    reveal(pid_current_peak);
    reveal(pid_max_peak);
    reveal(host_space_opened);
    reveal(host_totals_eq);
    reveal(host_maxes_eq);
    reveal(host_currents_le);
    reveal(host_totals_ge);
    reveal(host_current_peak);
    reveal(host_max_peak);
    reveal(ph_space_opened);
    reveal(ph_totals_eq);
    reveal(ph_maxes_eq);
    reveal(ph_currents_le);
    reveal(ph_totals_ge);
    reveal(ph_current_peak);
    reveal(ph_max_peak);
}

/// Closed steps compose.
#[verifier::rlimit(100)]
#[verifier::spinoff_prover]
pub proof fn lemma_closed_step_trans(
    a: ConnectionMetrics,
    b: ConnectionMetrics,
    c: ConnectionMetrics,
)
    requires
        counters_closed_step(a, b),
        counters_closed_step(b, c),
    ensures
        counters_closed_step(a, c),
{
    reveal(pid_space_opened);
    reveal(pid_totals_eq);
    reveal(pid_maxes_eq);
    reveal(pid_currents_le);
    reveal(pid_totals_ge);
    reveal(pid_current_peak);
    reveal(pid_max_peak);
    reveal(host_space_opened);
    reveal(host_totals_eq);
    reveal(host_maxes_eq);
    reveal(host_currents_le);
    reveal(host_totals_ge);
    reveal(host_current_peak);
    reveal(host_max_peak);
    reveal(ph_space_opened);
    reveal(ph_totals_eq);
    reveal(ph_maxes_eq);
    reveal(ph_currents_le);
    reveal(ph_totals_ge);
    reveal(ph_current_peak);
    reveal(ph_max_peak);
}

/// The peak bound holds reflexively.
#[verifier::rlimit(100)]
#[verifier::spinoff_prover]
pub proof fn lemma_peak_refl(a: ConnectionMetrics)
    ensures
        counters_peak_ok(a, a),
{
    reveal(pid_space_opened);
    reveal(pid_totals_eq);
    reveal(pid_maxes_eq);
    reveal(pid_currents_le);
    reveal(pid_totals_ge);
    reveal(pid_current_peak);
    reveal(pid_max_peak);
    reveal(host_space_opened);
    reveal(host_totals_eq);
    reveal(host_maxes_eq);
    reveal(host_currents_le);
    reveal(host_totals_ge);
    reveal(host_current_peak);
    reveal(host_max_peak);
    reveal(ph_space_opened);
    reveal(ph_totals_eq);
    reveal(ph_maxes_eq);
    reveal(ph_currents_le);
    reveal(ph_totals_ge);
    reveal(ph_current_peak);
    reveal(ph_max_peak);
}

/// One step, opened or closed, extends the peak bound.
#[verifier::rlimit(100)]
#[verifier::spinoff_prover]
pub proof fn lemma_peak_step(m0: ConnectionMetrics, a: ConnectionMetrics, b: ConnectionMetrics)
    requires
        counters_peak_ok(m0, a),
        counters_opened_step(a, b) || counters_closed_step(a, b),
    ensures
        counters_peak_ok(m0, b),
{
    reveal(pid_space_opened);
    reveal(pid_totals_eq);
    reveal(pid_maxes_eq);
    reveal(pid_currents_le);
    reveal(pid_totals_ge);
    reveal(pid_current_peak);
    reveal(pid_max_peak);
    reveal(host_space_opened);
    reveal(host_totals_eq);
    reveal(host_maxes_eq);
    reveal(host_currents_le);
    reveal(host_totals_ge);
    reveal(host_current_peak);
    reveal(host_max_peak);
    reveal(ph_space_opened);
    reveal(ph_totals_eq);
    reveal(ph_maxes_eq);
    reveal(ph_currents_le);
    reveal(ph_totals_ge);
    reveal(ph_current_peak);
    reveal(ph_max_peak);
}

/// The peak bound is untouched by changes outside the counter maps.
#[verifier::rlimit(100)]
#[verifier::spinoff_prover]
pub proof fn lemma_peak_same_maps(m0: ConnectionMetrics, a: ConnectionMetrics, b: ConnectionMetrics)
    requires
        counters_peak_ok(m0, a),
        b.by_pid@ == a.by_pid@,
        b.by_host@ == a.by_host@,
        b.by_process_host@ == a.by_process_host@,
    ensures
        counters_peak_ok(m0, b),
{
    reveal(pid_space_opened);
    reveal(pid_totals_eq);
    reveal(pid_maxes_eq);
    reveal(pid_currents_le);
    reveal(pid_totals_ge);
    reveal(pid_current_peak);
    reveal(pid_max_peak);
    reveal(host_space_opened);
    reveal(host_totals_eq);
    reveal(host_maxes_eq);
    reveal(host_currents_le);
    reveal(host_totals_ge);
    reveal(host_current_peak);
    reveal(host_max_peak);
    reveal(ph_space_opened);
    reveal(ph_totals_eq);
    reveal(ph_maxes_eq);
    reveal(ph_currents_le);
    reveal(ph_totals_ge);
    reveal(ph_current_peak);
    reveal(ph_max_peak);
}

/// Recording one opened connection is an opened step: the touched key in
/// each space takes the opened-entry values, every other key is unchanged.
#[verifier::rlimit(100)]
#[verifier::spinoff_prover]
pub proof fn lemma_opened_step_from_records(
    a: ConnectionMetrics,
    b: ConnectionMetrics,
    pid: u32,
    hostname: Option<Seq<char>>,
    port: u16,
)
    requires
        match find_pid(a.by_pid@, pid) {
            Some(e) => e.total < usize::MAX && e.current < usize::MAX,
            None => true,
        },
        find_pid(b.by_pid@, pid) == Some(opened_pid_entry(find_pid(a.by_pid@, pid), pid)),
        forall|q: u32| q != pid ==> find_pid(b.by_pid@, q) == find_pid(a.by_pid@, q),
        match hostname {
            Some(h) => {
                &&& match find_host(b.by_host@, h, port) {
                    Some(e) => opened_host_entry(find_host(a.by_host@, h, port), e),
                    None => false,
                }
                &&& (forall|h2: Seq<char>, p2: u16|
                    !(h2 == h && p2 == port) ==> find_host(b.by_host@, h2, p2) == find_host(
                        a.by_host@,
                        h2,
                        p2,
                    ))
                &&& match find_ph(b.by_process_host@, pid, h, port) {
                    Some(e) => opened_ph_entry(find_ph(a.by_process_host@, pid, h, port), e),
                    None => false,
                }
                &&& (forall|q: u32, h2: Seq<char>, p2: u16|
                    !(q == pid && h2 == h && p2 == port) ==> find_ph(b.by_process_host@, q, h2, p2)
                        == find_ph(a.by_process_host@, q, h2, p2))
            },
            None => b.by_host@ == a.by_host@ && b.by_process_host@ == a.by_process_host@,
        },
    ensures
        counters_opened_step(a, b),
{
    reveal(pid_space_opened);
    reveal(host_space_opened);
    reveal(ph_space_opened);
    assert forall|p: u32|
        ((#[trigger] pid_total(b.by_pid@, p)) == pid_total(a.by_pid@, p) && pid_current(
            b.by_pid@,
            p,
        ) == pid_current(a.by_pid@, p) && pid_max(b.by_pid@, p) == pid_max(a.by_pid@, p)) || (
        pid_total(b.by_pid@, p) == pid_total(a.by_pid@, p) + 1 && pid_current(b.by_pid@, p)
            == pid_current(a.by_pid@, p) + 1 && pid_max(b.by_pid@, p) == vstd::math::max(
            pid_max(a.by_pid@, p) as int,
            pid_current(b.by_pid@, p) as int,
        )) by {
        if p != pid {
            assert(find_pid(b.by_pid@, p) == find_pid(a.by_pid@, p));
        }
    }
    assert forall|h2: Seq<char>, p2: u16|
        ((#[trigger] host_total(b.by_host@, h2, p2)) == host_total(a.by_host@, h2, p2)
            && host_current(b.by_host@, h2, p2) == host_current(a.by_host@, h2, p2) && host_max(
            b.by_host@,
            h2,
            p2,
        ) == host_max(a.by_host@, h2, p2)) || (host_total(b.by_host@, h2, p2) == host_total(
            a.by_host@,
            h2,
            p2,
        ) + 1 && host_current(b.by_host@, h2, p2) == host_current(a.by_host@, h2, p2) + 1
            && host_max(b.by_host@, h2, p2) == vstd::math::max(
            host_max(a.by_host@, h2, p2) as int,
            host_current(b.by_host@, h2, p2) as int,
        )) by {
        match hostname {
            Some(h) => {
                if !(h2 == h && p2 == port) {
                    assert(find_host(b.by_host@, h2, p2) == find_host(a.by_host@, h2, p2));
                }
            },
            None => {},
        }
    }
    assert forall|q: u32, h2: Seq<char>, p2: u16|
        ((#[trigger] ph_total(b.by_process_host@, q, h2, p2)) == ph_total(
            a.by_process_host@,
            q,
            h2,
            p2,
        ) && ph_current(b.by_process_host@, q, h2, p2) == ph_current(a.by_process_host@, q, h2, p2)
            && ph_max(b.by_process_host@, q, h2, p2) == ph_max(a.by_process_host@, q, h2, p2)) || (
        ph_total(b.by_process_host@, q, h2, p2) == ph_total(a.by_process_host@, q, h2, p2) + 1
            && ph_current(b.by_process_host@, q, h2, p2) == ph_current(
            a.by_process_host@,
            q,
            h2,
            p2,
        ) + 1 && ph_max(b.by_process_host@, q, h2, p2) == vstd::math::max(
            ph_max(a.by_process_host@, q, h2, p2) as int,
            ph_current(b.by_process_host@, q, h2, p2) as int,
        )) by {
        match hostname {
            Some(h) => {
                if !(q == pid && h2 == h && p2 == port) {
                    assert(find_ph(b.by_process_host@, q, h2, p2) == find_ph(
                        a.by_process_host@,
                        q,
                        h2,
                        p2,
                    ));
                }
            },
            None => {},
        }
    }
}

/// Closing one connection is a closed step: its keys keep total and maximum
/// and lose one current, every other key is unchanged.
#[verifier::rlimit(100)]
#[verifier::spinoff_prover]
pub proof fn lemma_closed_step_from_close(
    a: ConnectionMetrics,
    b: ConnectionMetrics,
    pid: u32,
    hostname: Option<Seq<char>>,
    port: u16,
)
    requires
        ({
            let e = find_pid(a.by_pid@, pid)->Some_0;
            find_pid(a.by_pid@, pid) is Some && e.current >= 1 && find_pid(b.by_pid@, pid) == Some(
                PidCounters { current: (e.current - 1) as usize, ..e },
            )
        }),
        forall|q: u32| q != pid ==> find_pid(b.by_pid@, q) == find_pid(a.by_pid@, q),
        match hostname {
            Some(h) => {
                &&& match (find_host(b.by_host@, h, port), find_host(a.by_host@, h, port)) {
                    (Some(e), Some(p)) => e.total == p.total && e.max == p.max && e.current
                        == p.current - 1,
                    _ => false,
                }
                &&& (forall|h2: Seq<char>, p2: u16|
                    !(h2 == h && p2 == port) ==> find_host(b.by_host@, h2, p2) == find_host(
                        a.by_host@,
                        h2,
                        p2,
                    ))
                &&& match (
                    find_ph(b.by_process_host@, pid, h, port),
                    find_ph(a.by_process_host@, pid, h, port),
                ) {
                    (Some(e), Some(p)) => e.total == p.total && e.max == p.max && e.current
                        == p.current - 1,
                    _ => false,
                }
                &&& (forall|q: u32, h2: Seq<char>, p2: u16|
                    !(q == pid && h2 == h && p2 == port) ==> find_ph(b.by_process_host@, q, h2, p2)
                        == find_ph(a.by_process_host@, q, h2, p2))
            },
            None => b.by_host@ == a.by_host@ && b.by_process_host@ == a.by_process_host@,
        },
    ensures
        counters_closed_step(a, b),
{
    reveal(pid_totals_eq);
    reveal(pid_maxes_eq);
    reveal(pid_currents_le);
    reveal(host_totals_eq);
    reveal(host_maxes_eq);
    reveal(host_currents_le);
    reveal(ph_totals_eq);
    reveal(ph_maxes_eq);
    reveal(ph_currents_le);
    assert forall|p: u32|
        (#[trigger] pid_total(b.by_pid@, p)) == pid_total(a.by_pid@, p) && pid_max(b.by_pid@, p)
            == pid_max(a.by_pid@, p) && pid_current(b.by_pid@, p) <= pid_current(
            a.by_pid@,
            p,
        ) by {
        if p != pid {
            assert(find_pid(b.by_pid@, p) == find_pid(a.by_pid@, p));
        }
    }
    assert forall|h2: Seq<char>, p2: u16|
        (#[trigger] host_total(b.by_host@, h2, p2)) == host_total(a.by_host@, h2, p2) && host_max(
            b.by_host@,
            h2,
            p2,
        ) == host_max(a.by_host@, h2, p2) && host_current(b.by_host@, h2, p2) <= host_current(
            a.by_host@,
            h2,
            p2,
        ) by {
        match hostname {
            Some(h) => {
                if !(h2 == h && p2 == port) {
                    assert(find_host(b.by_host@, h2, p2) == find_host(a.by_host@, h2, p2));
                }
            },
            None => {},
        }
    }
    assert forall|q: u32, h2: Seq<char>, p2: u16|
        (#[trigger] ph_total(b.by_process_host@, q, h2, p2)) == ph_total(
            a.by_process_host@,
            q,
            h2,
            p2,
        ) && ph_max(b.by_process_host@, q, h2, p2) == ph_max(a.by_process_host@, q, h2, p2)
            && ph_current(b.by_process_host@, q, h2, p2) <= ph_current(
            a.by_process_host@,
            q,
            h2,
            p2,
        ) by {
        match hostname {
            Some(h) => {
                if !(q == pid && h2 == h && p2 == port) {
                    assert(find_ph(b.by_process_host@, q, h2, p2) == find_ph(
                        a.by_process_host@,
                        q,
                        h2,
                        p2,
                    ));
                }
            },
            None => {},
        }
    }
}

} // verus!
