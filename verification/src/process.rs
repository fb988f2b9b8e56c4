//! One observed process, with a monotonic memory high-water mark.

use vstd::prelude::*;

verus! {

/// One observed pid and its metadata. `max_memory_usage` is a running maximum
/// of every `current_memory_usage` sample ever recorded.
#[derive(Debug)]
pub struct Process {
    pub pid: u32,
    pub name: Option<String>,
    pub exe: Option<String>,
    pub current_memory_usage: u64,
    pub max_memory_usage: u64,
    pub first_seen: u64,
    pub last_seen: u64,
}

impl Clone for Process {
    /// A clone is equal to the original in every field.
    fn clone(&self) -> (r: Self)
        ensures
            r == *self,
    {
        Process {
            pid: self.pid,
            name: match &self.name {
                Some(n) => Some(n.clone()),
                None => None,
            },
            exe: match &self.exe {
                Some(e) => Some(e.clone()),
                None => None,
            },
            current_memory_usage: self.current_memory_usage,
            max_memory_usage: self.max_memory_usage,
            first_seen: self.first_seen,
            last_seen: self.last_seen,
        }
    }
}

impl Process {
    /// Creates a process record from its first successful metadata lookup.
    pub fn new(pid: u32, name: Option<String>, exe: Option<String>, memory_usage: u64, now: u64) -> (p:
        Process)
        ensures
            p.pid == pid,
            p.name == name,
            p.exe == exe,
            p.current_memory_usage == memory_usage,
            p.max_memory_usage == memory_usage,
            p.first_seen == now,
            p.last_seen == now,
    {
        Process {
            pid,
            name,
            exe,
            current_memory_usage: memory_usage,
            max_memory_usage: memory_usage,
            first_seen: now,
            last_seen: now,
        }
    }

    /// Records a fresh metadata sample. A `None` name or executable leaves the
    /// previous value in place; the memory maximum never decreases.
    pub fn update(&mut self, name: Option<String>, exe: Option<String>, memory_usage: u64, now: u64)
        ensures
            final(self).pid == old(self).pid,
            final(self).first_seen == old(self).first_seen,
            final(self).name == if name is Some {
                name
            } else {
                old(self).name
            },
            final(self).exe == if exe is Some {
                exe
            } else {
                old(self).exe
            },
            final(self).current_memory_usage == memory_usage,
            final(self).max_memory_usage == if memory_usage > old(self).max_memory_usage {
                memory_usage
            } else {
                old(self).max_memory_usage
            },
            final(self).max_memory_usage >= old(self).max_memory_usage,
            final(self).last_seen == now,
    {
        if let Some(new_name) = name {
            self.name = Some(new_name);
        }
        if let Some(new_exe) = exe {
            self.exe = Some(new_exe);
        }
        self.current_memory_usage = memory_usage;
        if memory_usage > self.max_memory_usage {
            self.max_memory_usage = memory_usage;
        }
        self.last_seen = now;
    }
}


/// The first process record with key `pid`.
pub open spec fn find_proc(s: Seq<Process>, pid: u32) -> Option<Process>
    decreases s.len(),
{
    if s.len() == 0 {
        None
    } else if s[0].pid == pid {
        Some(s[0])
    } else {
        find_proc(s.skip(1), pid)
    }
}

/// A scan that saw no key `pid` in the first `i` entries continues at `i`.
pub proof fn lemma_find_proc_from(s: Seq<Process>, pid: u32, i: int)
    requires
        0 <= i <= s.len(),
        forall|j: int| 0 <= j < i ==> s[j].pid != pid,
    ensures
        find_proc(s, pid) == find_proc(s.skip(i), pid),
    decreases i,
{
    if i > 0 {
        assert(s.skip(1).skip(i - 1) =~= s.skip(i));
        assert(forall|j: int| 0 <= j < i - 1 ==> s.skip(1)[j].pid != pid);
        lemma_find_proc_from(s.skip(1), pid, i - 1);
    } else {
        assert(s.skip(0) =~= s);
    }
}

/// Updating position `i`, the first occurrence of key `pid`, updates what the
/// scan finds for `pid` and nothing else.
pub proof fn lemma_find_proc_update(s: Seq<Process>, i: int, e: Process, pid: u32)
    requires
        0 <= i < s.len(),
        s[i].pid == pid,
        e.pid == pid,
        forall|j: int| 0 <= j < i ==> s[j].pid != pid,
    ensures
        find_proc(s.update(i, e), pid) == Some(e),
        forall|q: u32| q != pid ==> find_proc(s.update(i, e), q) == find_proc(s, q),
    decreases s.len(),
{
    if i == 0 {
        assert(s.update(0, e)[0] == e);
        assert forall|q: u32| q != pid implies find_proc(s.update(0, e), q) == find_proc(s, q) by {
            assert(s.update(0, e).skip(1) =~= s.skip(1));
        }
    } else {
        assert(s.update(i, e).skip(1) =~= s.skip(1).update(i - 1, e));
        assert(forall|j: int| 0 <= j < i - 1 ==> s.skip(1)[j].pid != pid);
        lemma_find_proc_update(s.skip(1), i - 1, e, pid);
        assert(s.update(i, e)[0] == s[0]);
        assert(s[0].pid != pid);
        assert(find_proc(s.update(i, e), pid) == find_proc(s.skip(1).update(i - 1, e), pid));
        assert forall|q: u32| q != pid implies find_proc(s.update(i, e), q) == find_proc(s, q) by {
            if s[0].pid != q {
                assert(find_proc(s.update(i, e), q) == find_proc(s.skip(1).update(i - 1, e), q));
                assert(find_proc(s, q) == find_proc(s.skip(1), q));
            }
        }
    }
}

/// Appending a record with a fresh key makes the scan find it for that key
/// and changes nothing else.
pub proof fn lemma_find_proc_push(s: Seq<Process>, e: Process)
    requires
        find_proc(s, e.pid) is None,
    ensures
        find_proc(s.push(e), e.pid) == Some(e),
        forall|q: u32| q != e.pid ==> find_proc(s.push(e), q) == find_proc(s, q),
    decreases s.len(),
{
    if s.len() == 0 {
        assert(s.push(e)[0] == e);
        assert forall|q: u32| q != e.pid implies find_proc(s.push(e), q) == find_proc(s, q) by {
            reveal_with_fuel(find_proc, 2);
            assert(s.push(e).skip(1) =~= Seq::<Process>::empty());
        }
    } else {
        assert(s.push(e).skip(1) =~= s.skip(1).push(e));
        assert(s.push(e)[0] == s[0]);
        assert(s[0].pid != e.pid);
        lemma_find_proc_push(s.skip(1), e);
        assert(find_proc(s.push(e), e.pid) == find_proc(s.skip(1).push(e), e.pid));
        assert forall|q: u32| q != e.pid implies find_proc(s.push(e), q) == find_proc(s, q) by {
            if s[0].pid != q {
                assert(find_proc(s.push(e), q) == find_proc(s.skip(1).push(e), q));
                assert(find_proc(s, q) == find_proc(s.skip(1), q));
            }
        }
    }
}

/// Index of the first process record with key `pid`.
pub fn find_proc_index(v: &Vec<Process>, pid: u32) -> (r: Option<usize>)
    ensures
        match r {
            Some(i) => i < v@.len() && v@[i as int].pid == pid && find_proc(v@, pid) == Some(
                v@[i as int],
            ) && forall|j: int| 0 <= j < i ==> v@[j].pid != pid,
            None => find_proc(v@, pid) is None,
        },
{
    let mut i: usize = 0;
    while i < v.len()
        invariant
            0 <= i <= v@.len(),
            forall|j: int| 0 <= j < i ==> v@[j].pid != pid,
        decreases v@.len() - i,
    {
        if v[i].pid == pid {
            proof {
                lemma_find_proc_from(v@, pid, i as int);
            }
            return Some(i);
        }
        i += 1;
    }
    proof {
        lemma_find_proc_from(v@, pid, v@.len() as int);
        assert(v@.skip(v@.len() as int) =~= Seq::<Process>::empty());
    }
    None
}

} // verus!
