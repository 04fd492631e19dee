use vstd::prelude::*;
use vstd::slice::slice_to_vec;
use std::collections::HashMap;
use crate::constants::{CKB_MAX_FDS_CREATED, MAX_FDS, MAX_PROCESSES_COUNT};
use crate::scheduler::{
    chosen, find_hinted, lemma_best_ready, lemma_first_hinted, lemma_match_upto_shape,
    match_pending, match_phase, pick_ready, views, PendingOp, ProcStatus,
};
use crate::utils::{peer_of, Event, Fd, ProcID};

verus! {

broadcast use vstd::std_specs::hash::group_hash_axioms;

/// The record of one process. `H` is whatever lets the host collect the
/// exit code of the process once its body has returned.
pub struct ProcInfo<H> {
    pub parent_id: ProcID,
    pub inherited_fds: Vec<Fd>,
    pub scheduler_event: Event,
    pub join_handle: Option<H>,
}

/// The mathematical content of a process record.
pub struct ProcessView<H> {
    pub parent_id: u64,
    pub inherited_fds: Seq<Fd>,
    pub signaled: bool,
    pub join_handle: Option<H>,
}

impl<H> View for ProcInfo<H> {
    type V = ProcessView<H>;

    open spec fn view(&self) -> ProcessView<H> {
        ProcessView {
            parent_id: self.parent_id.0,
            inherited_fds: self.inherited_fds@,
            signaled: self.scheduler_event.signaled,
            join_handle: self.join_handle,
        }
    }
}

/// The mathematical content of a simulation: the two counters, the process
/// table, the owner of every open pipe end, the pending operations from
/// the oldest to the newest, and the bytes delivered to reads that their
/// readers have not collected yet.
pub struct SimView<H> {
    pub fd_count: u64,
    pub process_id_count: u64,
    pub processes: Map<u64, ProcessView<H>>,
    pub pending: Seq<PendingOp>,
    pub cache: Map<u64, Seq<u8>>,
    pub fds: Map<u64, u64>,
}

impl<H> SimView<H> {
    /// A simulation as it starts: the root process alone, no pipe, nothing
    /// pending.
    pub open spec fn initial() -> Self {
        SimView {
            fd_count: 2,
            process_id_count: 1,
            processes: Map::empty().insert(
                0,
                ProcessView {
                    parent_id: 0,
                    inherited_fds: Seq::empty(),
                    signaled: false,
                    join_handle: None,
                },
            ),
            pending: Seq::empty(),
            cache: Map::empty(),
            fds: Map::empty(),
        }
    }

    /// What holds of every simulation: the processes are exactly the ids
    /// below the counter, every parent and every process named by a
    /// pending operation is one of them, the next pipe end is even, and
    /// every open pipe end lies below it.
    pub open spec fn wf(self) -> bool {
        &&& self.process_id_count >= 1
        &&& forall|p: u64| #[trigger] self.processes.contains_key(p) <==> p < self.process_id_count
        &&& forall|p: u64|
            p < self.process_id_count ==> (#[trigger] self.processes[p]).parent_id
                < self.process_id_count
        &&& forall|i: int|
            0 <= i < self.pending.len() ==> (#[trigger] self.pending[i]).pid()
                < self.process_id_count
        &&& self.fd_count >= 2
        &&& self.fd_count % 2 == 0
        &&& forall|f: u64| #[trigger] self.fds.contains_key(f) ==> f < self.fd_count
        &&& self.fds.dom().finite()
    }

    /// Whether `pid` is a process of the simulation.
    pub open spec fn has_proc(self, pid: u64) -> bool {
        self.processes.contains_key(pid)
    }

    /// Whether the pipe end `fd` is open and owned by `pid`.
    pub open spec fn has_fd(self, pid: u64, fd: u64) -> bool {
        self.fds.contains_key(fd) && self.fds[fd] == pid
    }

    /// Whether the other end of the pipe of `fd` is open.
    pub open spec fn other_end_open(self, fd: u64) -> bool {
        self.fds.contains_key(peer_of(fd))
    }

    /// The simulation with the wake flag of `pid` set.
    pub open spec fn notify(self, pid: u64) -> Self {
        SimView {
            processes: self.processes.insert(
                pid,
                ProcessView { signaled: true, ..self.processes[pid] },
            ),
            ..self
        }
    }

    /// The process that is woken when `op` is retired: the one that waits
    /// on a read or a write, and the parent of the one that was started,
    /// has closed a pipe end or has ended.
    pub open spec fn wake_target(self, op: PendingOp) -> u64 {
        match op {
            PendingOp::ReadWait { pid, .. } => pid,
            PendingOp::WriteWait { pid, .. } => pid,
            _ => self.processes[op.pid()].parent_id,
        }
    }

    /// The simulation after the pending operation at `i` is retired: it
    /// leaves the list, a read leaves its bytes for its reader, and the
    /// process that waits for it is woken.
    pub open spec fn retire(self, i: int) -> Self
        recommends
            0 <= i < self.pending.len(),
    {
        let op = self.pending[i];
        SimView {
            pending: self.pending.remove(i),
            cache: match op {
                PendingOp::ReadWait { fd, accumulated, .. } => self.cache.insert(fd, accumulated),
                _ => self.cache,
            },
            ..self
        }.notify(self.wake_target(op))
    }

    /// The simulation after a wake phase: at most one operation is retired.
    pub open spec fn wake(self, hint: Option<u64>) -> Self {
        match chosen(self.pending, hint) {
            Some(i) => self.retire(i),
            None => self,
        }
    }

    /// The simulation after a scheduler step: the matching phase, then the
    /// wake phase.
    pub open spec fn schedule(self, hint: Option<u64>) -> Self {
        SimView { pending: match_phase(self.pending), ..self }.wake(hint)
    }

    /// The simulation with `op` added as the newest pending operation.
    pub open spec fn enqueue(self, op: PendingOp) -> Self {
        SimView { pending: self.pending.push(op), ..self }
    }

    /// The simulation with one more pipe, made by `pid`: its two ends take
    /// the two values at the counter.
    pub open spec fn add_pipe(self, pid: u64) -> Self {
        SimView {
            fd_count: (self.fd_count + 2) as u64,
            fds: self.fds.insert(self.fd_count, pid).insert((self.fd_count + 1) as u64, pid),
            ..self
        }
    }

    /// Whether the simulation holds as many open pipe ends as it may.
    pub open spec fn pipes_full(self) -> bool {
        self.fds.len() >= MAX_FDS
    }

    /// The simulation after `pid` has asked for a pipe: the pipe is made
    /// unless the simulation holds as many open pipe ends as it may.
    pub open spec fn new_pipe(self, pid: u64) -> Self {
        if self.pipes_full() {
            self
        } else {
            self.add_pipe(pid)
        }
    }

    /// The simulation after `pid` has closed its pipe end `fd`: the close
    /// is announced, a scheduler step runs, and the end is gone.
    pub open spec fn close_pipe(self, pid: u64, fd: u64) -> Self {
        let stepped = self.enqueue(PendingOp::CloseWait { pid, fd }).schedule(Some(fd));
        SimView { fds: stepped.fds.remove(fd), ..stepped }
    }

    /// The simulation after the pipe end `fd` has passed to `pid`.
    pub open spec fn move_pipe(self, fd: u64, pid: u64) -> Self {
        SimView { fds: self.fds.insert(fd, pid), ..self }
    }

    /// The simulation after the body of `pid` has returned: every pipe end
    /// that it owned is gone, and its end is announced.
    pub open spec fn close_all(self, pid: u64) -> Self {
        SimView {
            fds: Map::new(
                |f: u64| self.fds.contains_key(f) && self.fds[f] != pid,
                |f: u64| self.fds[f],
            ),
            ..self
        }.enqueue(PendingOp::Terminated { pid })
    }

    /// The simulation after `parent` has started a process that inherits
    /// the pipe ends `fds`: the new process takes the next id and owns the
    /// inherited ends, and its start is announced.
    pub open spec fn start_process(self, parent: u64, fds: Seq<Fd>) -> Self {
        let id = self.process_id_count;
        SimView {
            process_id_count: (id + 1) as u64,
            processes: self.processes.insert(
                id,
                ProcessView {
                    parent_id: parent,
                    inherited_fds: fds,
                    signaled: false,
                    join_handle: None,
                },
            ),
            fds: Map::new(
                |f: u64| self.fds.contains_key(f),
                |f: u64|
                    if fds.contains(Fd(f)) {
                        id
                    } else {
                        self.fds[f]
                    },
            ),
            ..self
        }.enqueue(PendingOp::WaitSpawn { pid: id })
    }

    /// The simulation after the host has attached `handle` to `pid`.
    pub open spec fn set_join_handle(self, pid: u64, handle: H) -> Self {
        SimView {
            processes: self.processes.insert(
                pid,
                ProcessView { join_handle: Some(handle), ..self.processes[pid] },
            ),
            ..self
        }
    }

    /// The simulation after a scheduler step and the detaching of the
    /// handle of `pid`.
    pub open spec fn exit(self, pid: u64) -> Self {
        let stepped = self.schedule(None);
        SimView {
            processes: stepped.processes.insert(
                pid,
                ProcessView { join_handle: None, ..stepped.processes[pid] },
            ),
            ..stepped
        }
    }

    /// The simulation after `pid` has asked for `len` bytes from `fd`.
    pub open spec fn wait_read(self, pid: u64, fd: u64, len: nat) -> Self {
        self.enqueue(
            PendingOp::ReadWait { pid, fd, remaining: len, accumulated: Seq::empty() },
        ).schedule(Some(fd))
    }

    /// The simulation after `pid` has offered the bytes `buf` to `fd`.
    pub open spec fn wait_write(self, pid: u64, fd: u64, buf: Seq<u8>) -> Self {
        self.enqueue(PendingOp::WriteWait { pid, fd, pending: buf }).schedule(Some(fd))
    }

    /// The bytes that a reader collects from `fd`: what was delivered to
    /// its read, or nothing when nothing was.
    pub open spec fn cached(self, fd: u64) -> Seq<u8> {
        if self.cache.contains_key(fd) {
            self.cache[fd]
        } else {
            Seq::empty()
        }
    }

    /// The simulation after the reader has collected its bytes from `fd`.
    pub open spec fn read_cache(self, fd: u64) -> Self {
        SimView { cache: self.cache.remove(fd), ..self }
    }

    /// The simulation after `pid` has consumed its wake flag.
    pub open spec fn wait_event(self, pid: u64) -> Self {
        SimView {
            processes: self.processes.insert(
                pid,
                ProcessView { signaled: false, ..self.processes[pid] },
            ),
            ..self
        }
    }
}

/// The hint of a scheduler step as a plain value.
pub open spec fn hint_of(fd: Option<Fd>) -> Option<u64> {
    match fd {
        Some(f) => Some(f.0),
        None => None,
    }
}

/// The contents of a process table.
pub open spec fn process_views<H>(table: Map<u64, ProcInfo<H>>) -> Map<u64, ProcessView<H>> {
    Map::new(|p: u64| table.contains_key(p), |p: u64| table[p]@)
}

/// The contents of a table of delivered bytes.
pub open spec fn cache_views(table: Map<u64, Vec<u8>>) -> Map<u64, Seq<u8>> {
    Map::new(|f: u64| table.contains_key(f), |f: u64| table[f]@)
}

/// The state of one simulation.
pub struct SimContext<H> {
    fd_count: u64,
    process_id_count: ProcID,
    processes: HashMap<u64, ProcInfo<H>>,
    process_status: Vec<ProcStatus>,
    readed_cache: HashMap<u64, Vec<u8>>,
    fds: HashMap<u64, u64>,
}

impl<H> View for SimContext<H> {
    type V = SimView<H>;

    closed spec fn view(&self) -> SimView<H> {
        SimView {
            fd_count: self.fd_count,
            process_id_count: self.process_id_count.0,
            processes: process_views(self.processes@),
            pending: views(self.process_status@),
            cache: cache_views(self.readed_cache@),
            fds: self.fds@,
        }
    }
}

/// The wake flag of a process is one flag, reached through the id of the
/// process: whoever notifies the process sets it, any number of
/// notifications before it is consumed count as one, a notification that
/// comes before the wait is found by the wait, consuming it clears it, and
/// the flags of the other processes stay as they are.
pub proof fn lemma_wake_flag<H>(s: SimView<H>, pid: u64, other: u64)
    requires
        s.has_proc(pid),
        s.has_proc(other),
        other != pid,
    ensures
        s.notify(pid).processes[pid].signaled,
        s.notify(pid).notify(pid) == s.notify(pid),
        !s.notify(pid).wait_event(pid).processes[pid].signaled,
        !s.wait_event(pid).processes[pid].signaled,
        s.wait_event(pid).notify(pid).processes[pid].signaled,
        s.notify(pid).processes[other] == s.processes[other],
        s.wait_event(pid).processes[other] == s.processes[other],
{
    assert(s.notify(pid).notify(pid).processes =~= s.notify(pid).processes);
}

/// A scheduler step keeps a simulation well formed.
pub proof fn lemma_schedule_wf<H>(s: SimView<H>, hint: Option<u64>)
    requires
        s.wf(),
    ensures
        s.schedule(hint).wf(),
        s.schedule(hint).fds == s.fds,
        s.schedule(hint).fd_count == s.fd_count,
        s.schedule(hint).process_id_count == s.process_id_count,
{
    lemma_match_upto_shape(s.pending, s.pending.len());
    let matched = SimView { pending: match_phase(s.pending), ..s };
    assert(matched.wf());
    lemma_wake_wf(matched, hint);
}

/// A wake phase keeps a simulation well formed.
pub proof fn lemma_wake_wf<H>(s: SimView<H>, hint: Option<u64>)
    requires
        s.wf(),
    ensures
        s.wake(hint).wf(),
        s.wake(hint).fds == s.fds,
        s.wake(hint).fd_count == s.fd_count,
        s.wake(hint).process_id_count == s.process_id_count,
{
    lemma_first_hinted(s.pending, hint, 0);
    lemma_best_ready(s.pending, s.pending.len());
    match chosen(s.pending, hint) {
        Some(i) => {
            let t = s.retire(i);
            assert(0 <= i < s.pending.len());
            assert(s.pending[i].pid() < s.process_id_count);
            assert(s.processes.contains_key(s.pending[i].pid()));
            let target = s.wake_target(s.pending[i]);
            assert(target < s.process_id_count);
            assert forall|k: int| 0 <= k < t.pending.len() implies (#[trigger] t.pending[k]).pid()
                < t.process_id_count by {
                if k < i {
                    assert(t.pending[k] == s.pending[k]);
                } else {
                    assert(t.pending[k] == s.pending[k + 1]);
                }
            }
            assert forall|p: u64| #[trigger] t.processes.contains_key(p) <==> p
                < t.process_id_count by {
                assert(s.processes.contains_key(p) <==> p < s.process_id_count);
            }
            assert forall|p: u64| p < t.process_id_count implies (#[trigger] t.processes[p]).parent_id
                < t.process_id_count by {
                assert(s.processes[p].parent_id < s.process_id_count);
            }
        },
        None => {},
    }
}

impl<H> SimContext<H> {
    /// What holds of every simulation; see [`SimView::wf`].
    pub open spec fn wf(&self) -> bool {
        self@.wf()
    }

    /// A simulation as it starts.
    pub fn new() -> (ctx: Self)
        ensures
            ctx.wf(),
            ctx@ == SimView::<H>::initial(),
    {
        let mut processes: HashMap<u64, ProcInfo<H>> = HashMap::new();
        processes.insert(
            0,
            ProcInfo {
                parent_id: ProcID(0),
                inherited_fds: Vec::new(),
                scheduler_event: Event { signaled: false },
                join_handle: None,
            },
        );
        let ctx = SimContext {
            fd_count: 2,
            process_id_count: ProcID(1),
            processes,
            process_status: Vec::new(),
            readed_cache: HashMap::new(),
            fds: HashMap::new(),
        };
        assert(ctx@.processes =~= SimView::<H>::initial().processes);
        assert(ctx@.pending =~= SimView::<H>::initial().pending);
        assert(ctx@.cache =~= SimView::<H>::initial().cache);
        assert(ctx@.fds =~= SimView::<H>::initial().fds);
        ctx
    }

    /// Whether the simulation has started as many processes as it may.
    pub fn max_proc_spawned(&self) -> (full: bool)
        ensures
            full == (self@.process_id_count > MAX_PROCESSES_COUNT),
    {
        self.process_id_count.0 > MAX_PROCESSES_COUNT
    }

    /// Whether `id` is a process of the simulation.
    pub fn has_proc(&self, id: &ProcID) -> (known: bool)
        ensures
            known == self@.has_proc(id.0),
    {
        self.processes.contains_key(&id.0)
    }

    /// The value that the read end of the next pipe takes.
    pub fn fd_count(&self) -> (next: u64)
        ensures
            next == self@.fd_count,
    {
        self.fd_count
    }

    /// The number of open pipe ends.
    pub fn len_pipe(&self) -> (count: usize)
        ensures
            count == self@.fds.len(),
    {
        self.fds.len()
    }

    /// Whether the pipe end `fd` is open and owned by `pid`.
    pub fn has_fd(&self, pid: ProcID, fd: &Fd) -> (owned: bool)
        ensures
            owned == self@.has_fd(pid.0, fd.0),
    {
        if let Some(owner) = self.fds.get(&fd.0) {
            *owner == pid.0
        } else {
            false
        }
    }

    /// Whether the other end of the pipe of `fd` is open.
    pub fn chech_other_fd(&self, fd: &Fd) -> (open: bool)
        ensures
            open == self@.other_end_open(fd.0),
    {
        let other = fd.other_fd();
        self.fds.contains_key(&other.0)
    }

    /// The pipe ends that `pid` inherited when it was started.
    pub fn inherited_fds(&self, pid: ProcID) -> (fds: Vec<Fd>)
        requires
            self@.has_proc(pid.0),
        ensures
            fds@ == self@.processes[pid.0].inherited_fds,
    {
        let info = self.processes.get(&pid.0).unwrap();
        let mut out: Vec<Fd> = Vec::new();
        let mut i: usize = 0;
        while i < info.inherited_fds.len()
            invariant
                i <= info.inherited_fds.len(),
                out@ == info.inherited_fds@.subrange(0, i as int),
            decreases info.inherited_fds.len() - i,
        {
            out.push(info.inherited_fds[i]);
            assert(out@ =~= info.inherited_fds@.subrange(0, i + 1));
            i += 1;
        }
        assert(out@ =~= info.inherited_fds@);
        out
    }

    /// A reading of the wake flag of `pid`. The flag itself stays with the
    /// simulation: it is set by scheduler steps and consumed with
    /// [`SimContext::wait_event`].
    pub fn get_event(&self, pid: ProcID) -> (event: Event)
        requires
            self@.has_proc(pid.0),
        ensures
            event.signaled == self@.processes[pid.0].signaled,
    {
        Event { signaled: self.processes.get(&pid.0).unwrap().scheduler_event.signaled }
    }

    /// Consumes the wake flag of `pid`: `true` when it was set, `false`
    /// when the process has to keep waiting.
    pub fn wait_event(&mut self, pid: ProcID) -> (woken: bool)
        requires
            old(self).wf(),
            old(self)@.has_proc(pid.0),
        ensures
            final(self).wf(),
            woken == old(self)@.processes[pid.0].signaled,
            final(self)@ == old(self)@.wait_event(pid.0),
    {
        let ghost before = self@;
        let mut info = self.processes.remove(&pid.0).unwrap();
        let woken = info.scheduler_event.wait();
        self.processes.insert(pid.0, info);
        assert(self@.processes =~= before.wait_event(pid.0).processes);
        woken
    }

    /// Sets the wake flag of `pid`.
    fn notify(&mut self, pid: u64)
        requires
            old(self)@.has_proc(pid),
        ensures
            final(self)@ == old(self)@.notify(pid),
    {
        let ghost before = self@;
        let mut info = self.processes.remove(&pid).unwrap();
        info.scheduler_event.notify();
        self.processes.insert(pid, info);
        assert(self@.processes =~= before.notify(pid).processes);
    }

    /// The parent of `pid`.
    fn parent_of(&self, pid: u64) -> (parent: u64)
        requires
            self@.has_proc(pid),
        ensures
            parent == self@.processes[pid].parent_id,
    {
        self.processes.get(&pid).unwrap().parent_id.0
    }

    /// The wake phase of a scheduler step: retires at most one pending
    /// operation, the first satisfied read that `fd` hints at, else the
    /// best ready one, and wakes the process that waits for it.
    pub fn notify_status(&mut self, fd: Option<Fd>)
        requires
            old(self).wf(),
        ensures
            final(self).wf(),
            final(self)@ == old(self)@.wake(hint_of(fd)),
    {
        let ghost before = self@;
        proof {
            lemma_wake_wf(before, hint_of(fd));
            lemma_first_hinted(before.pending, hint_of(fd), 0);
            lemma_best_ready(before.pending, before.pending.len());
        }
        let hinted = find_hinted(&self.process_status, fd);
        let picked = if hinted < self.process_status.len() {
            Some(hinted)
        } else {
            pick_ready(&self.process_status)
        };
        let index = match picked {
            Some(i) => i,
            None => {
                return ;
            },
        };
        assert(chosen(before.pending, hint_of(fd)) == Some(index as int));
        let op = self.process_status.remove(index);
        assert(self@.pending =~= before.pending.remove(index as int));
        assert(op@ == before.pending[index as int]);
        assert(op@.pid() < before.process_id_count);
        assert(before.processes.contains_key(op@.pid()));
        match op {
            ProcStatus::ReadWait(pid, rfd, _, buf) => {
                self.readed_cache.insert(rfd.0, buf);
                assert(self@.cache =~= before.cache.insert(rfd.0, buf@));
                self.notify(pid.0);
            },
            ProcStatus::WriteWait(pid, _, _) => {
                self.notify(pid.0);
            },
            ProcStatus::WaitSpawn(pid) => {
                let parent = self.parent_of(pid.0);
                assert(before.processes.contains_key(parent));
                self.notify(parent);
            },
            ProcStatus::CloseWait(pid, _) => {
                let parent = self.parent_of(pid.0);
                assert(before.processes.contains_key(parent));
                self.notify(parent);
            },
            ProcStatus::Terminated(pid) => {
                let parent = self.parent_of(pid.0);
                assert(before.processes.contains_key(parent));
                self.notify(parent);
            },
        }
        assert(self@ == before.retire(index as int));
    }

    /// A scheduler step: pending reads take what pending writes and closes
    /// on the other ends of their pipes give them, then at most one
    /// operation is retired and the process that waits for it is woken.
    pub fn process_io(&mut self, fd: Option<Fd>)
        requires
            old(self).wf(),
        ensures
            final(self).wf(),
            final(self)@ == old(self)@.schedule(hint_of(fd)),
    {
        let ghost before = self@;
        proof {
            lemma_match_upto_shape(before.pending, before.pending.len());
        }
        match_pending(&mut self.process_status);
        assert(self@ == (SimView { pending: match_phase(before.pending), ..before }));
        self.notify_status(fd);
    }
}

impl<H> Default for SimContext<H> {
    fn default() -> (ctx: Self)
        ensures
            ctx.wf(),
            ctx@ == SimView::<H>::initial(),
    {
        SimContext::new()
    }
}

impl<H> SimContext<H> {
    /// Makes a pipe for `pid` and returns its read end and its write end,
    /// unless the simulation holds as many open pipe ends as it may; then
    /// nothing changes.
    pub fn new_pipe(&mut self, pid: ProcID) -> (ends: Result<(Fd, Fd), i32>)
        requires
            old(self).wf(),
            old(self)@.fd_count + 2 <= u64::MAX,
        ensures
            final(self).wf(),
            final(self)@ == old(self)@.new_pipe(pid.0),
            ends == (if old(self)@.pipes_full() {
                Err::<(Fd, Fd), i32>(CKB_MAX_FDS_CREATED)
            } else {
                Ok::<(Fd, Fd), i32>(
                    (Fd(old(self)@.fd_count), Fd((old(self)@.fd_count + 1) as u64)),
                )
            }),
            ends is Ok ==> {
                &&& ends->Ok_0.0.0 % 2 == 0
                &&& ends->Ok_0.1.0 == ends->Ok_0.0.0 | 1
                &&& !old(self)@.fds.contains_key(ends->Ok_0.0.0)
                &&& !old(self)@.fds.contains_key(ends->Ok_0.1.0)
                &&& final(self)@.has_fd(pid.0, ends->Ok_0.0.0)
                &&& final(self)@.has_fd(pid.0, ends->Ok_0.1.0)
                &&& final(self)@.fds.len() == old(self)@.fds.len() + 2
                &&& forall|f: u64|
                    old(self)@.fds.contains_key(f) ==> final(self)@.fds.contains_key(f)
                        && final(self)@.fds[f] == old(self)@.fds[f] && f < ends->Ok_0.0.0
            },
    {
        if self.fds.len() >= MAX_FDS {
            return Err(CKB_MAX_FDS_CREATED);
        }
        let ghost before = self@;
        proof {
            crate::utils::lemma_xor_one(self.fd_count);
            assert(before.fds.insert(before.fd_count, pid.0).dom() =~= before.fds.dom().insert(
                before.fd_count,
            ));
            assert(before.add_pipe(pid.0).fds.dom() =~= before.fds.dom().insert(
                before.fd_count,
            ).insert((before.fd_count + 1) as u64));
            if before.fds.contains_key(before.fd_count) {
                assert(before.fd_count < before.fd_count);
            }
            if before.fds.contains_key((before.fd_count + 1) as u64) {
                assert(before.fd_count + 1 < before.fd_count);
            }
        }
        let fds = Fd::create(self.fd_count);
        self.fds.insert(fds.0.0, pid.0);
        self.fds.insert(fds.1.0, pid.0);
        self.fd_count = fds.2;
        proof {
            vstd::std_specs::hash::axiom_hashmap_view_finite_dom(self.fds);
            assert(self@.fds =~= before.add_pipe(pid.0).fds);
        }
        Ok((fds.0, fds.1))
    }

    /// Passes the pipe end `fd` to `pid`.
    pub fn move_pipe(&mut self, fd: &Fd, pid: ProcID)
        requires
            old(self).wf(),
            old(self)@.fds.contains_key(fd.0),
        ensures
            final(self).wf(),
            final(self)@ == old(self)@.move_pipe(fd.0, pid.0),
    {
        let ghost before = self@;
        self.fds.insert(fd.0, pid.0);
        proof {
            vstd::std_specs::hash::axiom_hashmap_view_finite_dom(self.fds);
            assert(self@.fds =~= before.move_pipe(fd.0, pid.0).fds);
            assert(self@ == before.move_pipe(fd.0, pid.0));
        }
    }

    /// Closes the pipe end `fd` for `pid`. Fails when `pid` does not own
    /// it, and then changes nothing. Otherwise the close is announced, a
    /// scheduler step runs with `fd` as its hint, the end leaves the table,
    /// and a reading of the wake flag of `pid` is returned as it then
    /// stands; the flag itself is consumed with [`SimContext::wait_event`].
    pub fn close_pipe(&mut self, pid: ProcID, fd: Fd) -> (closed: Result<Event, ()>)
        requires
            old(self).wf(),
            old(self)@.has_proc(pid.0),
        ensures
            final(self).wf(),
            closed is Ok == old(self)@.has_fd(pid.0, fd.0),
            closed is Err ==> final(self)@ == old(self)@,
            closed is Ok ==> final(self)@ == old(self)@.close_pipe(pid.0, fd.0),
            closed is Ok ==> closed->Ok_0.signaled == final(self)@.processes[pid.0].signaled,
    {
        if !self.has_fd(pid, &fd) {
            Err(())
        } else {
            let ghost before = self@;
            self.process_status.push(ProcStatus::CloseWait(pid, fd));
            assert(self@.pending =~= before.pending.push(PendingOp::CloseWait { pid: pid.0, fd: fd.0 }));
            assert(self@ == before.enqueue(PendingOp::CloseWait { pid: pid.0, fd: fd.0 }));
            proof {
                lemma_schedule_wf(self@, Some(fd.0));
            }
            self.process_io(Some(fd));
            self.fds.remove(&fd.0);
            Ok(self.get_event(pid))
        }
    }

    /// Closes every pipe end that `id` owns and announces that the body of
    /// `id` has returned.
    pub fn close_all(&mut self, id: &ProcID)
        requires
            old(self).wf(),
            old(self)@.has_proc(id.0),
        ensures
            final(self).wf(),
            final(self)@ == old(self)@.close_all(id.0),
    {
        let ghost before = self@;
        let keys = self.owned_fds(id.0);
        let mut i: usize = 0;
        while i < keys.len()
            invariant
                i <= keys.len(),
                forall|f: u64|
                    keys@.contains(f) <==> (before.fds.contains_key(f) && before.fds[f] == id.0),
                self@ == (SimView { fds: self@.fds, ..before }),
                forall|f: u64|
                    #[trigger] self@.fds.contains_key(f) <==> (before.fds.contains_key(f) && !(
                    exists|j: int| 0 <= j < i && keys@[j] == f)),
                forall|f: u64| self@.fds.contains_key(f) ==> self@.fds[f] == before.fds[f],
            decreases keys.len() - i,
        {
            let key = keys[i];
            self.fds.remove(&key);
            i += 1;
        }
        self.process_status.push(ProcStatus::Terminated(*id));
        assert(self@.pending =~= before.pending.push(PendingOp::Terminated { pid: id.0 }));
        assert(self@.fds =~= before.close_all(id.0).fds) by {
            assert forall|f: u64| self@.fds.contains_key(f) <==> before.close_all(
                id.0,
            ).fds.contains_key(f) by {
                if before.fds.contains_key(f) && before.fds[f] == id.0 {
                    assert(keys@.contains(f));
                }
            }
        }
    }

    /// The open pipe ends that `pid` owns, in no particular order.
    fn owned_fds(&self, pid: u64) -> (out: Vec<u64>)
        ensures
            forall|f: u64| out@.contains(f) <==> (self@.fds.contains_key(f) && self@.fds[f] == pid),
    {
        let mut out: Vec<u64> = Vec::new();
        for k in it: self.fds.keys()
            invariant
                it.seq().unref().to_set() == self.fds@.dom(),
                forall|i: int|
                    0 <= i < out@.len() ==> self.fds@.contains_key(#[trigger] out@[i])
                        && self.fds@[out@[i]] == pid,
                forall|j: int|
                    0 <= j < it.index() && self.fds@[#[trigger] it.seq().unref()[j]] == pid
                        ==> out@.contains(it.seq().unref()[j]),
                it.index() == it.seq().len() ==> forall|f: u64|
                    self.fds@.contains_key(f) && self.fds@[f] == pid ==> out@.contains(f),
        {
            let ghost before = out@;
            assert(it.seq().unref()[it.index()] == *k);
            assert(it.seq().unref().to_set().contains(*k));
            if let Some(owner) = self.fds.get(k) {
                if *owner == pid {
                    out.push(*k);
                    assert(out@[out@.len() - 1] == *k);
                }
            }
            assert forall|j: int|
                0 <= j < it.index() + 1 && self.fds@[#[trigger] it.seq().unref()[j]]
                    == pid implies out@.contains(it.seq().unref()[j]) by {
                if j < it.index() {
                    let f = it.seq().unref()[j];
                    assert(before.contains(f));
                    let i = choose|i: int| 0 <= i < before.len() && before[i] == f;
                    assert(out@[i] == f);
                } else {
                    assert(out@[out@.len() - 1] == *k);
                }
            }
            assert(it.index() + 1 == it.seq().len() ==> forall|f: u64|
                self.fds@.contains_key(f) && self.fds@[f] == pid ==> out@.contains(f)) by {
                if it.index() + 1 == it.seq().len() {
                    assert forall|f: u64|
                        self.fds@.contains_key(f) && self.fds@[f] == pid implies out@.contains(
                        f,
                    ) by {
                        assert(it.seq().unref().to_set().contains(f));
                        let j = choose|j: int|
                            0 <= j < it.seq().unref().len() && it.seq().unref()[j] == f;
                        assert(self.fds@[it.seq().unref()[j]] == pid);
                    }
                }
            }
        }
        out
    }

    /// Starts a process for `parent` that inherits the pipe ends `fds`, and
    /// returns its id. The new process takes the next id, every inherited
    /// end passes to it, and its start is announced. The host then runs the
    /// body of the process and attaches what collects its exit code.
    pub fn start_process(&mut self, parent: ProcID, fds: &[Fd]) -> (id: ProcID)
        requires
            old(self).wf(),
            old(self)@.has_proc(parent.0),
            old(self)@.process_id_count < u64::MAX,
            forall|i: int| 0 <= i < fds@.len() ==> old(self)@.fds.contains_key(fds@[i].0),
        ensures
            final(self).wf(),
            id.0 == old(self)@.process_id_count,
            final(self)@ == old(self)@.start_process(parent.0, fds@),
    {
        let ghost before = self@;
        let id = self.process_id_count.next();
        let process = ProcInfo {
            parent_id: parent,
            inherited_fds: slice_to_vec(fds),
            scheduler_event: Event { signaled: false },
            join_handle: None,
        };
        self.processes.insert(id.0, process);
        assert(self@.processes =~= before.start_process(parent.0, fds@).processes);
        let mut i: usize = 0;
        while i < fds.len()
            invariant
                i <= fds.len(),
                before.wf(),
                id.0 == before.process_id_count,
                self@ == (SimView { fds: self@.fds, ..self@ }),
                self@.process_id_count == before.process_id_count + 1,
                self@.fd_count == before.fd_count,
                self@.pending == before.pending,
                self@.cache == before.cache,
                self@.processes == before.start_process(parent.0, fds@).processes,
                self@.fds.dom() == before.fds.dom(),
                forall|k: int| 0 <= k < fds@.len() ==> before.fds.contains_key(fds@[k].0),
                forall|f: u64|
                    before.fds.contains_key(f) ==> #[trigger] self@.fds[f] == (if fds@.subrange(
                        0,
                        i as int,
                    ).contains(Fd(f)) {
                        id.0
                    } else {
                        before.fds[f]
                    }),
            decreases fds.len() - i,
        {
            let fd = fds[i];
            let ghost prev = self@.fds;
            self.fds.insert(fd.0, id.0);
            assert(self@.fds.dom() =~= before.fds.dom());
            assert forall|f: u64| before.fds.contains_key(f) implies #[trigger] self@.fds[f] == (
            if fds@.subrange(0, i + 1).contains(Fd(f)) {
                id.0
            } else {
                before.fds[f]
            }) by {
                let shorter = fds@.subrange(0, i as int);
                let longer = fds@.subrange(0, i + 1);
                assert(longer[i as int] == fd);
                if shorter.contains(Fd(f)) {
                    let k = choose|k: int| 0 <= k < shorter.len() && shorter[k] == Fd(f);
                    assert(longer[k] == Fd(f));
                }
                if longer.contains(Fd(f)) && f != fd.0 {
                    let k = choose|k: int| 0 <= k < longer.len() && longer[k] == Fd(f);
                    assert(shorter[k] == Fd(f));
                }
            }
            i += 1;
        }
        assert(fds@.subrange(0, fds@.len() as int) =~= fds@);
        self.process_status.push(ProcStatus::WaitSpawn(id));
        assert(self@.pending =~= before.pending.push(PendingOp::WaitSpawn { pid: id.0 }));
        assert(self@.fds =~= before.start_process(parent.0, fds@).fds);
        id
    }

    /// Attaches to `id` what collects its exit code.
    pub fn set_join_handle(&mut self, id: ProcID, handle: H)
        requires
            old(self).wf(),
            old(self)@.has_proc(id.0),
        ensures
            final(self).wf(),
            final(self)@ == old(self)@.set_join_handle(id.0, handle),
    {
        let ghost before = self@;
        let info = self.processes.remove(&id.0).unwrap();
        let ProcInfo { parent_id, inherited_fds, scheduler_event, join_handle: _ } = info;
        self.processes.insert(
            id.0,
            ProcInfo { parent_id, inherited_fds, scheduler_event, join_handle: Some(handle) },
        );
        assert(self@.processes =~= before.set_join_handle(id.0, handle).processes);
    }

    /// Runs a scheduler step and detaches from `id` what collects its exit
    /// code, if anything is attached.
    pub fn exit(&mut self, id: &ProcID) -> (handle: Option<H>)
        requires
            old(self).wf(),
            old(self)@.has_proc(id.0),
        ensures
            final(self).wf(),
            final(self)@ == old(self)@.exit(id.0),
            handle == old(self)@.schedule(None).processes[id.0].join_handle,
    {
        let ghost before = self@;
        proof {
            lemma_schedule_wf(before, None);
        }
        self.process_io(None);
        let ghost stepped = self@;
        assert(stepped.processes.contains_key(id.0));
        let info = self.processes.remove(&id.0).unwrap();
        let ProcInfo { parent_id, inherited_fds, scheduler_event, join_handle } = info;
        self.processes.insert(
            id.0,
            ProcInfo { parent_id, inherited_fds, scheduler_event, join_handle: None },
        );
        assert(self@.processes =~= before.exit(id.0).processes);
        join_handle
    }

    /// Announces that `pid` wants `len` bytes from `fd`, runs a scheduler
    /// step with `fd` as its hint, and returns a reading of the wake flag of
    /// `pid` as it then stands; the flag itself is consumed with
    /// [`SimContext::wait_event`].
    pub fn wait_read(&mut self, pid: ProcID, fd: Fd, len: usize) -> (event: Event)
        requires
            old(self).wf(),
            old(self)@.has_proc(pid.0),
        ensures
            final(self).wf(),
            final(self)@ == old(self)@.wait_read(pid.0, fd.0, len as nat),
            event.signaled == final(self)@.processes[pid.0].signaled,
    {
        let ghost before = self@;
        let ghost op = PendingOp::ReadWait {
            pid: pid.0,
            fd: fd.0,
            remaining: len as nat,
            accumulated: Seq::empty(),
        };
        self.process_status.push(ProcStatus::ReadWait(pid, fd, len, Vec::new()));
        assert(self@.pending =~= before.pending.push(op));
        assert(self@ == before.enqueue(op));
        proof {
            lemma_schedule_wf(self@, Some(fd.0));
        }
        self.process_io(Some(fd));
        self.get_event(pid)
    }

    /// Announces that `pid` offers the bytes `buf` to `fd`, runs a
    /// scheduler step with `fd` as its hint, and returns a reading of the
    /// wake flag of `pid` as it then stands; the flag itself is consumed
    /// with [`SimContext::wait_event`].
    pub fn wait_write(&mut self, pid: ProcID, fd: Fd, buf: &[u8]) -> (event: Event)
        requires
            old(self).wf(),
            old(self)@.has_proc(pid.0),
        ensures
            final(self).wf(),
            final(self)@ == old(self)@.wait_write(pid.0, fd.0, buf@),
            event.signaled == final(self)@.processes[pid.0].signaled,
    {
        let ghost before = self@;
        let ghost op = PendingOp::WriteWait { pid: pid.0, fd: fd.0, pending: buf@ };
        self.process_status.push(ProcStatus::WriteWait(pid, fd, slice_to_vec(buf)));
        assert(self@.pending =~= before.pending.push(op));
        assert(self@ == before.enqueue(op));
        proof {
            lemma_schedule_wf(self@, Some(fd.0));
        }
        self.process_io(Some(fd));
        self.get_event(pid)
    }

    /// Collects the bytes that were delivered to a read on `fd`; nothing
    /// when nothing was delivered.
    pub fn read_cache(&mut self, fd: &Fd) -> (data: Vec<u8>)
        requires
            old(self).wf(),
        ensures
            final(self).wf(),
            data@ == old(self)@.cached(fd.0),
            final(self)@ == old(self)@.read_cache(fd.0),
    {
        let ghost before = self@;
        let taken = self.readed_cache.remove(&fd.0);
        assert(self@.cache =~= before.cache.remove(fd.0));
        assert(self@ == before.read_cache(fd.0));
        match taken {
            Some(buf) => buf,
            None => Vec::new(),
        }
    }
}

} // verus!
