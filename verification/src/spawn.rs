use vstd::prelude::*;
use crate::constants::{
    CKB_INVALID_FD, CKB_MAX_VMS_SPAWNED, CKB_OTHER_END_CLOSED, CKB_WAIT_FAILURE,
    MAX_PROCESSES_COUNT,
};
use crate::simulator_context::{SimContext, SimView};
use crate::transaction::RunningSetup;
use crate::utils::{Event, Fd, ProcID};

verus! {

/// What a syscall wants of a pipe end before it works on it.
#[derive(Clone, Copy, Debug, PartialEq, Eq, Structural)]
pub enum CheckSpawn {
    /// Either end will do.
    Def,
    /// It must be a read end.
    Read,
    /// It must be a write end.
    Write,
}

/// The outcome of checking the pipe end `fd` for `pid`: the end must be of
/// the wanted kind, open and owned by `pid`, else it is invalid; and the
/// other end of its pipe must be open, else the other end is closed.
pub open spec fn checked<H>(s: SimView<H>, kind: CheckSpawn, pid: u64, fd: u64) -> Result<(), i32> {
    if kind == CheckSpawn::Read && fd % 2 != 0 {
        Err(CKB_INVALID_FD)
    } else if kind == CheckSpawn::Write && fd % 2 == 0 {
        Err(CKB_INVALID_FD)
    } else if !s.has_fd(pid, fd) {
        Err(CKB_INVALID_FD)
    } else if !s.other_end_open(fd) {
        Err(CKB_OTHER_END_CLOSED)
    } else {
        Ok(())
    }
}

impl CheckSpawn {
    /// Checks the pipe end `fd` for `pid`.
    pub fn check<H>(self, ctx: &SimContext<H>, pid: ProcID, fd: &Fd) -> (outcome: Result<(), i32>)
        ensures
            outcome == checked(ctx@, self, pid.0, fd.0),
    {
        match self {
            CheckSpawn::Def => (),
            CheckSpawn::Read => {
                if !fd.is_read() {
                    return Err(CKB_INVALID_FD);
                }
            },
            CheckSpawn::Write => {
                if fd.is_read() {
                    return Err(CKB_INVALID_FD);
                }
            },
        }
        if !ctx.has_fd(pid, fd) {
            return Err(CKB_INVALID_FD);
        }
        if !ctx.chech_other_fd(fd) {
            return Err(CKB_OTHER_END_CLOSED);
        }
        Ok(())
    }
}

/// The position of the first zero in `raw`; its length when it holds none.
pub open spec fn first_zero(raw: Seq<u64>, from: nat) -> nat
    decreases raw.len() - from,
{
    if from >= raw.len() {
        raw.len()
    } else if raw[from as int] == 0 {
        from
    } else {
        first_zero(raw, from + 1)
    }
}

/// The pipe ends that a zero-terminated list names: everything before its
/// first zero.
pub open spec fn fds_of(raw: Seq<u64>) -> Seq<Fd> {
    Seq::new(first_zero(raw, 0), |i: int| Fd(raw[i]))
}

/// What `first_zero` finds is the earliest zero from `from` on.
pub proof fn lemma_first_zero(raw: Seq<u64>, from: nat)
    requires
        from <= raw.len(),
    ensures
        from <= first_zero(raw, from) <= raw.len(),
        first_zero(raw, from) < raw.len() ==> raw[first_zero(raw, from) as int] == 0,
        forall|k: int| from <= k < first_zero(raw, from) ==> raw[k] != 0,
    decreases raw.len() - from,
{
    if from < raw.len() && raw[from as int] != 0 {
        lemma_first_zero(raw, from + 1);
    }
}

/// Reads a zero-terminated list of pipe ends.
pub fn get_fds(raw: &[u64]) -> (fds: Vec<Fd>)
    ensures
        fds@ == fds_of(raw@),
        fds@.len() <= raw@.len(),
        forall|i: int| 0 <= i < fds@.len() ==> fds@[i].0 == raw@[i] && raw@[i] != 0,
        fds@.len() < raw@.len() ==> raw@[fds@.len() as int] == 0,
{
    proof {
        lemma_first_zero(raw@, 0);
    }
    let mut buf: Vec<Fd> = Vec::new();
    let mut i: usize = 0;
    while i < raw.len() && raw[i] != 0
        invariant
            i <= raw.len(),
            first_zero(raw@, 0) == first_zero(raw@, i as nat),
            buf@ == Seq::new(i as nat, |k: int| Fd(raw@[k])),
        decreases raw.len() - i,
    {
        buf.push(Fd(raw[i]));
        assert(buf@ =~= Seq::new((i + 1) as nat, |k: int| Fd(raw@[k])));
        i += 1;
    }
    assert(buf@ =~= fds_of(raw@));
    buf
}

/// The plain values of a list of pipe ends, in the same order.
pub fn copy_fds(in_fd: &[Fd]) -> (out: Vec<u64>)
    ensures
        out@ == Seq::new(in_fd@.len(), |i: int| in_fd@[i].0),
{
    let mut out: Vec<u64> = Vec::new();
    let mut i: usize = 0;
    while i < in_fd.len()
        invariant
            i <= in_fd.len(),
            out@ == Seq::new(i as nat, |k: int| in_fd@[k].0),
        decreases in_fd.len() - i,
    {
        out.push(in_fd[i].0);
        assert(out@ =~= Seq::new((i + 1) as nat, |k: int| in_fd@[k].0));
        i += 1;
    }
    out
}

/// The position of the first of `fds` that `pid` may not hand to a child;
/// the length of the list when it may hand on all of them.
pub open spec fn first_refused<H>(s: SimView<H>, pid: u64, fds: Seq<Fd>, from: nat) -> nat
    decreases fds.len() - from,
{
    if from >= fds.len() {
        fds.len()
    } else if checked(s, CheckSpawn::Def, pid, fds[from as int].0) is Err {
        from
    } else {
        first_refused(s, pid, fds, from + 1)
    }
}

/// What `first_refused` finds is the earliest refusal from `from` on.
pub proof fn lemma_first_refused<H>(s: SimView<H>, pid: u64, fds: Seq<Fd>, from: nat)
    requires
        from <= fds.len(),
    ensures
        from <= first_refused(s, pid, fds, from) <= fds.len(),
        first_refused(s, pid, fds, from) < fds.len() ==> checked(
            s,
            CheckSpawn::Def,
            pid,
            fds[first_refused(s, pid, fds, from) as int].0,
        ) is Err,
        forall|k: int|
            from <= k < first_refused(s, pid, fds, from) ==> checked(
                s,
                CheckSpawn::Def,
                pid,
                (#[trigger] fds[k]).0,
            ) is Ok,
    decreases fds.len() - from,
{
    if from < fds.len() && checked(s, CheckSpawn::Def, pid, fds[from as int].0) is Ok {
        lemma_first_refused(s, pid, fds, from + 1);
    }
}

/// Whether `pid` may start a process that inherits `fds`: the first pipe
/// end that fails its check decides, then the limit on processes.
pub open spec fn spawn_checked<H>(s: SimView<H>, pid: u64, fds: Seq<Fd>) -> Result<(), i32> {
    let at = first_refused(s, pid, fds, 0);
    if at < fds.len() {
        checked(s, CheckSpawn::Def, pid, fds[at as int].0)
    } else if s.process_id_count > MAX_PROCESSES_COUNT {
        Err(CKB_MAX_VMS_SPAWNED)
    } else {
        Ok(())
    }
}

/// The simulation after `pid` has asked to start a process that inherits
/// `fds`: when `pid` may do so, the process is started and a scheduler step
/// runs, else nothing changes.
pub open spec fn spawn_step<H>(s: SimView<H>, pid: u64, fds: Seq<Fd>) -> SimView<H> {
    if spawn_checked(s, pid, fds) is Ok {
        s.start_process(pid, fds).schedule(None)
    } else {
        s
    }
}

/// The simulation after `pid` has asked to close `fd`: the end is closed
/// when `pid` owns it, else nothing changes.
pub open spec fn close_step<H>(s: SimView<H>, pid: u64, fd: u64) -> SimView<H> {
    if s.has_fd(pid, fd) {
        s.close_pipe(pid, fd)
    } else {
        s
    }
}

/// Checks whether `pid` may start a process that inherits `inherited_fds`.
pub fn spawn_check<H>(ctx: &SimContext<H>, pid: ProcID, inherited_fds: &[Fd]) -> (outcome: Result<
    (),
    i32,
>)
    ensures
        outcome == spawn_checked(ctx@, pid.0, inherited_fds@),
{
    let mut i: usize = 0;
    while i < inherited_fds.len()
        invariant
            i <= inherited_fds.len(),
            first_refused(ctx@, pid.0, inherited_fds@, 0) == first_refused(
                ctx@,
                pid.0,
                inherited_fds@,
                i as nat,
            ),
        decreases inherited_fds.len() - i,
    {
        if let Err(err) = CheckSpawn::Def.check(ctx, pid, &inherited_fds[i]) {
            return Err(err);
        }
        i += 1;
    }
    if ctx.max_proc_spawned() {
        return Err(CKB_MAX_VMS_SPAWNED);
    }
    Ok(())
}

/// Starts a process for `pid` that inherits `inherited_fds`, when `pid` may
/// do so, runs a scheduler step, and returns the id of the new process. On
/// a refusal nothing changes. The host then runs the body of the new
/// process, attaches what collects its exit code, and lets `pid` wait on
/// its wake flag.
pub fn spawn_cell<H>(ctx: &mut SimContext<H>, pid: ProcID, inherited_fds: &[Fd]) -> (outcome: Result<
    ProcID,
    i32,
>)
    requires
        old(ctx).wf(),
        old(ctx)@.has_proc(pid.0),
    ensures
        final(ctx).wf(),
        final(ctx)@ == spawn_step(old(ctx)@, pid.0, inherited_fds@),
        match spawn_checked(old(ctx)@, pid.0, inherited_fds@) {
            Ok(_) => outcome == Ok::<ProcID, i32>(ProcID(old(ctx)@.process_id_count)),
            Err(code) => outcome == Err::<ProcID, i32>(code),
        },
{
    if let Err(code) = spawn_check(ctx, pid, inherited_fds) {
        return Err(code);
    }
    proof {
        lemma_first_refused(ctx@, pid.0, inherited_fds@, 0);
        assert forall|i: int| 0 <= i < inherited_fds@.len() implies ctx@.fds.contains_key(
            inherited_fds@[i].0,
        ) by {
            assert(checked(ctx@, CheckSpawn::Def, pid.0, inherited_fds@[i].0) is Ok);
        }
    }
    let id = ctx.start_process(pid, inherited_fds);
    ctx.process_io(None);
    Ok(id)
}

/// The first half of a read: checks `fd`, announces that `pid` wants
/// `length` bytes from it and runs a scheduler step. On a refusal nothing
/// changes. The host then lets `pid` wait on its wake flag and collects the
/// bytes with [`SimContext::read_cache`].
pub fn read_start<H>(ctx: &mut SimContext<H>, pid: ProcID, fd: u64, length: usize) -> (outcome:
    Result<Event, i32>)
    requires
        old(ctx).wf(),
        old(ctx)@.has_proc(pid.0),
    ensures
        final(ctx).wf(),
        match checked(old(ctx)@, CheckSpawn::Read, pid.0, fd) {
            Ok(_) => outcome is Ok && final(ctx)@ == old(ctx)@.wait_read(pid.0, fd, length as nat)
                && outcome->Ok_0.signaled == final(ctx)@.processes[pid.0].signaled,
            Err(code) => outcome == Err::<Event, i32>(code) && final(ctx)@ == old(ctx)@,
        },
{
    let fd = Fd(fd);
    if let Err(code) = CheckSpawn::Read.check(ctx, pid, &fd) {
        return Err(code);
    }
    Ok(ctx.wait_read(pid, fd, length))
}

/// A write up to the point where `pid` has to wait: checks `fd`, announces
/// that `pid` offers `buf` to it and runs a scheduler step. On a refusal
/// nothing changes. The host then lets `pid` wait on its wake flag.
pub fn write_start<H>(ctx: &mut SimContext<H>, pid: ProcID, fd: u64, buf: &[u8]) -> (outcome: Result<
    Event,
    i32,
>)
    requires
        old(ctx).wf(),
        old(ctx)@.has_proc(pid.0),
    ensures
        final(ctx).wf(),
        match checked(old(ctx)@, CheckSpawn::Write, pid.0, fd) {
            Ok(_) => outcome is Ok && final(ctx)@ == old(ctx)@.wait_write(pid.0, fd, buf@)
                && outcome->Ok_0.signaled == final(ctx)@.processes[pid.0].signaled,
            Err(code) => outcome == Err::<Event, i32>(code) && final(ctx)@ == old(ctx)@,
        },
{
    let fd = Fd(fd);
    if let Err(code) = CheckSpawn::Write.check(ctx, pid, &fd) {
        return Err(code);
    }
    Ok(ctx.wait_write(pid, fd, buf))
}

/// A close up to the point where `pid` has to wait: invalid when `pid` does
/// not own `fd`, and then nothing changes.
pub fn close<H>(ctx: &mut SimContext<H>, pid: ProcID, fd: u64) -> (outcome: Result<Event, i32>)
    requires
        old(ctx).wf(),
        old(ctx)@.has_proc(pid.0),
    ensures
        final(ctx).wf(),
        final(ctx)@ == close_step(old(ctx)@, pid.0, fd),
        if old(ctx)@.has_fd(pid.0, fd) {
            outcome is Ok && outcome->Ok_0.signaled == final(ctx)@.processes[pid.0].signaled
        } else {
            outcome == Err::<Event, i32>(CKB_INVALID_FD)
        },
{
    match ctx.close_pipe(pid, Fd(fd)) {
        Ok(event) => Ok(event),
        Err(_) => Err(CKB_INVALID_FD),
    }
}

/// A wait up to the point where the host collects the exit code: fails
/// when `pid` is no process, and then nothing changes; else a scheduler
/// step runs, and the wait fails when nothing that collects the exit code
/// is attached to `pid`, as it does after a first wait.
pub fn wait<H>(ctx: &mut SimContext<H>, pid: u64) -> (outcome: Result<H, i32>)
    requires
        old(ctx).wf(),
    ensures
        final(ctx).wf(),
        if old(ctx)@.has_proc(pid) {
            final(ctx)@ == old(ctx)@.exit(pid) && outcome == (match old(ctx)@.schedule(
                None,
            ).processes[pid].join_handle {
                Some(handle) => Ok::<H, i32>(handle),
                None => Err::<H, i32>(CKB_WAIT_FAILURE),
            })
        } else {
            outcome == Err::<H, i32>(CKB_WAIT_FAILURE) && final(ctx)@ == old(ctx)@
        },
{
    let pid = ProcID(pid);
    if !ctx.has_proc(&pid) {
        return Err(CKB_WAIT_FAILURE);
    }
    match ctx.exit(&pid) {
        Some(handle) => Ok(handle),
        None => Err(CKB_WAIT_FAILURE),
    }
}

/// The pipe ends that `pid` inherited, as plain values, cut to the first
/// `length` of them.
pub fn inherited_fds<H>(ctx: &SimContext<H>, pid: ProcID, length: usize) -> (out: Vec<u64>)
    requires
        ctx@.has_proc(pid.0),
    ensures
        out@.len() == (if ctx@.processes[pid.0].inherited_fds.len() <= length {
            ctx@.processes[pid.0].inherited_fds.len()
        } else {
            length as nat
        }),
        forall|i: int| 0 <= i < out@.len() ==> out@[i] == ctx@.processes[pid.0].inherited_fds[i].0,
{
    let mut out_fds = ctx.inherited_fds(pid);
    if length < out_fds.len() {
        out_fds.truncate(length);
    }
    copy_fds(out_fds.as_slice())
}

/// Whether the syscalls that came with later versions of the machine are
/// there for `setup`: they are for versions 1 and 2.
pub fn vm_version_supported(setup: &RunningSetup) -> (supported: bool)
    ensures
        supported == (setup.vm_version == 1 || setup.vm_version == 2),
{
    setup.vm_version == 1 || setup.vm_version == 2
}

} // verus!
