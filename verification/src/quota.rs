use vstd::prelude::*;
use crate::constants::{CKB_MAX_VMS_SPAWNED, MAX_FDS, MAX_PROCESSES_COUNT};
use crate::simulator_context::SimView;
use crate::scheduler::PendingOp;
use crate::spawn::{close_step, first_refused, lemma_first_refused, spawn_checked, spawn_step};
use crate::utils::{lemma_xor_one, peer_of, Fd};

verus! {

/// A new pipe takes the two values at the counter: its read end is even,
/// its write end is the read end with the lowest bit set, each is the peer
/// of the other, neither was open before, and both belong to the process
/// that made the pipe. Every other pipe end keeps its owner.
pub proof fn lemma_new_pipe_pairing<H>(s: SimView<H>, pid: u64)
    requires
        s.wf(),
        s.fd_count + 2 <= u64::MAX,
    ensures
        s.add_pipe(pid).wf(),
        s.fd_count % 2 == 0,
        (s.fd_count + 1) as u64 == s.fd_count | 1,
        (s.fd_count + 1) as u64 == peer_of(s.fd_count),
        !s.fds.contains_key(s.fd_count),
        !s.fds.contains_key((s.fd_count + 1) as u64),
        s.add_pipe(pid).has_fd(pid, s.fd_count),
        s.add_pipe(pid).has_fd(pid, (s.fd_count + 1) as u64),
        s.add_pipe(pid).fds.len() == s.fds.len() + 2,
        forall|f: u64| s.fds.contains_key(f) ==> s.add_pipe(pid).fds[f] == s.fds[f],
{
    lemma_xor_one(s.fd_count);
    let read_end = s.fd_count;
    let write_end = (s.fd_count + 1) as u64;
    if s.fds.contains_key(read_end) {
        assert(read_end < s.fd_count);
    }
    if s.fds.contains_key(write_end) {
        assert(write_end < s.fd_count);
    }
    assert(s.fds.insert(read_end, pid).dom() =~= s.fds.dom().insert(read_end));
    assert(s.add_pipe(pid).fds.dom() =~= s.fds.dom().insert(read_end).insert(write_end));
}

/// The simulation after the processes `pids` have asked for one pipe each,
/// in the order of the list.
pub open spec fn after_pipes<H>(s: SimView<H>, pids: Seq<u64>) -> SimView<H>
    decreases pids.len(),
{
    if pids.len() == 0 {
        s
    } else {
        after_pipes(s, pids.drop_last()).new_pipe(pids.last())
    }
}

/// In a simulation that has only been asked for pipes, whoever asked, the
/// first 32 are made, with consecutive pairs of values as their ends, and
/// every further one is refused.
pub proof fn lemma_after_pipes<H>(pids: Seq<u64>)
    ensures
        after_pipes(SimView::<H>::initial(), pids).wf(),
        after_pipes(SimView::<H>::initial(), pids).process_id_count == 1,
        pids.len() <= 32 ==> {
            &&& after_pipes(SimView::<H>::initial(), pids).fd_count == 2 * pids.len() + 2
            &&& after_pipes(SimView::<H>::initial(), pids).fds.len() == 2 * pids.len()
        },
        pids.len() >= 32 ==> {
            &&& after_pipes(SimView::<H>::initial(), pids).fd_count == 66
            &&& after_pipes(SimView::<H>::initial(), pids).fds.len() == 64
        },
    decreases pids.len(),
{
    let start = SimView::<H>::initial();
    if pids.len() == 0 {
        assert(start.fds.dom() =~= Set::<u64>::empty());
    } else {
        lemma_after_pipes::<H>(pids.drop_last());
        let before = after_pipes(start, pids.drop_last());
        lemma_new_pipe_pairing(before, pids.last());
    }
}

/// In a simulation that has only been asked for pipes, the pipe asked for
/// after `pids.len()` others has the ends `2 * pids.len() + 2` and
/// `2 * pids.len() + 3`, so that the pipes are (2, 3), (4, 5), (6, 7) and so
/// on, as long as fewer than 32 were asked for; from the 33rd on a pipe is
/// refused.
pub proof fn lemma_pipe_ids<H>(pids: Seq<u64>, pid: u64)
    ensures
        pids.len() < 32 ==> {
            &&& !after_pipes(SimView::<H>::initial(), pids).pipes_full()
            &&& after_pipes(SimView::<H>::initial(), pids).fd_count == 2 * pids.len() + 2
            &&& after_pipes(SimView::<H>::initial(), pids.push(pid)).has_fd(
                pid,
                (2 * pids.len() + 2) as u64,
            )
            &&& after_pipes(SimView::<H>::initial(), pids.push(pid)).has_fd(
                pid,
                (2 * pids.len() + 3) as u64,
            )
        },
        pids.len() >= 32 ==> {
            &&& after_pipes(SimView::<H>::initial(), pids).pipes_full()
            &&& after_pipes(SimView::<H>::initial(), pids.push(pid)) == after_pipes(
                SimView::<H>::initial(),
                pids,
            )
        },
{
    lemma_after_pipes::<H>(pids);
    let before = after_pipes(SimView::<H>::initial(), pids);
    assert(pids.push(pid).drop_last() =~= pids);
    assert(after_pipes(SimView::<H>::initial(), pids.push(pid)) == before.new_pipe(pid));
    if pids.len() < 32 {
        lemma_new_pipe_pairing(before, pid);
    }
}

/// The simulation after the processes started in `steps`, in the order of
/// the list, with the scheduler step that follows each start; each step
/// names the parent and the pipe ends that the new process inherits.
pub open spec fn after_spawns<H>(s: SimView<H>, steps: Seq<(u64, Seq<Fd>)>) -> SimView<H>
    decreases steps.len(),
{
    if steps.len() == 0 {
        s
    } else {
        after_spawns(s, steps.drop_last()).start_process(
            steps.last().0,
            steps.last().1,
        ).schedule(None)
    }
}

/// Processes started one after the other take consecutive ids: each start
/// moves the counter up by one, and the scheduler step after it moves
/// neither counter.
pub proof fn lemma_after_spawns<H>(s: SimView<H>, steps: Seq<(u64, Seq<Fd>)>)
    requires
        s.process_id_count + steps.len() <= u64::MAX,
    ensures
        after_spawns(s, steps).process_id_count == s.process_id_count + steps.len(),
        after_spawns(s, steps).fd_count == s.fd_count,
    decreases steps.len(),
{
    if steps.len() > 0 {
        lemma_after_spawns(s, steps.drop_last());
    }
}

/// In a simulation that has only started processes, the process started
/// after `steps.len()` others gets the id `steps.len() + 1`: the ids are 1,
/// 2, 3 and so on. A further start whose pipe ends all pass their check is
/// refused exactly when 16 processes were started, with the code for too
/// many processes.
pub proof fn lemma_spawn_ids<H>(steps: Seq<(u64, Seq<Fd>)>, pid: u64, fds: Seq<Fd>)
    requires
        steps.len() < u64::MAX,
        first_refused(after_spawns(SimView::<H>::initial(), steps), pid, fds, 0) == fds.len(),
    ensures
        after_spawns(SimView::<H>::initial(), steps).process_id_count == steps.len() + 1,
        steps.len() < 16 ==> spawn_checked(after_spawns(SimView::<H>::initial(), steps), pid, fds)
            is Ok,
        steps.len() >= 16 ==> spawn_checked(after_spawns(SimView::<H>::initial(), steps), pid, fds)
            == Err::<(), i32>(CKB_MAX_VMS_SPAWNED),
{
    lemma_after_spawns(SimView::<H>::initial(), steps);
}

/// Whatever a simulation does besides making a pipe leaves the counter of
/// pipe ends where it is, and whatever it does besides starting a process
/// leaves the counter of processes where it is: no value is handed out
/// twice.
pub proof fn lemma_counters_kept<H>(
    s: SimView<H>,
    pid: u64,
    fd: u64,
    len: nat,
    buf: Seq<u8>,
    fds: Seq<Fd>,
    hint: Option<u64>,
    handle: H,
)
    ensures
        s.schedule(hint).fd_count == s.fd_count,
        s.schedule(hint).process_id_count == s.process_id_count,
        s.wait_read(pid, fd, len).fd_count == s.fd_count,
        s.wait_read(pid, fd, len).process_id_count == s.process_id_count,
        s.wait_write(pid, fd, buf).fd_count == s.fd_count,
        s.wait_write(pid, fd, buf).process_id_count == s.process_id_count,
        s.close_pipe(pid, fd).fd_count == s.fd_count,
        s.close_pipe(pid, fd).process_id_count == s.process_id_count,
        s.close_all(pid).fd_count == s.fd_count,
        s.close_all(pid).process_id_count == s.process_id_count,
        s.read_cache(fd).fd_count == s.fd_count,
        s.read_cache(fd).process_id_count == s.process_id_count,
        s.exit(pid).fd_count == s.fd_count,
        s.exit(pid).process_id_count == s.process_id_count,
        s.move_pipe(fd, pid).fd_count == s.fd_count,
        s.move_pipe(fd, pid).process_id_count == s.process_id_count,
        s.set_join_handle(pid, handle).fd_count == s.fd_count,
        s.set_join_handle(pid, handle).process_id_count == s.process_id_count,
        s.wait_event(pid).fd_count == s.fd_count,
        s.wait_event(pid).process_id_count == s.process_id_count,
        s.new_pipe(pid).process_id_count == s.process_id_count,
        s.start_process(pid, fds).fd_count == s.fd_count,
        s.add_pipe(pid).fd_count > s.fd_count || s.fd_count + 2 > u64::MAX,
        s.new_pipe(pid).fd_count >= s.fd_count || s.fd_count + 2 > u64::MAX,
        s.start_process(pid, fds).process_id_count > s.process_id_count || s.process_id_count
            == u64::MAX,
{
}

/// Whether a simulation is within its limits: it has started no more than
/// 16 processes besides the root, and it holds no more open pipe ends than
/// the 64 at which it refuses a pipe, and the one more that a pipe adds
/// when a single end was closed before.
pub open spec fn within_quota<H>(s: SimView<H>) -> bool {
    &&& s.process_id_count <= MAX_PROCESSES_COUNT + 1
    &&& s.fds.len() <= MAX_FDS + 1
}

/// A simulation starts within its limits, and stays within them whatever
/// the scripts ask for: a start, a pipe, a close, the end of a process, a
/// read, a write, the collecting of bytes or of an exit code, and every
/// scheduler step.
pub proof fn lemma_quota_kept<H>(
    s: SimView<H>,
    pid: u64,
    fd: u64,
    len: nat,
    buf: Seq<u8>,
    fds: Seq<Fd>,
    hint: Option<u64>,
)
    requires
        s.wf(),
        s.has_proc(pid),
        within_quota(s),
        s.fd_count + 2 <= u64::MAX,
    ensures
        within_quota(SimView::<H>::initial()),
        within_quota(spawn_step(s, pid, fds)),
        within_quota(s.new_pipe(pid)),
        within_quota(close_step(s, pid, fd)),
        within_quota(s.close_all(pid)),
        within_quota(s.schedule(hint)),
        within_quota(s.wait_read(pid, fd, len)),
        within_quota(s.wait_write(pid, fd, buf)),
        within_quota(s.read_cache(fd)),
        within_quota(s.exit(pid)),
{
    assert(SimView::<H>::initial().fds.dom() =~= Set::<u64>::empty());
    lemma_new_pipe_pairing(s, pid);
    assert(s.start_process(pid, fds).fds.dom() =~= s.fds.dom());
    lemma_first_refused(s, pid, fds, 0);
    if s.has_fd(pid, fd) {
        let queued = s.enqueue(PendingOp::CloseWait { pid, fd });
        assert(queued.fds == s.fds);
        assert(s.close_pipe(pid, fd).fds == s.fds.remove(fd));
        assert(s.fds.remove(fd).dom() =~= s.fds.dom().remove(fd));
    }
    let kept = s.close_all(pid).fds.dom();
    assert(kept.subset_of(s.fds.dom()));
    vstd::set_lib::lemma_len_subset(kept, s.fds.dom());
}

} // verus!
