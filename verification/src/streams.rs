use vstd::prelude::*;
use crate::scheduler::{
    chosen, copy_len, first_answer, first_hinted, lemma_best_ready, lemma_first_answer,
    lemma_first_hinted, lemma_match_one_shape, lemma_match_upto_shape, match_one, match_phase,
    match_upto, same_shape, PendingOp,
};
use crate::simulator_context::SimView;
use crate::utils::{lemma_peer_involution, peer_of};

verus! {

/// Where the earliest write or close on a pipe end stands depends only on
/// the kinds and the pipe ends of the operations.
pub proof fn lemma_first_answer_by_shape(a: Seq<PendingOp>, b: Seq<PendingOp>, fd: u64, from: nat)
    requires
        a.len() == b.len(),
        forall|k: int| 0 <= k < a.len() ==> same_shape(a[k], b[k]),
    ensures
        first_answer(a, fd, from) == first_answer(b, fd, from),
    decreases a.len() - from,
{
    if from < a.len() {
        assert(same_shape(a[from as int], b[from as int]));
        if !a[from as int].answers(fd) {
            lemma_first_answer_by_shape(a, b, fd, from + 1);
        }
    }
}

/// A matching step changes nothing but the read it is made for and the
/// write that this read takes bytes from.
pub proof fn lemma_match_one_elsewhere(ops: Seq<PendingOp>, i: int, m: int)
    requires
        0 <= i < ops.len(),
        0 <= m < ops.len(),
        m != i,
        !(ops[m] is WriteWait),
    ensures
        match_one(ops, i)[m] == ops[m],
{
    match ops[i] {
        PendingOp::ReadWait { fd, .. } => {
            lemma_first_answer(ops, peer_of(fd), 0);
        },
        _ => {},
    }
}

/// While the matching phase has not reached a read, the read is as it was;
/// once it has passed a read whose earliest answer is a close, the read
/// wants no more bytes and holds the bytes that it held.
proof fn lemma_match_upto_closed_read(ops: Seq<PendingOp>, i: int, k: nat)
    requires
        0 <= i < ops.len(),
        k <= ops.len(),
        ops[i] is ReadWait,
        first_answer(ops, peer_of(ops[i]->ReadWait_fd), 0) < ops.len(),
        ops[first_answer(ops, peer_of(ops[i]->ReadWait_fd), 0) as int] is CloseWait,
    ensures
        match_upto(ops, k)[i] == (if k > i {
            PendingOp::ReadWait {
                pid: ops[i]->ReadWait_pid,
                fd: ops[i]->ReadWait_fd,
                remaining: 0,
                accumulated: ops[i]->ReadWait_accumulated,
            }
        } else {
            ops[i]
        }),
    decreases k,
{
    if k > 0 {
        let prev = match_upto(ops, (k - 1) as nat);
        lemma_match_upto_closed_read(ops, i, (k - 1) as nat);
        lemma_match_upto_shape(ops, (k - 1) as nat);
        if k - 1 == i {
            let w = peer_of(ops[i]->ReadWait_fd);
            lemma_first_answer_by_shape(ops, prev, w, 0);
            let at = first_answer(ops, w, 0) as int;
            assert(same_shape(ops[at], prev[at]));
        } else {
            assert(same_shape(ops[i], prev[i]));
            lemma_match_one_elsewhere(prev, k - 1, i);
        }
    }
}

/// Closing the write end of a pipe ends a read that waits on the read end,
/// at once and without an error: the scheduler step of the close retires
/// the read, leaves for the reader exactly the bytes that the read had got
/// by then, and wakes the reader; the closed end is gone. This holds when
/// no write or close on the closed end is pending already and no other
/// read is pending on either end of the pipe.
pub proof fn lemma_close_unblocks<H>(s: SimView<H>, closer: u64, w: u64, i: int)
    requires
        s.wf(),
        s.has_proc(closer),
        s.has_fd(closer, w),
        0 <= i < s.pending.len(),
        s.pending[i] is ReadWait,
        s.pending[i]->ReadWait_fd == peer_of(w),
        first_answer(s.pending, w, 0) == s.pending.len(),
        forall|j: int|
            0 <= j < s.pending.len() && j != i && (#[trigger] s.pending[j]) is ReadWait ==> {
                &&& s.pending[j]->ReadWait_fd != w
                &&& s.pending[j]->ReadWait_fd != peer_of(w)
            },
    ensures
        s.close_pipe(closer, w).wf(),
        s.close_pipe(closer, w).cache.contains_key(peer_of(w)),
        s.close_pipe(closer, w).cached(peer_of(w)) == s.pending[i]->ReadWait_accumulated,
        s.close_pipe(closer, w).processes[s.pending[i]->ReadWait_pid].signaled,
        s.close_pipe(closer, w).pending.len() == s.pending.len(),
        forall|j: int|
            0 <= j < s.close_pipe(closer, w).pending.len() && (#[trigger] s.close_pipe(
                closer,
                w,
            ).pending[j]) is ReadWait ==> s.close_pipe(closer, w).pending[j]->ReadWait_fd
                != peer_of(w),
        !s.close_pipe(closer, w).fds.contains_key(w),
{
    let r = peer_of(w);
    lemma_peer_involution(w);
    let n = s.pending.len() as int;
    let close = PendingOp::CloseWait { pid: closer, fd: w };
    let ops = s.pending.push(close);
    let queued = s.enqueue(close);
    assert(queued.pending == ops);
    // The close is the earliest answer on the closed end.
    assert(first_answer(ops, w, 0) == n) by {
        lemma_first_answer(s.pending, w, 0);
        lemma_first_answer(ops, w, 0);
        let at = first_answer(ops, w, 0) as int;
        if at < n {
            assert(ops[at] == s.pending[at]);
            assert(s.pending[at].answers(w));
        }
        assert(ops[n].answers(w));
    }
    assert(ops[i] == s.pending[i]);
    lemma_match_upto_closed_read(ops, i, ops.len());
    lemma_match_upto_shape(ops, ops.len());
    let matched = match_phase(ops);
    let hint = Some(w);
    // The read is the first that the hint asks for.
    lemma_first_hinted(matched, hint, 0);
    let h = first_hinted(matched, hint, 0) as int;
    assert(matched[i].hinted(hint));
    assert(h == i) by {
        if h < i {
            assert(matched[h].hinted(hint));
            assert(same_shape(ops[h], matched[h]));
            assert(ops[h] == s.pending[h]);
            assert(s.pending[h] is ReadWait);
            lemma_peer_involution(s.pending[h]->ReadWait_fd);
        }
    }
    assert(chosen(matched, hint) == Some(i));
    let stepped = queued.schedule(hint);
    assert(queued.wf()) by {
        assert forall|k: int| 0 <= k < queued.pending.len() implies (
        #[trigger] queued.pending[k]).pid() < queued.process_id_count by {
            if k < n {
                assert(queued.pending[k] == s.pending[k]);
            }
        }
    }
    crate::simulator_context::lemma_schedule_wf(queued, hint);
    assert(stepped.pending =~= matched.remove(i));
    assert forall|j: int|
        0 <= j < stepped.pending.len() && (#[trigger] stepped.pending[j]) is ReadWait implies stepped.pending[j]->ReadWait_fd
        != r by {
        let src = if j < i {
            j
        } else {
            j + 1
        };
        assert(stepped.pending[j] == matched[src]);
        assert(same_shape(ops[src], matched[src]));
        if src < n {
            assert(ops[src] == s.pending[src]);
        }
    }
    let done = s.close_pipe(closer, w);
    assert(done.wf()) by {
        assert(done.fds.dom() =~= stepped.fds.dom().remove(w));
    }
}

/// The byte strings of a list, joined in the order of the list.
pub open spec fn joined(parts: Seq<Seq<u8>>) -> Seq<u8>
    decreases parts.len(),
{
    if parts.len() == 0 {
        Seq::empty()
    } else {
        joined(parts.drop_last()) + parts.last()
    }
}

/// Joining two lists one after the other joins what each of them joins to.
pub proof fn lemma_joined_concat(a: Seq<Seq<u8>>, b: Seq<Seq<u8>>)
    ensures
        joined(a + b) == joined(a) + joined(b),
    decreases b.len(),
{
    if b.len() == 0 {
        assert(a + b =~= a);
        assert(joined(a) + joined(b) =~= joined(a));
    } else {
        lemma_joined_concat(a, b.drop_last());
        assert((a + b).drop_last() =~= a + b.drop_last());
        assert((a + b).last() == b.last());
        assert(joined(a + b) =~= joined(a) + joined(b));
    }
}

/// A list of empty byte strings joins to the empty byte string.
pub proof fn lemma_joined_empty(parts: Seq<Seq<u8>>)
    requires
        forall|k: int| 0 <= k < parts.len() ==> (#[trigger] parts[k]).len() == 0,
    ensures
        joined(parts) == Seq::<u8>::empty(),
    decreases parts.len(),
{
    if parts.len() > 0 {
        lemma_joined_empty(parts.drop_last());
        assert(joined(parts) =~= Seq::<u8>::empty());
    }
}

/// A list joins to what stands before one of its members, that member,
/// and what stands after it.
pub proof fn lemma_joined_split(parts: Seq<Seq<u8>>, k: int)
    requires
        0 <= k < parts.len(),
    ensures
        joined(parts) == joined(parts.take(k)) + parts[k] + joined(parts.skip(k + 1)),
{
    let head = parts.take(k);
    let mid = seq![parts[k]];
    let rest = parts.skip(k + 1);
    assert(parts =~= head + mid + rest);
    lemma_joined_concat(head + mid, rest);
    lemma_joined_concat(head, mid);
    assert(mid.drop_last().len() == 0);
    assert(joined(mid.drop_last()) =~= Seq::<u8>::empty());
    assert(mid.last() == parts[k]);
    assert(joined(mid) =~= parts[k]);
}

/// A list without one of its members joins to what stands before that
/// member and what stands after it.
pub proof fn lemma_joined_remove(parts: Seq<Seq<u8>>, k: int)
    requires
        0 <= k < parts.len(),
    ensures
        joined(parts.remove(k)) == joined(parts.take(k)) + joined(parts.skip(k + 1)),
{
    assert(parts.remove(k) =~= parts.take(k) + parts.skip(k + 1));
    lemma_joined_concat(parts.take(k), parts.skip(k + 1));
}

/// The bytes that `op` holds for the reader of the read end `r`.
pub open spec fn read_bytes(op: PendingOp, r: u64) -> Seq<u8> {
    match op {
        PendingOp::ReadWait { fd, accumulated, .. } => if fd == r {
            accumulated
        } else {
            Seq::empty()
        },
        _ => Seq::empty(),
    }
}

/// The bytes that `op` holds of what was written to the write end `w`.
pub open spec fn write_bytes(op: PendingOp, w: u64) -> Seq<u8> {
    match op {
        PendingOp::WriteWait { fd, pending, .. } => if fd == w {
            pending
        } else {
            Seq::empty()
        },
        _ => Seq::empty(),
    }
}

/// What the pending operations hold for the reader of `r`, one byte string
/// for each operation.
pub open spec fn read_parts(ops: Seq<PendingOp>, r: u64) -> Seq<Seq<u8>> {
    Seq::new(ops.len(), |k: int| read_bytes(ops[k], r))
}

/// What the pending operations hold of what was written to `w`, one byte
/// string for each operation.
pub open spec fn write_parts(ops: Seq<PendingOp>, w: u64) -> Seq<Seq<u8>> {
    Seq::new(ops.len(), |k: int| write_bytes(ops[k], w))
}

/// Whether `op` is a read on the read end `r`.
pub open spec fn reads(op: PendingOp, r: u64) -> bool {
    op is ReadWait && op->ReadWait_fd == r
}

/// Whether at most one read is pending on the read end `r`.
pub open spec fn sole_read(ops: Seq<PendingOp>, r: u64) -> bool {
    forall|j: int, k: int|
        0 <= j < ops.len() && 0 <= k < ops.len() && reads(#[trigger] ops[j], r) && reads(
            #[trigger] ops[k],
            r,
        ) ==> j == k
}

/// Whether no read is pending on the read end `r`.
pub open spec fn no_read(ops: Seq<PendingOp>, r: u64) -> bool {
    forall|k: int| 0 <= k < ops.len() ==> !reads(#[trigger] ops[k], r)
}

/// The bytes on their way through the pipe with the read end `r`, in the
/// order in which the reader gets them: what was delivered and not yet
/// collected, what a pending read has got so far, and what pending writes
/// on the other end still hold.
pub open spec fn unread<H>(s: SimView<H>, r: u64) -> Seq<u8> {
    s.cached(r) + joined(read_parts(s.pending, r)) + joined(write_parts(s.pending, peer_of(r)))
}

/// Whether the reader of `r` takes one step at a time: at most one read is
/// pending on `r`, and none while delivered bytes wait to be collected.
pub open spec fn orderly<H>(s: SimView<H>, r: u64) -> bool {
    &&& sole_read(s.pending, r)
    &&& s.cache.contains_key(r) ==> no_read(s.pending, r)
}

/// With at most one read pending on `r`, what the operations hold for its
/// reader is what that one read holds.
proof fn lemma_read_part_sole(ops: Seq<PendingOp>, r: u64, i: int)
    requires
        0 <= i < ops.len(),
        sole_read(ops, r),
        reads(ops[i], r),
    ensures
        joined(read_parts(ops, r)) == ops[i]->ReadWait_accumulated,
{
    let parts = read_parts(ops, r);
    lemma_joined_split(parts, i);
    assert forall|k: int| 0 <= k < parts.take(i).len() implies (#[trigger] parts.take(i)[k]).len()
        == 0 by {
        assert(!reads(ops[k], r));
    }
    assert forall|k: int| 0 <= k < parts.skip(i + 1).len() implies (#[trigger] parts.skip(
        i + 1,
    )[k]).len() == 0 by {
        assert(!reads(ops[k + i + 1], r));
    }
    lemma_joined_empty(parts.take(i));
    lemma_joined_empty(parts.skip(i + 1));
    assert(joined(parts) =~= ops[i]->ReadWait_accumulated);
}

/// With no read pending on `r`, the operations hold nothing for its reader.
proof fn lemma_read_part_none(ops: Seq<PendingOp>, r: u64)
    requires
        no_read(ops, r),
    ensures
        joined(read_parts(ops, r)) == Seq::<u8>::empty(),
{
    let parts = read_parts(ops, r);
    assert forall|k: int| 0 <= k < parts.len() implies (#[trigger] parts[k]).len() == 0 by {
        assert(!reads(ops[k], r));
    }
    lemma_joined_empty(parts);
}

/// A matching step moves bytes along a pipe and neither loses, adds nor
/// reorders any: with at most one read pending on `r`, the bytes that the
/// read has got followed by the bytes that the writes on the other end
/// hold are the same before and after.
pub proof fn lemma_match_one_keeps(ops: Seq<PendingOp>, i: int, r: u64)
    requires
        0 <= i < ops.len(),
        sole_read(ops, r),
    ensures
        sole_read(match_one(ops, i), r),
        no_read(ops, r) ==> no_read(match_one(ops, i), r),
        joined(read_parts(match_one(ops, i), r)) + joined(
            write_parts(match_one(ops, i), peer_of(r)),
        ) == joined(read_parts(ops, r)) + joined(write_parts(ops, peer_of(r))),
{
    let w = peer_of(r);
    let after = match_one(ops, i);
    lemma_match_one_shape(ops, i);
    assert forall|k: int| 0 <= k < ops.len() implies reads(#[trigger] after[k], r) == reads(
        ops[k],
        r,
    ) by {
        assert(same_shape(ops[k], after[k]));
    }
    match ops[i] {
        PendingOp::ReadWait { pid, fd, remaining, accumulated } => {
            lemma_first_answer(ops, peer_of(fd), 0);
            let at = first_answer(ops, peer_of(fd), 0) as int;
            if remaining != 0 && at < ops.len() {
                match ops[at] {
                    PendingOp::WriteWait { pid: wpid, fd: wfd, pending } => {
                        let n = copy_len(remaining, pending.len()) as int;
                        if fd == r {
                            assert(wfd == w);
                            lemma_read_part_sole(ops, r, i);
                            lemma_read_part_sole(after, r, i);
                            let before_parts = write_parts(ops, w);
                            let after_parts = write_parts(after, w);
                            lemma_joined_split(before_parts, at);
                            lemma_joined_split(after_parts, at);
                            assert(after_parts.take(at) =~= before_parts.take(at));
                            assert(after_parts.skip(at + 1) =~= before_parts.skip(at + 1));
                            assert forall|k: int|
                                0 <= k < before_parts.take(at).len() implies (
                            #[trigger] before_parts.take(at)[k]).len() == 0 by {
                                assert(!ops[k].answers(w));
                            }
                            lemma_joined_empty(before_parts.take(at));
                            assert(pending =~= pending.subrange(0, n) + pending.subrange(
                                n,
                                pending.len() as int,
                            ));
                            assert(joined(read_parts(after, r)) + joined(after_parts) =~= joined(
                                read_parts(ops, r),
                            ) + joined(before_parts));
                        } else {
                            lemma_peer_involution(fd);
                            lemma_peer_involution(r);
                            assert(wfd != w);
                            assert(read_parts(after, r) =~= read_parts(ops, r));
                            assert(write_parts(after, w) =~= write_parts(ops, w));
                        }
                    },
                    _ => {
                        assert(read_parts(after, r) =~= read_parts(ops, r));
                        assert(write_parts(after, w) =~= write_parts(ops, w));
                    },
                }
            }
        },
        _ => {},
    }
}

/// The matching phase moves bytes along a pipe and neither loses, adds nor
/// reorders any.
pub proof fn lemma_match_upto_keeps(ops: Seq<PendingOp>, n: nat, r: u64)
    requires
        n <= ops.len(),
        sole_read(ops, r),
    ensures
        sole_read(match_upto(ops, n), r),
        no_read(ops, r) ==> no_read(match_upto(ops, n), r),
        joined(read_parts(match_upto(ops, n), r)) + joined(
            write_parts(match_upto(ops, n), peer_of(r)),
        ) == joined(read_parts(ops, r)) + joined(write_parts(ops, peer_of(r))),
    decreases n,
{
    if n > 0 {
        lemma_match_upto_keeps(ops, (n - 1) as nat, r);
        lemma_match_upto_shape(ops, (n - 1) as nat);
        lemma_match_one_keeps(match_upto(ops, (n - 1) as nat), n - 1, r);
    }
}

/// A wake phase keeps the bytes on their way through a pipe, and their
/// order, as long as the reader takes one step at a time.
pub proof fn lemma_wake_keeps_unread<H>(s: SimView<H>, hint: Option<u64>, r: u64)
    requires
        orderly(s, r),
    ensures
        orderly(s.wake(hint), r),
        unread(s.wake(hint), r) == unread(s, r),
{
    let w = peer_of(r);
    lemma_first_hinted(s.pending, hint, 0);
    lemma_best_ready(s.pending, s.pending.len());
    match chosen(s.pending, hint) {
        Some(i) => {
            let op = s.pending[i];
            let t = s.wake(hint);
            assert(t.pending =~= s.pending.remove(i));
            assert(op.ready());
            assert forall|k: int| 0 <= k < t.pending.len() implies #[trigger] t.pending[k] == (
            if k < i {
                s.pending[k]
            } else {
                s.pending[k + 1]
            }) by {}
            assert(sole_read(t.pending, r)) by {
                assert forall|j: int, k: int|
                    0 <= j < t.pending.len() && 0 <= k < t.pending.len() && reads(
                        #[trigger] t.pending[j],
                        r,
                    ) && reads(#[trigger] t.pending[k], r) implies j == k by {
                    let sj = if j < i {
                        j
                    } else {
                        j + 1
                    };
                    let sk = if k < i {
                        k
                    } else {
                        k + 1
                    };
                    assert(reads(s.pending[sj], r) && reads(s.pending[sk], r));
                }
            }
            let rp = read_parts(s.pending, r);
            let wp = write_parts(s.pending, w);
            assert(read_parts(t.pending, r) =~= rp.remove(i));
            assert(write_parts(t.pending, w) =~= wp.remove(i));
            lemma_joined_split(rp, i);
            lemma_joined_remove(rp, i);
            lemma_joined_split(wp, i);
            lemma_joined_remove(wp, i);
            assert(wp[i].len() == 0);
            if reads(op, r) {
                assert(!s.cache.contains_key(r));
                assert(no_read(t.pending, r)) by {
                    assert forall|k: int| 0 <= k < t.pending.len() implies !reads(
                        #[trigger] t.pending[k],
                        r,
                    ) by {
                        let sk = if k < i {
                            k
                        } else {
                            k + 1
                        };
                        if reads(t.pending[k], r) {
                            assert(reads(s.pending[sk], r));
                        }
                    }
                }
                lemma_read_part_sole(s.pending, r, i);
                lemma_read_part_none(t.pending, r);
                assert(t.cached(r) == op->ReadWait_accumulated);
                assert(unread(t, r) =~= unread(s, r));
            } else {
                assert(rp[i].len() == 0);
                assert(t.cached(r) == s.cached(r));
                assert(t.cache.contains_key(r) == s.cache.contains_key(r));
                if t.cache.contains_key(r) {
                    assert forall|k: int| 0 <= k < t.pending.len() implies !reads(
                        #[trigger] t.pending[k],
                        r,
                    ) by {
                        let sk = if k < i {
                            k
                        } else {
                            k + 1
                        };
                        assert(!reads(s.pending[sk], r));
                    }
                }
                assert(unread(t, r) =~= unread(s, r));
            }
        },
        None => {},
    }
}

/// A scheduler step keeps the bytes on their way through a pipe, and their
/// order, as long as the reader takes one step at a time.
pub proof fn lemma_schedule_keeps_unread<H>(s: SimView<H>, hint: Option<u64>, r: u64)
    requires
        orderly(s, r),
    ensures
        orderly(s.schedule(hint), r),
        unread(s.schedule(hint), r) == unread(s, r),
{
    lemma_match_upto_keeps(s.pending, s.pending.len(), r);
    let matched = SimView { pending: match_phase(s.pending), ..s };
    assert(matched.cached(r) == s.cached(r));
    let w = peer_of(r);
    let moved = joined(read_parts(matched.pending, r)) + joined(write_parts(matched.pending, w));
    let held = joined(read_parts(s.pending, r)) + joined(write_parts(s.pending, w));
    assert(moved == held);
    assert(unread(matched, r) =~= s.cached(r) + moved);
    assert(unread(s, r) =~= s.cached(r) + held);
    lemma_wake_keeps_unread(matched, hint, r);
}

/// Adding a pending operation adds what it holds behind what was held.
proof fn lemma_enqueue_parts(ops: Seq<PendingOp>, op: PendingOp, r: u64)
    ensures
        joined(read_parts(ops.push(op), r)) == joined(read_parts(ops, r)) + read_bytes(op, r),
        joined(write_parts(ops.push(op), peer_of(r))) == joined(write_parts(ops, peer_of(r)))
            + write_bytes(op, peer_of(r)),
{
    let w = peer_of(r);
    assert(read_parts(ops.push(op), r).drop_last() =~= read_parts(ops, r));
    assert(write_parts(ops.push(op), w).drop_last() =~= write_parts(ops, w));
}

/// A write puts its bytes behind all the bytes that are on their way
/// through the pipe already.
pub proof fn lemma_write_extends_unread<H>(s: SimView<H>, pid: u64, w: u64, buf: Seq<u8>)
    requires
        orderly(s, peer_of(w)),
    ensures
        orderly(s.wait_write(pid, w, buf), peer_of(w)),
        unread(s.wait_write(pid, w, buf), peer_of(w)) == unread(s, peer_of(w)) + buf,
{
    let r = peer_of(w);
    lemma_peer_involution(w);
    let op = PendingOp::WriteWait { pid, fd: w, pending: buf };
    let queued = s.enqueue(op);
    lemma_enqueue_parts(s.pending, op, r);
    assert(orderly(queued, r)) by {
        assert forall|k: int| 0 <= k < queued.pending.len() implies reads(
            #[trigger] queued.pending[k],
            r,
        ) == (k < s.pending.len() && reads(s.pending[k], r)) by {}
    }
    assert(unread(queued, r) =~= unread(s, r) + buf);
    lemma_schedule_keeps_unread(queued, Some(w), r);
}

/// A read on a pipe end with nothing pending and nothing to collect leaves
/// the bytes on their way through the pipe, and their order, as they are.
pub proof fn lemma_read_keeps_unread<H>(s: SimView<H>, pid: u64, r: u64, len: nat)
    requires
        no_read(s.pending, r),
        !s.cache.contains_key(r),
    ensures
        orderly(s.wait_read(pid, r, len), r),
        unread(s.wait_read(pid, r, len), r) == unread(s, r),
{
    let op = PendingOp::ReadWait { pid, fd: r, remaining: len, accumulated: Seq::empty() };
    let queued = s.enqueue(op);
    lemma_enqueue_parts(s.pending, op, r);
    assert(orderly(queued, r)) by {
        assert forall|k: int| 0 <= k < queued.pending.len() implies reads(
            #[trigger] queued.pending[k],
            r,
        ) == (k == s.pending.len()) by {
            if k < s.pending.len() {
                assert(queued.pending[k] == s.pending[k]);
            }
        }
    }
    assert(unread(queued, r) =~= unread(s, r));
    lemma_schedule_keeps_unread(queued, Some(r), r);
}

/// Collecting takes the delivered bytes off the front of the bytes that
/// are on their way through the pipe, and leaves the rest in order.
pub proof fn lemma_collect_takes_front<H>(s: SimView<H>, r: u64)
    requires
        orderly(s, r),
    ensures
        orderly(s.read_cache(r), r),
        !s.read_cache(r).cache.contains_key(r),
        unread(s, r) == s.cached(r) + unread(s.read_cache(r), r),
{
    let t = s.read_cache(r);
    assert(t.cached(r) =~= Seq::<u8>::empty());
    assert(unread(s, r) =~= s.cached(r) + unread(t, r));
}

/// One thing that happens in a simulation, seen from the pipe with the
/// read end `r`.
pub enum PipeStep {
    /// A process offers bytes to the write end of the pipe.
    Write { pid: u64, buf: Seq<u8> },
    /// A process asks for bytes from the read end of the pipe.
    Read { pid: u64, len: nat },
    /// The reader collects what was delivered to it.
    Collect,
    /// A scheduler step.
    Schedule { hint: Option<u64> },
    /// Any other operation is announced and a scheduler step follows: a
    /// close, a start, an end, or a read or write on another pipe.
    Other { op: PendingOp, hint: Option<u64> },
}

/// Whether `step` may happen in `s`: a read starts only when no read is
/// pending on `r` and nothing waits to be collected, and an operation that
/// counts as another one is neither a read on `r` nor a write on the other
/// end.
pub open spec fn step_ok<H>(s: SimView<H>, r: u64, step: PipeStep) -> bool {
    match step {
        PipeStep::Read { .. } => no_read(s.pending, r) && !s.cache.contains_key(r),
        PipeStep::Other { op, .. } => !reads(op, r) && !(op is WriteWait && op->WriteWait_fd
            == peer_of(r)),
        _ => true,
    }
}

/// The simulation after `step`.
pub open spec fn step_state<H>(s: SimView<H>, r: u64, step: PipeStep) -> SimView<H> {
    match step {
        PipeStep::Write { pid, buf } => s.wait_write(pid, peer_of(r), buf),
        PipeStep::Read { pid, len } => s.wait_read(pid, r, len),
        PipeStep::Collect => s.read_cache(r),
        PipeStep::Schedule { hint } => s.schedule(hint),
        PipeStep::Other { op, hint } => s.enqueue(op).schedule(hint),
    }
}

/// The bytes that `step` hands to the reader.
pub open spec fn step_delivered<H>(s: SimView<H>, r: u64, step: PipeStep) -> Seq<u8> {
    match step {
        PipeStep::Collect => s.cached(r),
        _ => Seq::empty(),
    }
}

/// The bytes that `step` takes from the writer.
pub open spec fn step_written(step: PipeStep) -> Seq<u8> {
    match step {
        PipeStep::Write { buf, .. } => buf,
        _ => Seq::empty(),
    }
}

/// The simulation after `steps`, one after the other.
pub open spec fn run_state<H>(s: SimView<H>, r: u64, steps: Seq<PipeStep>) -> SimView<H>
    decreases steps.len(),
{
    if steps.len() == 0 {
        s
    } else {
        step_state(run_state(s, r, steps.drop_last()), r, steps.last())
    }
}

/// Whether each of `steps` may happen when its turn comes.
pub open spec fn run_ok<H>(s: SimView<H>, r: u64, steps: Seq<PipeStep>) -> bool
    decreases steps.len(),
{
    steps.len() == 0 || (run_ok(s, r, steps.drop_last()) && step_ok(
        run_state(s, r, steps.drop_last()),
        r,
        steps.last(),
    ))
}

/// All the bytes that `steps` hand to the reader, in order.
pub open spec fn run_delivered<H>(s: SimView<H>, r: u64, steps: Seq<PipeStep>) -> Seq<u8>
    decreases steps.len(),
{
    if steps.len() == 0 {
        Seq::empty()
    } else {
        run_delivered(s, r, steps.drop_last()) + step_delivered(
            run_state(s, r, steps.drop_last()),
            r,
            steps.last(),
        )
    }
}

/// All the bytes that `steps` take from the writer, in order.
pub open spec fn run_written(steps: Seq<PipeStep>) -> Seq<u8>
    decreases steps.len(),
{
    if steps.len() == 0 {
        Seq::empty()
    } else {
        run_written(steps.drop_last()) + step_written(steps.last())
    }
}

/// What is read from a pipe is what was written to it, in the same order:
/// after any run of steps, the bytes handed to the reader followed by the
/// bytes still on their way are the bytes that were on their way at the
/// start followed by the bytes written during the run.
pub proof fn lemma_pipe_delivers_in_order<H>(s: SimView<H>, r: u64, steps: Seq<PipeStep>)
    requires
        orderly(s, r),
        run_ok(s, r, steps),
    ensures
        orderly(run_state(s, r, steps), r),
        run_delivered(s, r, steps) + unread(run_state(s, r, steps), r) == unread(s, r)
            + run_written(steps),
    decreases steps.len(),
{
    if steps.len() == 0 {
        assert(run_delivered(s, r, steps) + unread(s, r) =~= unread(s, r) + run_written(steps));
    } else {
        let head = steps.drop_last();
        let step = steps.last();
        let mid = run_state(s, r, head);
        let end = step_state(mid, r, step);
        lemma_pipe_delivers_in_order(s, r, head);
        lemma_peer_involution(r);
        let got = run_delivered(s, r, head);
        let put = run_written(head);
        assert(got + unread(mid, r) == unread(s, r) + put);
        match step {
            PipeStep::Write { pid, buf } => {
                lemma_write_extends_unread(mid, pid, peer_of(r), buf);
                assert(unread(end, r) == unread(mid, r) + buf);
                assert(got + Seq::<u8>::empty() + (unread(mid, r) + buf) =~= (got + unread(mid, r))
                    + buf);
                assert((unread(s, r) + put) + buf =~= unread(s, r) + (put + buf));
            },
            PipeStep::Read { pid, len } => {
                lemma_read_keeps_unread(mid, pid, r, len);
                assert(got + Seq::<u8>::empty() + unread(end, r) =~= got + unread(mid, r));
                assert(unread(s, r) + (put + Seq::<u8>::empty()) =~= unread(s, r) + put);
            },
            PipeStep::Collect => {
                lemma_collect_takes_front(mid, r);
                assert((got + mid.cached(r)) + unread(end, r) =~= got + (mid.cached(r) + unread(
                    end,
                    r,
                )));
                assert(unread(s, r) + (put + Seq::<u8>::empty()) =~= unread(s, r) + put);
            },
            PipeStep::Schedule { hint } => {
                lemma_schedule_keeps_unread(mid, hint, r);
                assert(got + Seq::<u8>::empty() + unread(end, r) =~= got + unread(mid, r));
                assert(unread(s, r) + (put + Seq::<u8>::empty()) =~= unread(s, r) + put);
            },
            PipeStep::Other { op, hint } => {
                let queued = mid.enqueue(op);
                lemma_enqueue_parts(mid.pending, op, r);
                assert(orderly(queued, r)) by {
                    assert forall|k: int| 0 <= k < queued.pending.len() implies reads(
                        #[trigger] queued.pending[k],
                        r,
                    ) == (k < mid.pending.len() && reads(mid.pending[k], r)) by {}
                }
                assert(unread(queued, r) =~= unread(mid, r));
                lemma_schedule_keeps_unread(queued, hint, r);
                assert(got + Seq::<u8>::empty() + unread(end, r) =~= got + unread(mid, r));
                assert(unread(s, r) + (put + Seq::<u8>::empty()) =~= unread(s, r) + put);
            },
        }
    }
}

/// On a pipe that starts out empty, the reader gets a front part of what
/// the writer wrote: never a byte that was not written, never two bytes out
/// of order.
pub proof fn lemma_reader_gets_prefix<H>(s: SimView<H>, r: u64, steps: Seq<PipeStep>)
    requires
        orderly(s, r),
        unread(s, r).len() == 0,
        run_ok(s, r, steps),
    ensures
        run_delivered(s, r, steps).is_prefix_of(run_written(steps)),
{
    lemma_pipe_delivers_in_order(s, r, steps);
    let got = run_delivered(s, r, steps);
    let rest = unread(run_state(s, r, steps), r);
    assert(unread(s, r) + run_written(steps) =~= run_written(steps));
    assert(got + rest == run_written(steps));
    assert(got =~= (got + rest).subrange(0, got.len() as int));
}

/// The sum of a list of numbers.
pub open spec fn total(parts: Seq<nat>) -> nat
    decreases parts.len(),
{
    if parts.len() == 0 {
        0
    } else {
        total(parts.drop_last()) + parts.last()
    }
}

/// A list that is nowhere above another of the same length sums to no
/// more than the other.
pub proof fn lemma_total_monotone(a: Seq<nat>, b: Seq<nat>)
    requires
        a.len() == b.len(),
        forall|k: int| 0 <= k < a.len() ==> a[k] <= b[k],
    ensures
        total(a) <= total(b),
    decreases a.len(),
{
    if a.len() > 0 {
        lemma_total_monotone(a.drop_last(), b.drop_last());
    }
}

/// The sum of a list is the sum of the list without one of its members,
/// and that member.
pub proof fn lemma_total_remove(parts: Seq<nat>, k: int)
    requires
        0 <= k < parts.len(),
    ensures
        total(parts) == total(parts.remove(k)) + parts[k],
    decreases parts.len(),
{
    if k == parts.len() - 1 {
        assert(parts.remove(k) =~= parts.drop_last());
    } else {
        lemma_total_remove(parts.drop_last(), k);
        assert(parts.remove(k).drop_last() =~= parts.drop_last().remove(k));
        assert(parts.remove(k).last() == parts.last());
    }
}

/// The number of bytes that `op` can still hand to the reader of `r`: what
/// a read on `r` has got, and what it still wants.
pub open spec fn read_budget(op: PendingOp, r: u64) -> nat {
    match op {
        PendingOp::ReadWait { fd, remaining, accumulated, .. } => if fd == r {
            accumulated.len() + remaining
        } else {
            0
        },
        _ => 0,
    }
}

/// The budget of every pending operation, one number for each.
pub open spec fn budget_parts(ops: Seq<PendingOp>, r: u64) -> Seq<nat> {
    Seq::new(ops.len(), |k: int| read_budget(ops[k], r))
}

/// The number of bytes that the reader of `r` can still get without
/// asking again: what waits to be collected, and what the pending reads on
/// `r` have got and still want.
pub open spec fn budget<H>(s: SimView<H>, r: u64) -> nat {
    s.cached(r).len() + total(budget_parts(s.pending, r))
}

/// A matching step adds nothing to what a read has got and still wants
/// together: it moves bytes from the one to the other, or gives up what is
/// still wanted.
pub proof fn lemma_match_one_budget(ops: Seq<PendingOp>, i: int, r: u64)
    requires
        0 <= i < ops.len(),
    ensures
        total(budget_parts(match_one(ops, i), r)) <= total(budget_parts(ops, r)),
{
    let after = match_one(ops, i);
    lemma_match_one_shape(ops, i);
    assert forall|k: int| 0 <= k < ops.len() implies budget_parts(after, r)[k] <= budget_parts(
        ops,
        r,
    )[k] by {
        assert(same_shape(ops[k], after[k]));
        if k != i {
            if ops[k] is WriteWait {
            } else {
                lemma_match_one_elsewhere(ops, i, k);
            }
        } else {
            match ops[i] {
                PendingOp::ReadWait { fd, .. } => {
                    lemma_first_answer(ops, peer_of(fd), 0);
                },
                _ => {},
            }
        }
    }
    lemma_total_monotone(budget_parts(after, r), budget_parts(ops, r));
}

/// The matching phase adds nothing to the budget of a reader.
pub proof fn lemma_match_upto_budget(ops: Seq<PendingOp>, n: nat, r: u64)
    requires
        n <= ops.len(),
    ensures
        total(budget_parts(match_upto(ops, n), r)) <= total(budget_parts(ops, r)),
    decreases n,
{
    if n > 0 {
        lemma_match_upto_budget(ops, (n - 1) as nat, r);
        lemma_match_upto_shape(ops, (n - 1) as nat);
        lemma_match_one_budget(match_upto(ops, (n - 1) as nat), n - 1, r);
    }
}

/// A scheduler step adds nothing to the budget of a reader that takes one
/// step at a time: a read that is retired leaves no more to collect than it
/// had got.
pub proof fn lemma_schedule_budget<H>(s: SimView<H>, hint: Option<u64>, r: u64)
    requires
        orderly(s, r),
    ensures
        budget(s.schedule(hint), r) <= budget(s, r),
{
    lemma_match_upto_budget(s.pending, s.pending.len(), r);
    lemma_match_upto_keeps(s.pending, s.pending.len(), r);
    let matched = SimView { pending: match_phase(s.pending), ..s };
    assert(matched.cached(r) == s.cached(r));
    lemma_first_hinted(matched.pending, hint, 0);
    lemma_best_ready(matched.pending, matched.pending.len());
    match chosen(matched.pending, hint) {
        Some(i) => {
            let t = matched.wake(hint);
            let op = matched.pending[i];
            assert(t.pending =~= matched.pending.remove(i));
            assert(budget_parts(t.pending, r) =~= budget_parts(matched.pending, r).remove(i));
            lemma_total_remove(budget_parts(matched.pending, r), i);
            if reads(op, r) {
                assert(!matched.cache.contains_key(r));
                assert(op.ready());
                assert(t.cached(r) == op->ReadWait_accumulated);
            } else {
                assert(t.cached(r) == matched.cached(r));
            }
        },
        None => {},
    }
}

/// Adding a pending operation adds its budget.
proof fn lemma_enqueue_budget(ops: Seq<PendingOp>, op: PendingOp, r: u64)
    ensures
        total(budget_parts(ops.push(op), r)) == total(budget_parts(ops, r)) + read_budget(op, r),
{
    assert(budget_parts(ops.push(op), r).drop_last() =~= budget_parts(ops, r));
}

/// The number of bytes that `step` asks for.
pub open spec fn step_requested(step: PipeStep) -> nat {
    match step {
        PipeStep::Read { len, .. } => len,
        _ => 0,
    }
}

/// The number of bytes that `steps` ask for, all in all.
pub open spec fn run_requested(steps: Seq<PipeStep>) -> nat
    decreases steps.len(),
{
    if steps.len() == 0 {
        0
    } else {
        run_requested(steps.drop_last()) + step_requested(steps.last())
    }
}

/// A reader never gets more bytes than it asked for: after any run of
/// steps, the bytes handed to the reader and the bytes it can still get
/// without asking again are no more than what it could get at the start
/// and what it asked for during the run.
pub proof fn lemma_reader_gets_no_more_than_asked<H>(s: SimView<H>, r: u64, steps: Seq<PipeStep>)
    requires
        orderly(s, r),
        run_ok(s, r, steps),
    ensures
        run_delivered(s, r, steps).len() + budget(run_state(s, r, steps), r) <= budget(s, r)
            + run_requested(steps),
    decreases steps.len(),
{
    if steps.len() > 0 {
        let head = steps.drop_last();
        let step = steps.last();
        let mid = run_state(s, r, head);
        lemma_reader_gets_no_more_than_asked(s, r, head);
        lemma_pipe_delivers_in_order(s, r, head);
        lemma_peer_involution(r);
        match step {
            PipeStep::Write { pid, buf } => {
                let op = PendingOp::WriteWait { pid, fd: peer_of(r), pending: buf };
                let queued = mid.enqueue(op);
                lemma_enqueue_budget(mid.pending, op, r);
                assert(orderly(queued, r)) by {
                    assert forall|k: int| 0 <= k < queued.pending.len() implies reads(
                        #[trigger] queued.pending[k],
                        r,
                    ) == (k < mid.pending.len() && reads(mid.pending[k], r)) by {}
                }
                lemma_schedule_budget(queued, Some(peer_of(r)), r);
            },
            PipeStep::Read { pid, len } => {
                let op = PendingOp::ReadWait {
                    pid,
                    fd: r,
                    remaining: len,
                    accumulated: Seq::empty(),
                };
                let queued = mid.enqueue(op);
                lemma_enqueue_budget(mid.pending, op, r);
                assert(orderly(queued, r)) by {
                    assert forall|k: int| 0 <= k < queued.pending.len() implies reads(
                        #[trigger] queued.pending[k],
                        r,
                    ) == (k == mid.pending.len()) by {
                        if k < mid.pending.len() {
                            assert(queued.pending[k] == mid.pending[k]);
                        }
                    }
                }
                lemma_schedule_budget(queued, Some(r), r);
            },
            PipeStep::Collect => {
                let end = mid.read_cache(r);
                assert(end.cached(r).len() == 0);
            },
            PipeStep::Schedule { hint } => {
                lemma_schedule_budget(mid, hint, r);
            },
            PipeStep::Other { op, hint } => {
                let queued = mid.enqueue(op);
                lemma_enqueue_budget(mid.pending, op, r);
                assert(orderly(queued, r)) by {
                    assert forall|k: int| 0 <= k < queued.pending.len() implies reads(
                        #[trigger] queued.pending[k],
                        r,
                    ) == (k < mid.pending.len() && reads(mid.pending[k], r)) by {}
                }
                lemma_schedule_budget(queued, hint, r);
            },
        }
    }
}

/// The length of the latest read that `steps` ask for; `before` when they
/// ask for none.
pub open spec fn last_request(steps: Seq<PipeStep>, before: nat) -> nat
    decreases steps.len(),
{
    if steps.len() == 0 {
        before
    } else {
        match steps.last() {
            PipeStep::Read { len, .. } => len,
            _ => last_request(steps.drop_last(), before),
        }
    }
}

/// A list of zeros sums to zero.
proof fn lemma_total_zero(parts: Seq<nat>)
    requires
        forall|k: int| 0 <= k < parts.len() ==> parts[k] == 0,
    ensures
        total(parts) == 0,
    decreases parts.len(),
{
    if parts.len() > 0 {
        lemma_total_zero(parts.drop_last());
    }
}

/// No read hands over more bytes than it asked for: at every point of a
/// run, what the reader can collect is no longer than its latest request.
pub proof fn lemma_read_within_request<H>(s: SimView<H>, r: u64, steps: Seq<PipeStep>, before: nat)
    requires
        orderly(s, r),
        run_ok(s, r, steps),
        budget(s, r) <= before,
    ensures
        budget(run_state(s, r, steps), r) <= last_request(steps, before),
        run_state(s, r, steps).cached(r).len() <= last_request(steps, before),
    decreases steps.len(),
{
    if steps.len() > 0 {
        let head = steps.drop_last();
        let step = steps.last();
        let mid = run_state(s, r, head);
        lemma_read_within_request(s, r, head, before);
        lemma_pipe_delivers_in_order(s, r, head);
        lemma_peer_involution(r);
        match step {
            PipeStep::Write { pid, buf } => {
                let op = PendingOp::WriteWait { pid, fd: peer_of(r), pending: buf };
                let queued = mid.enqueue(op);
                lemma_enqueue_budget(mid.pending, op, r);
                assert(orderly(queued, r)) by {
                    assert forall|k: int| 0 <= k < queued.pending.len() implies reads(
                        #[trigger] queued.pending[k],
                        r,
                    ) == (k < mid.pending.len() && reads(mid.pending[k], r)) by {}
                }
                lemma_schedule_budget(queued, Some(peer_of(r)), r);
            },
            PipeStep::Read { pid, len } => {
                let op = PendingOp::ReadWait {
                    pid,
                    fd: r,
                    remaining: len,
                    accumulated: Seq::empty(),
                };
                let queued = mid.enqueue(op);
                assert forall|k: int| 0 <= k < budget_parts(mid.pending, r).len() implies budget_parts(
                    mid.pending,
                    r,
                )[k] == 0 by {
                    assert(!reads(mid.pending[k], r));
                }
                lemma_total_zero(budget_parts(mid.pending, r));
                lemma_enqueue_budget(mid.pending, op, r);
                assert(orderly(queued, r)) by {
                    assert forall|k: int| 0 <= k < queued.pending.len() implies reads(
                        #[trigger] queued.pending[k],
                        r,
                    ) == (k == mid.pending.len()) by {
                        if k < mid.pending.len() {
                            assert(queued.pending[k] == mid.pending[k]);
                        }
                    }
                }
                lemma_schedule_budget(queued, Some(r), r);
            },
            PipeStep::Collect => {
                let end = mid.read_cache(r);
                assert(end.cached(r).len() == 0);
            },
            PipeStep::Schedule { hint } => {
                lemma_schedule_budget(mid, hint, r);
            },
            PipeStep::Other { op, hint } => {
                let queued = mid.enqueue(op);
                lemma_enqueue_budget(mid.pending, op, r);
                assert(orderly(queued, r)) by {
                    assert forall|k: int| 0 <= k < queued.pending.len() implies reads(
                        #[trigger] queued.pending[k],
                        r,
                    ) == (k < mid.pending.len() && reads(mid.pending[k], r)) by {}
                }
                lemma_schedule_budget(queued, hint, r);
            },
        }
    }
}

/// Through a pipe that starts out empty, the reader gets the bytes that
/// were written, in order, cut to no more than it asked for: what it gets
/// is a front part of what was written, and no longer than all it asked
/// for.
pub proof fn lemma_read_after_write<H>(s: SimView<H>, r: u64, steps: Seq<PipeStep>)
    requires
        orderly(s, r),
        unread(s, r).len() == 0,
        budget(s, r) == 0,
        run_ok(s, r, steps),
    ensures
        run_delivered(s, r, steps).is_prefix_of(run_written(steps)),
        run_delivered(s, r, steps).len() <= run_requested(steps),
{
    lemma_reader_gets_prefix(s, r, steps);
    lemma_reader_gets_no_more_than_asked(s, r, steps);
}

/// Once nothing is on its way through a pipe that started out empty, the
/// reader has got exactly what the writer wrote.
pub proof fn lemma_all_written_is_read<H>(s: SimView<H>, r: u64, steps: Seq<PipeStep>)
    requires
        orderly(s, r),
        unread(s, r).len() == 0,
        run_ok(s, r, steps),
        unread(run_state(s, r, steps), r).len() == 0,
    ensures
        run_delivered(s, r, steps) == run_written(steps),
{
    lemma_pipe_delivers_in_order(s, r, steps);
    let got = run_delivered(s, r, steps);
    assert(got + unread(run_state(s, r, steps), r) =~= got);
    assert(unread(s, r) + run_written(steps) =~= run_written(steps));
}

/// A scheduler step adds no pending operation: where at most one read was
/// pending on a pipe end, at most one is, and where none was, none is.
pub proof fn lemma_schedule_keeps_sole_read<H>(s: SimView<H>, hint: Option<u64>, r: u64)
    requires
        sole_read(s.pending, r),
    ensures
        sole_read(s.schedule(hint).pending, r),
        no_read(s.pending, r) ==> no_read(s.schedule(hint).pending, r),
{
    lemma_match_upto_keeps(s.pending, s.pending.len(), r);
    let matched = SimView { pending: match_phase(s.pending), ..s };
    lemma_first_hinted(matched.pending, hint, 0);
    lemma_best_ready(matched.pending, matched.pending.len());
    match chosen(matched.pending, hint) {
        Some(i) => {
            let t = matched.wake(hint);
            assert(t.pending =~= matched.pending.remove(i));
            assert forall|k: int| 0 <= k < t.pending.len() implies #[trigger] t.pending[k] == (
            if k < i {
                matched.pending[k]
            } else {
                matched.pending[k + 1]
            }) by {}
            assert forall|j: int, k: int|
                0 <= j < t.pending.len() && 0 <= k < t.pending.len() && reads(
                    #[trigger] t.pending[j],
                    r,
                ) && reads(#[trigger] t.pending[k], r) implies j == k by {
                let sj = if j < i {
                    j
                } else {
                    j + 1
                };
                let sk = if k < i {
                    k
                } else {
                    k + 1
                };
                assert(reads(matched.pending[sj], r) && reads(matched.pending[sk], r));
            }
            if no_read(s.pending, r) {
                assert forall|k: int| 0 <= k < t.pending.len() implies !reads(
                    #[trigger] t.pending[k],
                    r,
                ) by {
                    let sk = if k < i {
                        k
                    } else {
                        k + 1
                    };
                    assert(!reads(matched.pending[sk], r));
                }
            }
        },
        None => {},
    }
}

/// Whether `op` is a write on the write end `w`.
pub open spec fn writes(op: PendingOp, w: u64) -> bool {
    op is WriteWait && op->WriteWait_fd == w
}

/// Whether at most one write is pending on the write end `w`.
pub open spec fn sole_write(ops: Seq<PendingOp>, w: u64) -> bool {
    forall|j: int, k: int|
        0 <= j < ops.len() && 0 <= k < ops.len() && writes(#[trigger] ops[j], w) && writes(
            #[trigger] ops[k],
            w,
        ) ==> j == k
}

/// A scheduler step adds no pending operation: where at most one write was
/// pending on a pipe end, at most one is.
pub proof fn lemma_schedule_keeps_sole_write<H>(s: SimView<H>, hint: Option<u64>, w: u64)
    requires
        sole_write(s.pending, w),
    ensures
        sole_write(s.schedule(hint).pending, w),
{
    lemma_match_upto_shape(s.pending, s.pending.len());
    let matched = SimView { pending: match_phase(s.pending), ..s };
    assert forall|k: int| 0 <= k < s.pending.len() implies writes(
        #[trigger] matched.pending[k],
        w,
    ) == writes(s.pending[k], w) by {
        assert(same_shape(s.pending[k], matched.pending[k]));
    }
    lemma_first_hinted(matched.pending, hint, 0);
    lemma_best_ready(matched.pending, matched.pending.len());
    match chosen(matched.pending, hint) {
        Some(i) => {
            let t = matched.wake(hint);
            assert(t.pending =~= matched.pending.remove(i));
            assert forall|j: int, k: int|
                0 <= j < t.pending.len() && 0 <= k < t.pending.len() && writes(
                    #[trigger] t.pending[j],
                    w,
                ) && writes(#[trigger] t.pending[k], w) implies j == k by {
                let sj = if j < i {
                    j
                } else {
                    j + 1
                };
                let sk = if k < i {
                    k
                } else {
                    k + 1
                };
                assert(t.pending[j] == matched.pending[sj]);
                assert(t.pending[k] == matched.pending[sk]);
                assert(writes(s.pending[sj], w) && writes(s.pending[sk], w));
            }
        },
        None => {},
    }
}

} // verus!
