use vstd::prelude::*;
use crate::utils::{peer_of, Fd, ProcID};

verus! {

/// An operation that a process waits on until a scheduler step retires it.
#[derive(Clone, Debug, PartialEq, Eq)]
pub enum ProcStatus {
    /// The process that was just started.
    WaitSpawn(ProcID),
    /// A read on a read end: the bytes still wanted and the bytes got so far.
    ReadWait(ProcID, Fd, usize, Vec<u8>),
    /// A write on a write end: the bytes not handed over yet.
    WriteWait(ProcID, Fd, Vec<u8>),
    /// A pipe end that is about to be closed.
    CloseWait(ProcID, Fd),
    /// The process whose body has returned.
    Terminated(ProcID),
}

/// The mathematical content of a pending operation.
pub enum PendingOp {
    WaitSpawn { pid: u64 },
    ReadWait { pid: u64, fd: u64, remaining: nat, accumulated: Seq<u8> },
    WriteWait { pid: u64, fd: u64, pending: Seq<u8> },
    CloseWait { pid: u64, fd: u64 },
    Terminated { pid: u64 },
}

impl View for ProcStatus {
    type V = PendingOp;

    open spec fn view(&self) -> PendingOp {
        match *self {
            ProcStatus::WaitSpawn(pid) => PendingOp::WaitSpawn { pid: pid.0 },
            ProcStatus::ReadWait(pid, fd, len, buf) => PendingOp::ReadWait {
                pid: pid.0,
                fd: fd.0,
                remaining: len as nat,
                accumulated: buf@,
            },
            ProcStatus::WriteWait(pid, fd, buf) => PendingOp::WriteWait {
                pid: pid.0,
                fd: fd.0,
                pending: buf@,
            },
            ProcStatus::CloseWait(pid, fd) => PendingOp::CloseWait { pid: pid.0, fd: fd.0 },
            ProcStatus::Terminated(pid) => PendingOp::Terminated { pid: pid.0 },
        }
    }
}

impl PendingOp {
    /// The process that the operation names.
    pub open spec fn pid(self) -> u64 {
        match self {
            PendingOp::WaitSpawn { pid } => pid,
            PendingOp::ReadWait { pid, .. } => pid,
            PendingOp::WriteWait { pid, .. } => pid,
            PendingOp::CloseWait { pid, .. } => pid,
            PendingOp::Terminated { pid } => pid,
        }
    }

    /// Whether the operation can be retired: a read that wants no more
    /// bytes, a write that has handed all its bytes over, and every
    /// operation of the other three kinds.
    pub open spec fn ready(self) -> bool {
        match self {
            PendingOp::ReadWait { remaining, .. } => remaining == 0,
            PendingOp::WriteWait { pending, .. } => pending.len() == 0,
            _ => true,
        }
    }

    /// Whether the operation is a write or a close on the pipe end `fd`.
    pub open spec fn answers(self, fd: u64) -> bool {
        match self {
            PendingOp::WriteWait { fd: wfd, .. } => wfd == fd,
            PendingOp::CloseWait { fd: cfd, .. } => cfd == fd,
            _ => false,
        }
    }

    /// Whether the operation is a read that wants no more bytes, on the
    /// pipe end that `hint` names or on its peer.
    pub open spec fn hinted(self, hint: Option<u64>) -> bool {
        match self {
            PendingOp::ReadWait { fd, remaining, .. } => remaining == 0 && hint is Some && (hint->Some_0
                == fd || hint->Some_0 == peer_of(fd)),
            _ => false,
        }
    }
}

/// The contents of a list of pending operations.
pub open spec fn views(ops: Seq<ProcStatus>) -> Seq<PendingOp> {
    Seq::new(ops.len(), |i: int| ops[i]@)
}

/// The position, at or after `from`, of the first write or close on the
/// pipe end `fd`; the length of the list when there is none.
pub open spec fn first_answer(ops: Seq<PendingOp>, fd: u64, from: nat) -> nat
    decreases ops.len() - from,
{
    if from >= ops.len() {
        ops.len()
    } else if ops[from as int].answers(fd) {
        from
    } else {
        first_answer(ops, fd, from + 1)
    }
}

/// The position, at or after `from`, of the first read that `hint` asks
/// to retire; the length of the list when there is none.
pub open spec fn first_hinted(ops: Seq<PendingOp>, hint: Option<u64>, from: nat) -> nat
    decreases ops.len() - from,
{
    if from >= ops.len() {
        ops.len()
    } else if ops[from as int].hinted(hint) {
        from
    } else {
        first_hinted(ops, hint, from + 1)
    }
}

/// The number of bytes that a read wanting `remaining` bytes takes from a
/// write that still holds `available` bytes.
pub open spec fn copy_len(remaining: nat, available: nat) -> nat {
    if remaining <= available {
        remaining
    } else {
        available
    }
}

/// One step of matching, for the operation at `i`. A read that still wants
/// bytes looks for the earliest write or close on the other end of its
/// pipe. From a write it takes bytes off the head, as many as it wants and
/// the write holds. A close ends it with what it has. Anything else stays
/// as it is.
pub open spec fn match_one(ops: Seq<PendingOp>, i: int) -> Seq<PendingOp>
    recommends
        0 <= i < ops.len(),
{
    match ops[i] {
        PendingOp::ReadWait { pid, fd, remaining, accumulated } => {
            let at = first_answer(ops, peer_of(fd), 0) as int;
            if remaining != 0 && at < ops.len() {
                match ops[at] {
                    PendingOp::WriteWait { pid: wpid, fd: wfd, pending } => {
                        let n = copy_len(remaining, pending.len()) as int;
                        ops.update(
                            at,
                            PendingOp::WriteWait {
                                pid: wpid,
                                fd: wfd,
                                pending: pending.subrange(n, pending.len() as int),
                            },
                        ).update(
                            i,
                            PendingOp::ReadWait {
                                pid,
                                fd,
                                remaining: (remaining - n) as nat,
                                accumulated: accumulated + pending.subrange(0, n),
                            },
                        )
                    },
                    _ => ops.update(
                        i,
                        PendingOp::ReadWait { pid, fd, remaining: 0, accumulated },
                    ),
                }
            } else {
                ops
            }
        },
        _ => ops,
    }
}

/// The list after the matching steps for its first `n` operations.
pub open spec fn match_upto(ops: Seq<PendingOp>, n: nat) -> Seq<PendingOp>
    decreases n,
{
    if n == 0 {
        ops
    } else {
        match_one(match_upto(ops, (n - 1) as nat), n - 1)
    }
}

/// The list after the matching phase: one matching step for each
/// operation, from the oldest to the newest.
pub open spec fn match_phase(ops: Seq<PendingOp>) -> Seq<PendingOp> {
    match_upto(ops, ops.len())
}

/// Among the first `n` operations, the one that is retired when no hint
/// applies: a ready one of the process with the smallest id, and of those
/// the newest.
pub open spec fn best_ready(ops: Seq<PendingOp>, n: nat) -> Option<int>
    decreases n,
{
    if n == 0 {
        None
    } else {
        let before = best_ready(ops, (n - 1) as nat);
        if ops[n - 1].ready() && (before is None || ops[n - 1].pid() <= ops[before->Some_0].pid()) {
            Some(n - 1)
        } else {
            before
        }
    }
}

/// The operation that a wake phase retires, if any: the first read that
/// the hint asks for, else the best ready one.
pub open spec fn chosen(ops: Seq<PendingOp>, hint: Option<u64>) -> Option<int> {
    let h = first_hinted(ops, hint, 0);
    if h < ops.len() {
        Some(h as int)
    } else {
        best_ready(ops, ops.len())
    }
}

/// What `first_answer` finds is the earliest of its kind from `from` on.
pub proof fn lemma_first_answer(ops: Seq<PendingOp>, fd: u64, from: nat)
    requires
        from <= ops.len(),
    ensures
        from <= first_answer(ops, fd, from) <= ops.len(),
        first_answer(ops, fd, from) < ops.len() ==> ops[first_answer(ops, fd, from) as int].answers(
            fd,
        ),
        forall|k: int| from <= k < first_answer(ops, fd, from) ==> !(#[trigger] ops[k]).answers(fd),
    decreases ops.len() - from,
{
    if from < ops.len() && !ops[from as int].answers(fd) {
        lemma_first_answer(ops, fd, from + 1);
    }
}

/// What `first_hinted` finds is the earliest of its kind from `from` on.
pub proof fn lemma_first_hinted(ops: Seq<PendingOp>, hint: Option<u64>, from: nat)
    requires
        from <= ops.len(),
    ensures
        from <= first_hinted(ops, hint, from) <= ops.len(),
        first_hinted(ops, hint, from) < ops.len() ==> ops[first_hinted(
            ops,
            hint,
            from,
        ) as int].hinted(hint),
        forall|k: int|
            from <= k < first_hinted(ops, hint, from) ==> !(#[trigger] ops[k]).hinted(hint),
    decreases ops.len() - from,
{
    if from < ops.len() && !ops[from as int].hinted(hint) {
        lemma_first_hinted(ops, hint, from + 1);
    }
}

/// The best ready operation is ready, no ready operation belongs to a
/// process with a smaller id, and none of the same process is newer. There
/// is one whenever any operation is ready.
pub proof fn lemma_best_ready(ops: Seq<PendingOp>, n: nat)
    requires
        n <= ops.len(),
    ensures
        match best_ready(ops, n) {
            Some(b) => {
                &&& 0 <= b < n
                &&& ops[b].ready()
                &&& forall|k: int|
                    0 <= k < n && (#[trigger] ops[k]).ready() ==> ops[b].pid() < ops[k].pid() || (
                    ops[b].pid() == ops[k].pid() && k <= b)
            },
            None => forall|k: int| 0 <= k < n ==> !(#[trigger] ops[k]).ready(),
        },
    decreases n,
{
    if n > 0 {
        lemma_best_ready(ops, (n - 1) as nat);
    }
}

/// A matching step keeps the length of the list, and of each operation its
/// kind, its process and its pipe end.
pub proof fn lemma_match_one_shape(ops: Seq<PendingOp>, i: int)
    requires
        0 <= i < ops.len(),
    ensures
        match_one(ops, i).len() == ops.len(),
        forall|k: int|
            0 <= k < ops.len() ==> same_shape(ops[k], #[trigger] match_one(ops, i)[k]),
{
    match ops[i] {
        PendingOp::ReadWait { fd, .. } => {
            lemma_first_answer(ops, peer_of(fd), 0);
        },
        _ => {},
    }
}

/// Whether two operations are of one kind and name the same process and
/// the same pipe end.
pub open spec fn same_shape(a: PendingOp, b: PendingOp) -> bool {
    match (a, b) {
        (PendingOp::WaitSpawn { pid: p }, PendingOp::WaitSpawn { pid: q }) => p == q,
        (PendingOp::ReadWait { pid: p, fd: f, .. }, PendingOp::ReadWait { pid: q, fd: g, .. }) => p
            == q && f == g,
        (
            PendingOp::WriteWait { pid: p, fd: f, .. },
            PendingOp::WriteWait { pid: q, fd: g, .. },
        ) => p == q && f == g,
        (PendingOp::CloseWait { pid: p, fd: f }, PendingOp::CloseWait { pid: q, fd: g }) => p == q
            && f == g,
        (PendingOp::Terminated { pid: p }, PendingOp::Terminated { pid: q }) => p == q,
        _ => false,
    }
}

/// The matching phase keeps the length of the list, and of each operation
/// its kind, its process and its pipe end.
pub proof fn lemma_match_upto_shape(ops: Seq<PendingOp>, n: nat)
    requires
        n <= ops.len(),
    ensures
        match_upto(ops, n).len() == ops.len(),
        forall|k: int| 0 <= k < ops.len() ==> same_shape(ops[k], #[trigger] match_upto(ops, n)[k]),
    decreases n,
{
    if n > 0 {
        lemma_match_upto_shape(ops, (n - 1) as nat);
        lemma_match_one_shape(match_upto(ops, (n - 1) as nat), n - 1);
    }
}

impl ProcStatus {
    /// The parts of a pending read; `None` for any other operation.
    pub fn read_wait(&self) -> (parts: Option<(&ProcID, &Fd, &usize, &Vec<u8>)>)
        ensures
            match parts {
                Some((pid, fd, len, buf)) => *self == ProcStatus::ReadWait(*pid, *fd, *len, *buf),
                None => !(self@ is ReadWait),
            },
    {
        if let ProcStatus::ReadWait(pid, fd, len, buf) = self {
            Some((pid, fd, len, buf))
        } else {
            None
        }
    }

    /// The parts of a pending write; `None` for any other operation.
    pub fn write_wait(&self) -> (parts: Option<(&ProcID, &Fd, &Vec<u8>)>)
        ensures
            match parts {
                Some((pid, fd, buf)) => *self == ProcStatus::WriteWait(*pid, *fd, *buf),
                None => !(self@ is WriteWait),
            },
    {
        if let ProcStatus::WriteWait(pid, fd, buf) = self {
            Some((pid, fd, buf))
        } else {
            None
        }
    }

    /// The parts of a pending read, to be changed in place; `None` for any
    /// other operation.
    pub fn read_wait_mut(&mut self) -> (parts: Option<(&ProcID, &mut Fd, &mut usize, &mut Vec<u8>)>)
        ensures
            match parts {
                Some((pid, fd, len, buf)) => {
                    &&& *old(self) == ProcStatus::ReadWait(*pid, *fd, *len, *buf)
                    &&& *final(self) == ProcStatus::ReadWait(*pid, *final(fd), *final(len), *final(buf))
                },
                None => !(old(self)@ is ReadWait) && *final(self) == *old(self),
            },
    {
        if let ProcStatus::ReadWait(pid, fd, len, buf) = self {
            Some((pid, fd, len, buf))
        } else {
            None
        }
    }

    /// The parts of a pending write, to be changed in place; `None` for any
    /// other operation.
    pub fn write_wait_mut(&mut self) -> (parts: Option<(&ProcID, &mut Fd, &mut Vec<u8>)>)
        ensures
            match parts {
                Some((pid, fd, buf)) => {
                    &&& *old(self) == ProcStatus::WriteWait(*pid, *fd, *buf)
                    &&& *final(self) == ProcStatus::WriteWait(*pid, *final(fd), *final(buf))
                },
                None => !(old(self)@ is WriteWait) && *final(self) == *old(self),
            },
    {
        if let ProcStatus::WriteWait(pid, fd, buf) = self {
            Some((pid, fd, buf))
        } else {
            None
        }
    }

    /// The process that the operation names.
    pub fn pid(&self) -> (pid: ProcID)
        ensures
            pid.0 == self@.pid(),
    {
        match self {
            ProcStatus::WaitSpawn(pid) => *pid,
            ProcStatus::ReadWait(pid, _, _, _) => *pid,
            ProcStatus::WriteWait(pid, _, _) => *pid,
            ProcStatus::CloseWait(pid, _) => *pid,
            ProcStatus::Terminated(pid) => *pid,
        }
    }

    /// Whether the operation can be retired.
    pub fn is_ready(&self) -> (ready: bool)
        ensures
            ready == self@.ready(),
    {
        match self {
            ProcStatus::ReadWait(_, _, len, _) => *len == 0,
            ProcStatus::WriteWait(_, _, buf) => buf.len() == 0,
            _ => true,
        }
    }
}

/// Finds the earliest write or close on the pipe end `fd`; the length of
/// the list when there is none.
pub fn find_answer(ops: &Vec<ProcStatus>, fd: Fd) -> (at: usize)
    ensures
        at == first_answer(views(ops@), fd.0, 0),
        at <= ops.len(),
{
    let mut i: usize = 0;
    while i < ops.len()
        invariant
            i <= ops.len(),
            first_answer(views(ops@), fd.0, 0) == first_answer(views(ops@), fd.0, i as nat),
        decreases ops.len() - i,
    {
        let found = match &ops[i] {
            ProcStatus::WriteWait(_, wfd, _) => wfd.0 == fd.0,
            ProcStatus::CloseWait(_, cfd) => cfd.0 == fd.0,
            _ => false,
        };
        assert(found == views(ops@)[i as int].answers(fd.0));
        if found {
            return i;
        }
        i += 1;
    }
    i
}

/// Finds the earliest read that `hint` asks to retire; the length of the
/// list when there is none.
pub fn find_hinted(ops: &Vec<ProcStatus>, hint: Option<Fd>) -> (at: usize)
    ensures
        at == first_hinted(
            views(ops@),
            match hint {
                Some(fd) => Some(fd.0),
                None => None,
            },
            0,
        ),
        at <= ops.len(),
{
    let ghost wanted: Option<u64> = match hint {
        Some(fd) => Some(fd.0),
        None => None,
    };
    let mut i: usize = 0;
    while i < ops.len()
        invariant
            i <= ops.len(),
            wanted == match hint {
                Some(fd) => Some(fd.0),
                None => None::<u64>,
            },
            first_hinted(views(ops@), wanted, 0) == first_hinted(views(ops@), wanted, i as nat),
        decreases ops.len() - i,
    {
        let found = match (&ops[i], hint) {
            (ProcStatus::ReadWait(_, rfd, len, _), Some(fd)) => *len == 0 && (fd.0 == rfd.0 || fd.0
                == rfd.other_fd().0),
            _ => false,
        };
        assert(found == views(ops@)[i as int].hinted(wanted));
        if found {
            return i;
        }
        i += 1;
    }
    i
}

/// Picks the operation to retire when no hint applies.
pub fn pick_ready(ops: &Vec<ProcStatus>) -> (best: Option<usize>)
    ensures
        match best {
            Some(b) => best_ready(views(ops@), ops@.len()) == Some(b as int),
            None => best_ready(views(ops@), ops@.len()) is None,
        },
{
    let mut best: Option<usize> = None;
    let mut best_pid: u64 = 0;
    let mut i: usize = 0;
    while i < ops.len()
        invariant
            i <= ops.len(),
            match best {
                Some(b) => best_ready(views(ops@), i as nat) == Some(b as int) && b < i && best_pid
                    == views(ops@)[b as int].pid(),
                None => best_ready(views(ops@), i as nat) is None,
            },
        decreases ops.len() - i,
    {
        let pid = ops[i].pid().0;
        if ops[i].is_ready() && (best.is_none() || pid <= best_pid) {
            best = Some(i);
            best_pid = pid;
        }
        i += 1;
    }
    best
}

/// Carries out the matching step for the operation at `i`.
pub fn match_at(ops: &mut Vec<ProcStatus>, i: usize)
    requires
        i < old(ops).len(),
    ensures
        views(final(ops)@) == match_one(views(old(ops)@), i as int),
        final(ops).len() == old(ops).len(),
{
    let ghost before = views(ops@);
    let wanted: Option<(Fd, usize)> = match &ops[i] {
        ProcStatus::ReadWait(_, rfd, len, _) => if *len != 0 {
            Some((rfd.other_fd(), *len))
        } else {
            None
        },
        _ => None,
    };
    let (wfd, rlen) = match wanted {
        Some(found) => found,
        None => {
            return ;
        },
    };
    let at = find_answer(ops, wfd);
    if at >= ops.len() {
        return ;
    }
    proof {
        lemma_first_answer(before, wfd.0, 0);
        assert(before[at as int].answers(wfd.0));
        assert(at != i);
    }
    let answer = ops.remove(at);
    let mut moved: Vec<u8> = Vec::new();
    let mut closed = false;
    match answer {
        ProcStatus::WriteWait(wpid, wfd2, mut wbuf) => {
            let n = if rlen <= wbuf.len() {
                rlen
            } else {
                wbuf.len()
            };
            let rest = wbuf.split_off(n);
            moved = wbuf;
            ops.insert(at, ProcStatus::WriteWait(wpid, wfd2, rest));
        },
        other => {
            closed = true;
            ops.insert(at, other);
        },
    }
    let ghost mid = views(ops@);
    let read = ops.remove(i);
    match read {
        ProcStatus::ReadWait(pid, fd, len, mut rbuf) => {
            if closed {
                ops.insert(i, ProcStatus::ReadWait(pid, fd, 0, rbuf));
            } else {
                let n = moved.len();
                rbuf.append(&mut moved);
                ops.insert(i, ProcStatus::ReadWait(pid, fd, len - n, rbuf));
            }
        },
        other => {
            ops.insert(i, other);
        },
    }
    assert(views(ops@) =~= match_one(before, i as int));
}

/// Carries out the matching phase on the whole list.
pub fn match_pending(ops: &mut Vec<ProcStatus>)
    ensures
        views(final(ops)@) == match_phase(views(old(ops)@)),
        final(ops).len() == old(ops).len(),
{
    let ghost before = views(ops@);
    let n = ops.len();
    let mut i: usize = 0;
    while i < n
        invariant
            i <= n,
            ops.len() == n,
            before.len() == n,
            views(ops@) == match_upto(before, i as nat),
        decreases n - i,
    {
        match_at(ops, i);
        i += 1;
    }
}

} // verus!
