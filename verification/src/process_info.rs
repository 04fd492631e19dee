use vstd::prelude::*;
use std::collections::HashMap;
use crate::utils::{lemma_xor_one, peer_of, CurrentIds, Event, Fd, ProcID, SimID};

verus! {

broadcast use vstd::std_specs::hash::group_hash_axioms;

/// What a process keeps of a process that it started: the id of the child,
/// the pipe ends that the child inherited, and its side of the two wake
/// flags of the link between them. The flag that the parent waits on is
/// the flag that the child notifies, and the other way round.
#[derive(Debug, PartialEq, Eq)]
pub struct Child {
    pub id: ProcID,
    pub inherited_fds: Vec<Fd>,
    pub event_wait: Event,
    pub event_notify: Event,
}

/// The mathematical content of a [`Child`].
pub struct ChildView {
    pub id: u64,
    pub inherited_fds: Seq<Fd>,
    pub event_wait: Event,
    pub event_notify: Event,
}

impl ChildView {
    /// The record with one of its two flags set to `value`: the flag to
    /// notify when `notify_side` holds, else the flag to wait on.
    pub open spec fn with_flag(self, notify_side: bool, value: bool) -> Self {
        if notify_side {
            ChildView { event_notify: Event { signaled: value }, ..self }
        } else {
            ChildView { event_wait: Event { signaled: value }, ..self }
        }
    }
}

impl View for Child {
    type V = ChildView;

    open spec fn view(&self) -> ChildView {
        ChildView {
            id: self.id.0,
            inherited_fds: self.inherited_fds@,
            event_wait: self.event_wait,
            event_notify: self.event_notify,
        }
    }
}

/// The contents of a list of children.
pub open spec fn child_views(children: Seq<Child>) -> Seq<ChildView> {
    Seq::new(children.len(), |i: int| children[i]@)
}

/// The position of the first child that inherited the pipe end `fd`; the
/// length of the list when none did.
pub open spec fn child_with_fd(children: Seq<ChildView>, fd: Fd, from: nat) -> nat
    decreases children.len() - from,
{
    if from >= children.len() {
        children.len()
    } else if children[from as int].inherited_fds.contains(fd) {
        from
    } else {
        child_with_fd(children, fd, from + 1)
    }
}

/// The position of the first child with the id `id`; the length of the
/// list when there is none.
pub open spec fn child_with_id(children: Seq<ChildView>, id: u64, from: nat) -> nat
    decreases children.len() - from,
{
    if from >= children.len() {
        children.len()
    } else if children[from as int].id == id {
        from
    } else {
        child_with_id(children, id, from + 1)
    }
}

/// What `child_with_fd` finds lies in the list, from `from` on, or is its
/// length.
pub proof fn lemma_child_with_fd(children: Seq<ChildView>, fd: Fd, from: nat)
    requires
        from <= children.len(),
    ensures
        from <= child_with_fd(children, fd, from) <= children.len(),
    decreases children.len() - from,
{
    if from < children.len() && !children[from as int].inherited_fds.contains(fd) {
        lemma_child_with_fd(children, fd, from + 1);
    }
}

/// What `child_with_id` finds is the first child with the id from `from`
/// on.
pub proof fn lemma_child_with_id(children: Seq<ChildView>, id: u64, from: nat)
    requires
        from <= children.len(),
    ensures
        from <= child_with_id(children, id, from) <= children.len(),
        child_with_id(children, id, from) < children.len() ==> children[child_with_id(
            children,
            id,
            from,
        ) as int].id == id,
        forall|k: int| from <= k < child_with_id(children, id, from) ==> children[k].id != id,
    decreases children.len() - from,
{
    if from < children.len() && children[from as int].id != id {
        lemma_child_with_id(children, id, from + 1);
    }
}

/// Where a child stands depends only on the ids and the inherited pipe
/// ends of the children, not on their flags.
pub proof fn lemma_positions_by_shape(a: Seq<ChildView>, b: Seq<ChildView>, id: u64, fd: Fd, from: nat)
    requires
        a.len() == b.len(),
        forall|k: int|
            0 <= k < a.len() ==> a[k].id == b[k].id && a[k].inherited_fds == b[k].inherited_fds,
    ensures
        child_with_id(a, id, from) == child_with_id(b, id, from),
        child_with_fd(a, fd, from) == child_with_fd(b, fd, from),
    decreases a.len() - from,
{
    if from < a.len() {
        lemma_positions_by_shape(a, b, id, fd, from + 1);
    }
}

/// A new child at the end of the list leaves every child that was found
/// where it was, and is itself found at the end when no child before it has
/// its id.
pub proof fn lemma_child_with_id_push(children: Seq<ChildView>, child: ChildView, id: u64, from: nat)
    requires
        from <= children.len(),
    ensures
        child_with_id(children, id, from) < children.len() ==> child_with_id(
            children.push(child),
            id,
            from,
        ) == child_with_id(children, id, from),
        child_with_id(children, id, from) == children.len() && child.id == id ==> child_with_id(
            children.push(child),
            id,
            from,
        ) == children.len(),
    decreases children.len() - from,
{
    let longer = children.push(child);
    if from < children.len() {
        assert(longer[from as int] == children[from as int]);
        if children[from as int].id != id {
            lemma_child_with_id_push(children, child, id, from + 1);
        }
    } else {
        assert(longer[from as int] == child);
    }
}

/// Whether `fd` is among `fds`.
pub fn holds_fd(fds: &Vec<Fd>, fd: &Fd) -> (found: bool)
    ensures
        found == fds@.contains(*fd),
{
    let mut i: usize = 0;
    while i < fds.len()
        invariant
            i <= fds.len(),
            forall|k: int| 0 <= k < i ==> fds@[k] != *fd,
        decreases fds.len() - i,
    {
        if fds[i].0 == fd.0 {
            return true;
        }
        i += 1;
    }
    false
}

/// A copy of a list of pipe ends.
pub fn copy_of(fds: &[Fd]) -> (out: Vec<Fd>)
    ensures
        out@ == fds@,
{
    let mut out: Vec<Fd> = Vec::new();
    let mut i: usize = 0;
    while i < fds.len()
        invariant
            i <= fds.len(),
            out@ == fds@.subrange(0, i as int),
        decreases fds.len() - i,
    {
        out.push(fds[i]);
        assert(out@ =~= fds@.subrange(0, i + 1));
        i += 1;
    }
    assert(out@ =~= fds@);
    out
}

/// A process with its side of the wake flags that link it with its parent,
/// and what it keeps of the processes that it started, in the order in
/// which it started them.
pub struct Process {
    id: ProcID,
    parent: Option<ProcID>,
    inherited_fds: Vec<Fd>,
    event_wait: Event,
    event_notify: Event,
    children: Vec<Child>,
}

/// The mathematical content of a [`Process`].
pub struct ProcessView {
    pub id: u64,
    pub parent: Option<u64>,
    pub inherited_fds: Seq<Fd>,
    pub event_wait: Event,
    pub event_notify: Event,
    pub children: Seq<ChildView>,
}

impl ProcessView {
    /// Whether the process can tell whose wake flags `fd` selects: no pipe
    /// end does, or one that it inherited, or one whose peer a child of its
    /// inherited.
    pub open spec fn selects(self, fd: Option<Fd>) -> bool {
        match fd {
            None => true,
            Some(f) => self.inherited_fds.contains(f) || child_with_fd(
                self.children,
                Fd(peer_of(f.0)),
                0,
            ) < self.children.len(),
        }
    }

    /// Whether `fd` selects the flags of the process itself.
    pub open spec fn selects_own(self, fd: Option<Fd>) -> bool {
        match fd {
            None => true,
            Some(f) => self.inherited_fds.contains(f),
        }
    }

    /// The child whose flags `fd` selects.
    pub open spec fn selected_child(self, fd: Option<Fd>) -> int
        recommends
            fd is Some,
    {
        child_with_fd(self.children, Fd(peer_of(fd->Some_0.0)), 0) as int
    }

    /// The flag to wait on that `fd` selects.
    pub open spec fn wait(self, fd: Option<Fd>) -> Event {
        if self.selects_own(fd) {
            self.event_wait
        } else {
            self.children[self.selected_child(fd)].event_wait
        }
    }

    /// The flag to wait on for the process `id`: the own one for the
    /// process itself, else the one of its child `id`.
    pub open spec fn wait_by_pid(self, id: u64) -> Event {
        if id == self.id {
            self.event_wait
        } else {
            self.children[child_with_id(self.children, id, 0) as int].event_wait
        }
    }

    /// The process with one of its own two flags set to `value`.
    pub open spec fn with_own(self, notify_side: bool, value: bool) -> Self {
        if notify_side {
            ProcessView { event_notify: Event { signaled: value }, ..self }
        } else {
            ProcessView { event_wait: Event { signaled: value }, ..self }
        }
    }

    /// The process with one of the two flags of its child at `k` set to
    /// `value`.
    pub open spec fn with_child(self, k: int, notify_side: bool, value: bool) -> Self {
        ProcessView {
            children: self.children.update(k, self.children[k].with_flag(notify_side, value)),
            ..self
        }
    }

    /// The process with the flag that `fd` selects set to `value`.
    pub open spec fn with_selected(self, fd: Option<Fd>, notify_side: bool, value: bool) -> Self {
        if self.selects_own(fd) {
            self.with_own(notify_side, value)
        } else {
            self.with_child(self.selected_child(fd), notify_side, value)
        }
    }

    /// The process after the flag to notify that `fd` selects is set.
    pub open spec fn notify(self, fd: Option<Fd>) -> Self {
        self.with_selected(fd, true, true)
    }

    /// The process after it has started the child `id` that inherits `fds`.
    pub open spec fn adopt(self, id: u64, fds: Seq<Fd>) -> Self {
        ProcessView {
            children: self.children.push(
                ChildView {
                    id,
                    inherited_fds: fds,
                    event_wait: Event { signaled: false },
                    event_notify: Event { signaled: false },
                },
            ),
            ..self
        }
    }

    /// A process as it starts.
    pub open spec fn fresh(id: u64, parent: Option<u64>, fds: Seq<Fd>) -> Self {
        ProcessView {
            id,
            parent,
            inherited_fds: fds,
            event_wait: Event { signaled: false },
            event_notify: Event { signaled: false },
            children: Seq::empty(),
        }
    }
}

impl View for Process {
    type V = ProcessView;

    closed spec fn view(&self) -> ProcessView {
        ProcessView {
            id: self.id.0,
            parent: match self.parent {
                Some(p) => Some(p.0),
                None => None,
            },
            inherited_fds: self.inherited_fds@,
            event_wait: self.event_wait,
            event_notify: self.event_notify,
            children: child_views(self.children@),
        }
    }
}

impl Default for Process {
    fn default() -> (process: Self)
        ensures
            process@ == ProcessView::fresh(0, None, Seq::empty()),
    {
        let process = Process {
            id: ProcID(0),
            parent: None,
            inherited_fds: Vec::new(),
            event_wait: Event { signaled: false },
            event_notify: Event { signaled: false },
            children: Vec::new(),
        };
        assert(process@.children =~= Seq::<ChildView>::empty());
        process
    }
}

/// The pipe end that a reference names, if any.
pub open spec fn named(fd: Option<&Fd>) -> Option<Fd> {
    match fd {
        Some(f) => Some(*f),
        None => None,
    }
}

impl Process {
    /// Makes the thread act as the process `id`.
    pub fn set_ctx_id(ids: &mut CurrentIds, id: ProcID)
        ensures
            final(ids).proc_id == id,
            final(ids).sim_id == old(ids).sim_id,
    {
        ids.proc_id = id;
    }

    /// The process that the thread is acting as.
    pub fn ctx_id(ids: &CurrentIds) -> (id: ProcID)
        ensures
            id == ids.proc_id,
    {
        ids.proc_id
    }

    /// The pipe ends that the process inherited.
    pub fn inherited_fds(&self) -> (fds: Vec<Fd>)
        ensures
            fds@ == self@.inherited_fds,
    {
        copy_of(self.inherited_fds.as_slice())
    }

    /// The first child that inherited the pipe end `fd`.
    pub fn get_child_by_fd(&self, fd: &Fd) -> (child: Option<&Child>)
        ensures
            match child {
                Some(c) => child_with_fd(self@.children, *fd, 0) < self@.children.len()
                    && c@ == self@.children[child_with_fd(self@.children, *fd, 0) as int],
                None => child_with_fd(self@.children, *fd, 0) == self@.children.len(),
            },
    {
        let at = self.position_by_fd(fd);
        if at < self.children.len() {
            Some(&self.children[at])
        } else {
            None
        }
    }

    /// The first child with the id `id`.
    pub fn get_child_by_id(&self, id: &ProcID) -> (child: Option<&Child>)
        ensures
            match child {
                Some(c) => child_with_id(self@.children, id.0, 0) < self@.children.len() && c@
                    == self@.children[child_with_id(self@.children, id.0, 0) as int],
                None => child_with_id(self@.children, id.0, 0) == self@.children.len(),
            },
    {
        let at = self.position_by_id(id);
        if at < self.children.len() {
            Some(&self.children[at])
        } else {
            None
        }
    }

    /// Where the first child that inherited `fd` stands; the number of
    /// children when none did.
    fn position_by_fd(&self, fd: &Fd) -> (at: usize)
        ensures
            at == child_with_fd(self@.children, *fd, 0),
            at <= self@.children.len(),
            at <= self.children@.len(),
    {
        let mut i: usize = 0;
        while i < self.children.len()
            invariant
                i <= self.children.len(),
                child_with_fd(self@.children, *fd, 0) == child_with_fd(
                    self@.children,
                    *fd,
                    i as nat,
                ),
            decreases self.children.len() - i,
        {
            if holds_fd(&self.children[i].inherited_fds, fd) {
                return i;
            }
            i += 1;
        }
        i
    }

    /// Where the first child with the id `id` stands; the number of
    /// children when there is none.
    fn position_by_id(&self, id: &ProcID) -> (at: usize)
        ensures
            at == child_with_id(self@.children, id.0, 0),
            at <= self@.children.len(),
            at <= self.children@.len(),
    {
        let mut i: usize = 0;
        while i < self.children.len()
            invariant
                i <= self.children.len(),
                child_with_id(self@.children, id.0, 0) == child_with_id(
                    self@.children,
                    id.0,
                    i as nat,
                ),
            decreases self.children.len() - i,
        {
            if self.children[i].id.0 == id.0 {
                return i;
            }
            i += 1;
        }
        i
    }

    /// Whose flags `fd` selects: `None` for the own ones, else the place of
    /// the child.
    fn selected(&self, fd: Option<&Fd>) -> (place: Option<usize>)
        requires
            self@.selects(named(fd)),
        ensures
            place is None == self@.selects_own(named(fd)),
            place is Some ==> place->Some_0 == self@.selected_child(named(fd)) && place->Some_0
                < self@.children.len() && place->Some_0 < self.children@.len(),
    {
        match fd {
            None => None,
            Some(f) => {
                if holds_fd(&self.inherited_fds, f) {
                    None
                } else {
                    Some(self.position_by_fd(&f.other_fd()))
                }
            },
        }
    }

    /// Sets one of the own two flags.
    fn set_own(&mut self, notify_side: bool, value: bool)
        ensures
            final(self)@ == old(self)@.with_own(notify_side, value),
    {
        if notify_side {
            self.event_notify = Event { signaled: value };
        } else {
            self.event_wait = Event { signaled: value };
        }
    }

    /// Sets one of the two flags of the child at `k`.
    fn set_child(&mut self, k: usize, notify_side: bool, value: bool)
        requires
            k < old(self)@.children.len(),
        ensures
            final(self)@ == old(self)@.with_child(k as int, notify_side, value),
    {
        let ghost before = self@;
        let child = self.children.remove(k);
        let Child { id, inherited_fds, event_wait, event_notify } = child;
        let changed = if notify_side {
            Child { id, inherited_fds, event_wait, event_notify: Event { signaled: value } }
        } else {
            Child { id, inherited_fds, event_wait: Event { signaled: value }, event_notify }
        };
        self.children.insert(k, changed);
        assert(self@.children =~= before.with_child(k as int, notify_side, value).children);
    }

    /// A reading of the flag to wait on for `fd`: the own one when `fd` is
    /// none or inherited, else the one of the child that inherited the peer
    /// of `fd`. The flag itself stays with the process.
    pub fn wait(&self, fd: Option<&Fd>) -> (event: Event)
        requires
            self@.selects(named(fd)),
        ensures
            event == self@.wait(named(fd)),
    {
        match self.selected(fd) {
            None => Event { signaled: self.event_wait.signaled },
            Some(k) => Event { signaled: self.children[k].event_wait.signaled },
        }
    }

    /// Sets the flag to notify for `fd`: the own one when `fd` is none or
    /// inherited, else the one of the child that inherited the peer of
    /// `fd`. For a process that a context holds, the context sets the flag
    /// and with it the other side of the link.
    pub fn notify(&mut self, fd: Option<&Fd>)
        requires
            old(self)@.selects(named(fd)),
        ensures
            final(self)@ == old(self)@.notify(named(fd)),
    {
        match self.selected(fd) {
            None => self.set_own(true, true),
            Some(k) => self.set_child(k, true, true),
        }
    }

    /// A reading of the flag to wait on for the process `id`: the own one
    /// for the process itself, else the one of its child `id`.
    pub fn wait_by_pid(&self, id: &ProcID) -> (event: Event)
        requires
            id.0 == self@.id || child_with_id(self@.children, id.0, 0) < self@.children.len(),
        ensures
            event == self@.wait_by_pid(id.0),
    {
        if id.0 == self.id.0 {
            Event { signaled: self.event_wait.signaled }
        } else {
            let at = self.position_by_id(id);
            Event { signaled: self.children[at].event_wait.signaled }
        }
    }
}

/// The mathematical content of a [`TxContext`]: the two counters, the
/// processes, the owner of every open pipe end, and for every read end the
/// bytes that were written to its pipe and not read yet.
pub struct TxView {
    pub fds_count: u64,
    pub proc_id_count: u64,
    pub proc_info: Map<u64, ProcessView>,
    pub fds: Map<u64, u64>,
    pub bufs: Map<u64, Seq<u8>>,
}

impl TxView {
    /// A context as it starts.
    pub open spec fn initial() -> Self {
        TxView {
            fds_count: 2,
            proc_id_count: 1,
            proc_info: Map::empty().insert(0, ProcessView::fresh(0, None, Seq::empty())),
            fds: Map::empty(),
            bufs: Map::empty(),
        }
    }

    /// Whether the record that `p` keeps of its child at `k` and the child
    /// itself are the two sides of one link: the child is a process of the
    /// context with `p` as its parent, it is kept at `k` and nowhere before,
    /// the flag that the child waits on is the flag that `p` notifies, and
    /// the flag that the child notifies is the flag that `p` waits on.
    pub open spec fn linked(self, p: u64, k: int) -> bool {
        let kept = self.proc_info[p].children[k];
        &&& self.proc_info.contains_key(kept.id)
        &&& kept.id != p
        &&& self.proc_info[kept.id].parent == Some(p)
        &&& child_with_id(self.proc_info[p].children, kept.id, 0) == k
        &&& self.proc_info[kept.id].event_wait == kept.event_notify
        &&& self.proc_info[kept.id].event_notify == kept.event_wait
    }

    /// Whether the process `c` is kept by its parent, if it has one.
    pub open spec fn kept(self, c: u64) -> bool {
        match self.proc_info[c].parent {
            Some(q) => self.proc_info.contains_key(q) && child_with_id(
                self.proc_info[q].children,
                c,
                0,
            ) < self.proc_info[q].children.len(),
            None => true,
        }
    }

    /// What holds of every context: the next pipe end is even and every
    /// open pipe end lies below it, every process has its id and an id
    /// below the counter, and every parent and child are linked, with one
    /// pair of flags between them.
    pub open spec fn wf(self) -> bool {
        &&& self.fds_count >= 2
        &&& self.fds_count % 2 == 0
        &&& forall|f: u64| #[trigger] self.fds.contains_key(f) ==> f < self.fds_count
        &&& self.fds.dom().finite()
        &&& forall|p: u64|
            #[trigger] self.proc_info.contains_key(p) ==> p < self.proc_id_count
                && self.proc_info[p].id == p && self.kept(p)
        &&& forall|p: u64, k: int|
            self.proc_info.contains_key(p) && 0 <= k < self.proc_info[p].children.len()
                ==> #[trigger] self.linked(p, k)
    }

    /// Whether the pipe end `fd` is open and owned by `pid`.
    pub open spec fn has_fd(self, pid: u64, fd: u64) -> bool {
        self.fds.contains_key(fd) && self.fds[fd] == pid
    }

    /// The context after `pid` has made a pipe.
    pub open spec fn new_pipe(self, pid: u64) -> Self {
        TxView {
            fds_count: (self.fds_count + 2) as u64,
            fds: self.fds.insert(self.fds_count, pid).insert((self.fds_count + 1) as u64, pid),
            ..self
        }
    }

    /// The context after a process was started that inherits `fds`, for
    /// `parent` if one is named.
    pub open spec fn new_process(self, parent: Option<u64>, fds: Seq<Fd>) -> Self {
        let id = self.proc_id_count;
        let known = match parent {
            Some(p) => self.proc_info.insert(p, self.proc_info[p].adopt(id, fds)),
            None => self.proc_info,
        };
        TxView {
            proc_id_count: (id + 1) as u64,
            proc_info: known.insert(id, ProcessView::fresh(id, parent, fds)),
            ..self
        }
    }

    /// The context after the flag that `fd` selects for the process `id`
    /// is set to `value`, on both sides of the link that it belongs to: an
    /// own flag of `id` is the opposite flag in the record that the parent
    /// of `id` keeps, and a flag in the record of a child is the opposite
    /// own flag of that child.
    pub open spec fn set_flag(self, id: u64, fd: Option<Fd>, notify_side: bool, value: bool) -> Self {
        let me = self.proc_info[id];
        let first = self.proc_info.insert(id, me.with_selected(fd, notify_side, value));
        if me.selects_own(fd) {
            match me.parent {
                Some(q) => TxView {
                    proc_info: first.insert(
                        q,
                        first[q].with_child(
                            child_with_id(first[q].children, id, 0) as int,
                            !notify_side,
                            value,
                        ),
                    ),
                    ..self
                },
                None => TxView { proc_info: first, ..self },
            }
        } else {
            let c = me.children[me.selected_child(fd)].id;
            TxView { proc_info: first.insert(c, first[c].with_own(!notify_side, value)), ..self }
        }
    }

    /// The context after the process `id` has notified on the link that
    /// `fd` selects.
    pub open spec fn notify(self, id: u64, fd: Option<Fd>) -> Self {
        self.set_flag(id, fd, true, true)
    }

    /// The context after the process `id` has consumed the flag to wait on
    /// of the link that `fd` selects.
    pub open spec fn wait(self, id: u64, fd: Option<Fd>) -> Self {
        self.set_flag(id, fd, false, false)
    }

    /// The bytes that wait at the read end `fd`.
    pub open spec fn waiting(self, fd: u64) -> Seq<u8> {
        if self.bufs.contains_key(fd) {
            self.bufs[fd]
        } else {
            Seq::empty()
        }
    }

    /// What a read of up to `len` bytes from `fd` takes.
    pub open spec fn read(self, fd: u64, len: nat) -> Seq<u8> {
        if len >= self.waiting(fd).len() {
            self.waiting(fd)
        } else {
            self.waiting(fd).subrange(0, len as int)
        }
    }

    /// The context after a read of up to `len` bytes from `fd`.
    pub open spec fn read_data(self, fd: u64, len: nat) -> Self {
        if !self.bufs.contains_key(fd) {
            self
        } else if len >= self.bufs[fd].len() {
            TxView { bufs: self.bufs.remove(fd), ..self }
        } else {
            TxView {
                bufs: self.bufs.insert(fd, self.bufs[fd].subrange(len as int, self.bufs[fd].len() as int)),
                ..self
            }
        }
    }

    /// The context after `buf` was written to the write end `fd`: the bytes
    /// wait at the other end of the pipe, behind those that wait there.
    pub open spec fn write_data(self, fd: u64, buf: Seq<u8>) -> Self {
        TxView { bufs: self.bufs.insert(peer_of(fd), self.waiting(peer_of(fd)) + buf), ..self }
    }
}

/// Setting a flag through the context keeps the context well formed: both
/// sides of the link change together.
pub proof fn lemma_set_flag_wf(s: TxView, id: u64, fd: Option<Fd>, notify_side: bool, value: bool)
    requires
        s.wf(),
        s.proc_info.contains_key(id),
        s.proc_info[id].selects(fd),
    ensures
        s.set_flag(id, fd, notify_side, value).wf(),
        s.set_flag(id, fd, notify_side, value).proc_info.dom() == s.proc_info.dom(),
{
    let t = s.set_flag(id, fd, notify_side, value);
    let me = s.proc_info[id];
    assert(s.kept(id));
    if me.selects_own(fd) {
        match me.parent {
            Some(q) => {
                let i = child_with_id(s.proc_info[q].children, id, 0) as int;
                lemma_child_with_id(s.proc_info[q].children, id, 0);
                assert(s.linked(q, i));
                assert(q != id);
                assert(t.proc_info.dom() =~= s.proc_info.dom());
                assert forall|p: u64| #[trigger] t.proc_info.contains_key(p) implies p
                    < t.proc_id_count && t.proc_info[p].id == p && t.kept(p) by {
                    assert(s.proc_info.contains_key(p));
                    assert(s.kept(p));
                    match s.proc_info[p].parent {
                        Some(pp) => {
                            lemma_positions_by_shape(
                                s.proc_info[pp].children,
                                t.proc_info[pp].children,
                                p,
                                Fd(0),
                                0,
                            );
                        },
                        None => {},
                    }
                }
                assert forall|p: u64, k: int|
                    t.proc_info.contains_key(p) && 0 <= k < t.proc_info[p].children.len()
                    implies #[trigger] t.linked(p, k) by {
                    assert(s.linked(p, k));
                    let c = s.proc_info[p].children[k].id;
                    lemma_positions_by_shape(
                        s.proc_info[p].children,
                        t.proc_info[p].children,
                        c,
                        Fd(0),
                        0,
                    );
                    if c == id {
                        assert(p == q && k == i);
                    }
                }
            },
            None => {
                assert(t.proc_info.dom() =~= s.proc_info.dom());
                assert forall|p: u64| #[trigger] t.proc_info.contains_key(p) implies p
                    < t.proc_id_count && t.proc_info[p].id == p && t.kept(p) by {
                    assert(s.proc_info.contains_key(p));
                    assert(s.kept(p));
                }
                assert forall|p: u64, k: int|
                    t.proc_info.contains_key(p) && 0 <= k < t.proc_info[p].children.len()
                    implies #[trigger] t.linked(p, k) by {
                    assert(s.linked(p, k));
                    let c = s.proc_info[p].children[k].id;
                    if c == id {
                        assert(s.proc_info[id].parent == Some(p));
                    }
                }
            },
        }
    } else {
        let i = me.selected_child(fd);
        lemma_child_with_fd(me.children, Fd(peer_of(fd->Some_0.0)), 0);
        assert(s.linked(id, i));
        let c = me.children[i].id;
        assert(c != id);
        assert(t.proc_info.dom() =~= s.proc_info.dom());
        assert forall|p: u64| #[trigger] t.proc_info.contains_key(p) implies p < t.proc_id_count
            && t.proc_info[p].id == p && t.kept(p) by {
            assert(s.proc_info.contains_key(p));
            assert(s.kept(p));
            match s.proc_info[p].parent {
                Some(pp) => {
                    lemma_positions_by_shape(
                        s.proc_info[pp].children,
                        t.proc_info[pp].children,
                        p,
                        Fd(0),
                        0,
                    );
                },
                None => {},
            }
        }
        assert forall|p: u64, k: int|
            t.proc_info.contains_key(p) && 0 <= k < t.proc_info[p].children.len()
            implies #[trigger] t.linked(p, k) by {
            assert(s.linked(p, k));
            let kid = s.proc_info[p].children[k].id;
            lemma_positions_by_shape(
                s.proc_info[p].children,
                t.proc_info[p].children,
                kid,
                Fd(0),
                0,
            );
            if kid == c {
                assert(p == id && k == i);
            }
        }
    }
}

/// The two flags between a parent and a child are one pair, seen from both
/// sides. When the child notifies, the flag that its parent waits on for
/// it is set, and the parent's own flag to wait on stays as it was. When
/// the parent notifies on a pipe end whose peer the child inherited, the
/// flag that the child waits on is set. Consuming a flag clears it on both
/// sides.
pub proof fn lemma_link(s: TxView, q: u64, k: int)
    requires
        s.wf(),
        s.proc_info.contains_key(q),
        0 <= k < s.proc_info[q].children.len(),
    ensures
        s.notify(s.proc_info[q].children[k].id, None).proc_info[q].wait_by_pid(
            s.proc_info[q].children[k].id,
        ).signaled,
        s.notify(s.proc_info[q].children[k].id, None).proc_info[q].event_wait
            == s.proc_info[q].event_wait,
        s.wait(s.proc_info[q].children[k].id, None).proc_info[q].children[k].event_notify
            == (Event { signaled: false }),
        s.wait(s.proc_info[q].children[k].id, None).proc_info[s.proc_info[q].children[k].id].event_wait
            == (Event { signaled: false }),
        forall|fd: Fd|
            !s.proc_info[q].inherited_fds.contains(fd) && child_with_fd(
                s.proc_info[q].children,
                Fd(peer_of(fd.0)),
                0,
            ) == k ==> {
                &&& (#[trigger] s.notify(q, Some(fd))).proc_info[s.proc_info[q].children[k].id].wait(
                    None,
                ).signaled
                &&& s.notify(q, Some(fd)).proc_info[q].children[k].event_notify.signaled
                &&& s.wait(q, Some(fd)).proc_info[q].wait(Some(fd)) == (Event { signaled: false })
                &&& s.wait(q, Some(fd)).proc_info[s.proc_info[q].children[k].id].event_notify == (
                Event { signaled: false })
            },
{
    assert(s.linked(q, k));
    let c = s.proc_info[q].children[k].id;
    assert(s.kept(c));
    assert(s.proc_info[q].id == q);
    lemma_positions_by_shape(
        s.proc_info[q].children,
        s.proc_info[q].children.update(k, s.proc_info[q].children[k].with_flag(false, true)),
        c,
        Fd(0),
        0,
    );
    assert forall|fd: Fd|
        !s.proc_info[q].inherited_fds.contains(fd) && child_with_fd(
            s.proc_info[q].children,
            Fd(peer_of(fd.0)),
            0,
        ) == k implies {
        &&& (#[trigger] s.notify(q, Some(fd))).proc_info[c].wait(None).signaled
        &&& s.notify(q, Some(fd)).proc_info[q].children[k].event_notify.signaled
        &&& s.wait(q, Some(fd)).proc_info[q].wait(Some(fd)) == (Event { signaled: false })
        &&& s.wait(q, Some(fd)).proc_info[c].event_notify == (Event { signaled: false })
    } by {
        let me = s.proc_info[q];
        assert(!me.selects_own(Some(fd)));
        assert(me.selected_child(Some(fd)) == k);
        let cleared = me.with_child(k, false, false);
        lemma_positions_by_shape(me.children, cleared.children, 0, Fd(peer_of(fd.0)), 0);
        assert(s.wait(q, Some(fd)).proc_info[q] == cleared);
        assert(cleared.selected_child(Some(fd)) == k);
    }
}

/// The contents of a table of processes.
pub open spec fn process_views(table: Map<u64, Process>) -> Map<u64, ProcessView> {
    Map::new(|p: u64| table.contains_key(p), |p: u64| table[p]@)
}

/// The contents of a table of waiting bytes.
pub open spec fn buffer_views(table: Map<u64, Vec<u8>>) -> Map<u64, Seq<u8>> {
    Map::new(|f: u64| table.contains_key(f), |f: u64| table[f]@)
}

/// The processes and pipes of one transaction, with pipes that hold the
/// bytes written to them until they are read.
pub struct TxContext {
    fds_count: u64,
    proc_id_count: ProcID,
    proc_info: HashMap<u64, Process>,
    fds: HashMap<u64, u64>,
    bufs: HashMap<u64, Vec<u8>>,
}

impl View for TxContext {
    type V = TxView;

    closed spec fn view(&self) -> TxView {
        TxView {
            fds_count: self.fds_count,
            proc_id_count: self.proc_id_count.0,
            proc_info: process_views(self.proc_info@),
            fds: self.fds@,
            bufs: buffer_views(self.bufs@),
        }
    }
}

impl Default for TxContext {
    fn default() -> (ctx: Self)
        ensures
            ctx@ == TxView::initial(),
            ctx@.wf(),
    {
        let mut proc_info: HashMap<u64, Process> = HashMap::new();
        proc_info.insert(0, Process::default());
        let ctx = TxContext {
            fds_count: 2,
            proc_id_count: ProcID(1),
            proc_info,
            fds: HashMap::new(),
            bufs: HashMap::new(),
        };
        assert(ctx@.proc_info =~= TxView::initial().proc_info);
        assert(ctx@.bufs =~= TxView::initial().bufs);
        assert(ctx@.fds =~= TxView::initial().fds);
        ctx
    }
}

impl TxContext {
    /// Makes the thread act in the transaction `id`.
    pub fn set_ctx_id(ids: &mut CurrentIds, id: SimID)
        ensures
            final(ids).sim_id == id,
            final(ids).proc_id == old(ids).proc_id,
    {
        ids.sim_id = id;
    }

    /// The transaction that the thread is acting in.
    pub fn ctx_id(ids: &CurrentIds) -> (id: SimID)
        ensures
            id == ids.sim_id,
    {
        ids.sim_id
    }

    /// Starts a process that inherits `fds` and returns its id. A process
    /// with a parent inherits at least one pipe end, one without inherits
    /// none. The parent keeps a record of the child, and the two are linked
    /// by one pair of flags, both clear.
    pub fn new_process(&mut self, parent_id: Option<ProcID>, fds: &[Fd]) -> (id: ProcID)
        requires
            parent_id is None == (fds@.len() == 0),
            parent_id is Some ==> old(self)@.proc_info.contains_key(parent_id->Some_0.0),
            old(self)@.proc_id_count < u64::MAX,
        ensures
            id.0 == old(self)@.proc_id_count,
            final(self)@ == old(self)@.new_process(
                match parent_id {
                    Some(p) => Some(p.0),
                    None => None,
                },
                fds@,
            ),
            old(self)@.wf() ==> final(self)@.wf(),
            old(self)@.wf() && parent_id is Some ==> {
                &&& child_with_id(
                    final(self)@.proc_info[parent_id->Some_0.0].children,
                    id.0,
                    0,
                ) == old(self)@.proc_info[parent_id->Some_0.0].children.len()
                &&& final(self)@.linked(
                    parent_id->Some_0.0,
                    old(self)@.proc_info[parent_id->Some_0.0].children.len() as int,
                )
            },
    {
        let ghost before = self@;
        let ghost parent: Option<u64> = match parent_id {
            Some(p) => Some(p.0),
            None => None,
        };
        let id = self.proc_id_count.next();
        if let Some(parent) = parent_id {
            let mut p = self.proc_info.remove(&parent.0).unwrap();
            let ghost was = p@;
            p.children.push(
                Child {
                    id,
                    inherited_fds: copy_of(fds),
                    event_wait: Event { signaled: false },
                    event_notify: Event { signaled: false },
                },
            );
            assert(p@.children =~= was.adopt(id.0, fds@).children);
            self.proc_info.insert(parent.0, p);
        }
        let p = Process {
            id,
            parent: parent_id,
            inherited_fds: copy_of(fds),
            event_notify: Event { signaled: false },
            event_wait: Event { signaled: false },
            children: Vec::new(),
        };
        assert(p@.children =~= Seq::<ChildView>::empty());
        self.proc_info.insert(id.0, p);
        assert(self@.proc_info =~= before.new_process(parent, fds@).proc_info);
        proof {
            if before.wf() {
                lemma_new_process_wf(before, parent, fds@);
            }
        }
        id
    }

    /// The process `id`.
    pub fn process(&self, id: &ProcID) -> (process: &Process)
        requires
            self@.proc_info.contains_key(id.0),
        ensures
            process@ == self@.proc_info[id.0],
    {
        self.proc_info.get(&id.0).unwrap()
    }

    /// Sets the flag that `fd` selects for the process `id`, on both sides
    /// of the link that the flag belongs to.
    fn set_flag(&mut self, id: &ProcID, fd: Option<&Fd>, notify_side: bool, value: bool)
        requires
            old(self)@.wf(),
            old(self)@.proc_info.contains_key(id.0),
            old(self)@.proc_info[id.0].selects(named(fd)),
        ensures
            final(self)@.wf(),
            final(self)@ == old(self)@.set_flag(id.0, named(fd), notify_side, value),
    {
        let ghost before = self@;
        proof {
            lemma_set_flag_wf(before, id.0, named(fd), notify_side, value);
            assert(before.kept(id.0));
        }
        let mut me = self.proc_info.remove(&id.0).unwrap();
        match me.selected(fd) {
            None => {
                me.set_own(notify_side, value);
                let parent = me.parent;
                self.proc_info.insert(id.0, me);
                if let Some(q) = parent {
                    proof {
                        lemma_child_with_id(before.proc_info[q.0].children, id.0, 0);
                        assert(before.linked(
                            q.0,
                            child_with_id(before.proc_info[q.0].children, id.0, 0) as int,
                        ));
                    }
                    let mut keeper = self.proc_info.remove(&q.0).unwrap();
                    let at = keeper.position_by_id(id);
                    keeper.set_child(at, !notify_side, value);
                    self.proc_info.insert(q.0, keeper);
                }
                assert(self@.proc_info =~= before.set_flag(
                    id.0,
                    named(fd),
                    notify_side,
                    value,
                ).proc_info);
            },
            Some(k) => {
                proof {
                    assert(before.linked(id.0, k as int));
                }
                let c = me.children[k].id;
                me.set_child(k, notify_side, value);
                self.proc_info.insert(id.0, me);
                let mut kid = self.proc_info.remove(&c.0).unwrap();
                kid.set_own(!notify_side, value);
                self.proc_info.insert(c.0, kid);
                assert(self@.proc_info =~= before.set_flag(
                    id.0,
                    named(fd),
                    notify_side,
                    value,
                ).proc_info);
            },
        }
    }

    /// The process `id` notifies on the link that `fd` selects: the link
    /// with its parent when `fd` is none or inherited, else the link with
    /// the child that inherited the peer of `fd`. The flag is set on both
    /// sides of the link, so that the process at the other side finds it
    /// set when it waits.
    pub fn notify(&mut self, id: &ProcID, fd: Option<&Fd>)
        requires
            old(self)@.wf(),
            old(self)@.proc_info.contains_key(id.0),
            old(self)@.proc_info[id.0].selects(named(fd)),
        ensures
            final(self)@.wf(),
            final(self)@ == old(self)@.notify(id.0, named(fd)),
    {
        self.set_flag(id, fd, true, true);
    }

    /// The process `id` consumes the flag to wait on of the link that `fd`
    /// selects: `true`, and the flag is cleared on both sides of the link,
    /// when it was set; `false` when the process has to keep waiting.
    pub fn wait(&mut self, id: &ProcID, fd: Option<&Fd>) -> (woken: bool)
        requires
            old(self)@.wf(),
            old(self)@.proc_info.contains_key(id.0),
            old(self)@.proc_info[id.0].selects(named(fd)),
        ensures
            final(self)@.wf(),
            woken == old(self)@.proc_info[id.0].wait(named(fd)).signaled,
            final(self)@ == old(self)@.wait(id.0, named(fd)),
    {
        let woken = self.process(id).wait(fd).signaled;
        self.set_flag(id, fd, false, false);
        woken
    }

    /// Makes a pipe for `pid` and returns its read end and its write end.
    /// In a well-formed context the read end is even, the write end is the
    /// read end with the lowest bit set, both are new, above every pipe end
    /// made before, and owned by `pid`, and every other pipe end keeps its
    /// owner.
    pub fn new_pipe(&mut self, pid: ProcID) -> (ends: (Fd, Fd))
        requires
            old(self)@.fds_count + 2 <= u64::MAX,
        ensures
            final(self)@ == old(self)@.new_pipe(pid.0),
            ends.0.0 == old(self)@.fds_count,
            ends.1.0 == old(self)@.fds_count + 1,
            old(self)@.wf() ==> {
                &&& final(self)@.wf()
                &&& ends.0.0 % 2 == 0
                &&& ends.1.0 == ends.0.0 | 1
                &&& !old(self)@.fds.contains_key(ends.0.0)
                &&& !old(self)@.fds.contains_key(ends.1.0)
                &&& final(self)@.has_fd(pid.0, ends.0.0)
                &&& final(self)@.has_fd(pid.0, ends.1.0)
                &&& final(self)@.fds.len() == old(self)@.fds.len() + 2
                &&& forall|f: u64|
                    old(self)@.fds.contains_key(f) ==> final(self)@.fds.contains_key(f)
                        && final(self)@.fds[f] == old(self)@.fds[f] && f < ends.0.0
            },
    {
        let ghost before = self@;
        let fds = Fd::create(self.fds_count);
        self.fds.insert(fds.0.0, pid.0);
        self.fds.insert(fds.1.0, pid.0);
        self.fds_count = fds.2;
        proof {
            assert(self@.fds =~= before.new_pipe(pid.0).fds);
            if before.wf() {
                lemma_xor_one(before.fds_count);
                vstd::std_specs::hash::axiom_hashmap_view_finite_dom(self.fds);
                let read_end = before.fds_count;
                let write_end = (before.fds_count + 1) as u64;
                if before.fds.contains_key(read_end) {
                    assert(read_end < before.fds_count);
                }
                if before.fds.contains_key(write_end) {
                    assert(write_end < before.fds_count);
                }
                assert(before.fds.insert(read_end, pid.0).dom() =~= before.fds.dom().insert(
                    read_end,
                ));
                assert(self@.fds.dom() =~= before.fds.dom().insert(read_end).insert(write_end));
                assert forall|p: u64, k: int|
                    self@.proc_info.contains_key(p) && 0 <= k < self@.proc_info[p].children.len()
                    implies #[trigger] self@.linked(p, k) by {
                    assert(before.linked(p, k));
                }
                assert forall|p: u64| #[trigger] self@.proc_info.contains_key(p) implies p
                    < self@.proc_id_count && self@.proc_info[p].id == p && self@.kept(p) by {
                    assert(before.kept(p));
                }
            }
        }
        (fds.0, fds.1)
    }

    /// Closes the pipe end `fd` for `pid`; `false`, and nothing changes,
    /// when `pid` does not own it.
    pub fn close_pipe(&mut self, pid: ProcID, fd: Fd) -> (closed: bool)
        ensures
            closed == old(self)@.has_fd(pid.0, fd.0),
            final(self)@ == (if closed {
                TxView { fds: old(self)@.fds.remove(fd.0), ..old(self)@ }
            } else {
                old(self)@
            }),
            old(self)@.wf() ==> final(self)@.wf(),
            old(self)@.wf() && closed ==> final(self)@.fds.len() == old(self)@.fds.len() - 1,
    {
        let ghost before = self@;
        if !self.has_fd(pid, &fd) {
            false
        } else {
            let closed = self.fds.remove(&fd.0).is_some();
            proof {
                if before.wf() {
                    vstd::std_specs::hash::axiom_hashmap_view_finite_dom(self.fds);
                    assert(self@.fds.dom() =~= before.fds.dom().remove(fd.0));
                    assert forall|p: u64, k: int|
                        self@.proc_info.contains_key(p) && 0 <= k
                            < self@.proc_info[p].children.len() implies #[trigger] self@.linked(
                        p,
                        k,
                    ) by {
                        assert(before.linked(p, k));
                    }
                    assert forall|p: u64| #[trigger] self@.proc_info.contains_key(p) implies p
                        < self@.proc_id_count && self@.proc_info[p].id == p && self@.kept(p) by {
                        assert(before.kept(p));
                    }
                }
            }
            closed
        }
    }

    /// The number of open pipe ends.
    pub fn len_pipe(&self) -> (count: usize)
        ensures
            count == self@.fds.len(),
    {
        self.fds.len()
    }

    /// Passes the pipe end `fd` to `pid`.
    pub fn move_pipe(&mut self, fd: &Fd, pid: ProcID)
        requires
            old(self)@.fds.contains_key(fd.0),
        ensures
            final(self)@ == (TxView { fds: old(self)@.fds.insert(fd.0, pid.0), ..old(self)@ }),
            old(self)@.wf() ==> final(self)@.wf(),
    {
        let ghost before = self@;
        self.fds.insert(fd.0, pid.0);
        proof {
            if before.wf() {
                vstd::std_specs::hash::axiom_hashmap_view_finite_dom(self.fds);
                assert forall|p: u64, k: int|
                    self@.proc_info.contains_key(p) && 0 <= k < self@.proc_info[p].children.len()
                    implies #[trigger] self@.linked(p, k) by {
                    assert(before.linked(p, k));
                }
                assert forall|p: u64| #[trigger] self@.proc_info.contains_key(p) implies p
                    < self@.proc_id_count && self@.proc_info[p].id == p && self@.kept(p) by {
                    assert(before.kept(p));
                }
            }
        }
    }

    /// Whether the pipe end `fd` is open and owned by `pid`.
    pub fn has_fd(&self, pid: ProcID, fd: &Fd) -> (owned: bool)
        ensures
            owned == self@.has_fd(pid.0, fd.0),
    {
        if let Some(owner) = self.fds.get(&fd.0) {
            *owner == pid.0
        } else {
            false
        }
    }

    /// Whether the other end of the pipe of `fd` is open.
    pub fn chech_other_fd(&self, fd: &Fd) -> (open: bool)
        ensures
            open == self@.fds.contains_key(peer_of(fd.0)),
    {
        let other = fd.other_fd();
        self.fds.get(&other.0).is_some()
    }

    /// Takes up to `len` of the bytes that wait at the read end `fd`, from
    /// the front; the rest keeps waiting in order.
    pub fn read_data(&mut self, fd: &Fd, len: usize) -> (data: Vec<u8>)
        ensures
            data@ == old(self)@.read(fd.0, len as nat),
            final(self)@ == old(self)@.read_data(fd.0, len as nat),
            old(self)@.wf() ==> final(self)@.wf(),
    {
        let ghost before = self@;
        let data = match self.bufs.remove(&fd.0) {
            None => {
                assert(self@.bufs =~= before.bufs);
                Vec::new()
            },
            Some(mut data) => {
                if len >= data.len() {
                    assert(self@.bufs =~= before.bufs.remove(fd.0));
                    data
                } else {
                    let rest = data.split_off(len);
                    self.bufs.insert(fd.0, rest);
                    assert(self@.bufs =~= before.read_data(fd.0, len as nat).bufs);
                    data
                }
            },
        };
        proof {
            lemma_bufs_wf(before, self@);
        }
        data
    }

    /// Puts `buf` behind the bytes that wait at the other end of the pipe
    /// of the write end `fd`.
    pub fn write_data(&mut self, fd: &Fd, buf: &[u8])
        ensures
            final(self)@ == old(self)@.write_data(fd.0, buf@),
            old(self)@.wf() ==> final(self)@.wf(),
    {
        let ghost before = self@;
        let other = fd.other_fd();
        let mut data = match self.bufs.remove(&other.0) {
            Some(waiting) => waiting,
            None => Vec::new(),
        };
        data.extend_from_slice(buf);
        assert(data@ =~= before.waiting(other.0) + buf@);
        self.bufs.insert(other.0, data);
        assert(self@.bufs =~= before.write_data(fd.0, buf@).bufs);
        proof {
            lemma_bufs_wf(before, self@);
        }
    }

    /// Whether bytes wait, or an empty byte string is kept, at either end
    /// of the pipe of `fd`.
    pub fn has_data(&self, fd: &Fd) -> (any: bool)
        ensures
            any == (self@.bufs.contains_key(fd.0) || self@.bufs.contains_key(peer_of(fd.0))),
    {
        let other = fd.other_fd();
        self.bufs.get(&fd.0).is_some() || self.bufs.get(&other.0).is_some()
    }
}

/// A change of the waiting bytes alone keeps a context well formed.
proof fn lemma_bufs_wf(s: TxView, t: TxView)
    requires
        t == (TxView { bufs: t.bufs, ..s }),
    ensures
        s.wf() ==> t.wf(),
{
    if s.wf() {
        assert forall|p: u64, k: int|
            t.proc_info.contains_key(p) && 0 <= k < t.proc_info[p].children.len()
            implies #[trigger] t.linked(p, k) by {
            assert(s.linked(p, k));
        }
        assert forall|p: u64| #[trigger] t.proc_info.contains_key(p) implies p < t.proc_id_count
            && t.proc_info[p].id == p && t.kept(p) by {
            assert(s.kept(p));
        }
    }
}

/// Starting a process keeps a context well formed, and links the new
/// process with its parent: the parent keeps it last, and the two flags
/// between them are clear on both sides.
pub proof fn lemma_new_process_wf(s: TxView, parent: Option<u64>, fds: Seq<Fd>)
    requires
        s.wf(),
        parent is Some ==> s.proc_info.contains_key(parent->Some_0),
        s.proc_id_count < u64::MAX,
    ensures
        s.new_process(parent, fds).wf(),
        parent is Some ==> {
            &&& child_with_id(
                s.new_process(parent, fds).proc_info[parent->Some_0].children,
                s.proc_id_count,
                0,
            ) == s.proc_info[parent->Some_0].children.len()
            &&& s.new_process(parent, fds).linked(
                parent->Some_0,
                s.proc_info[parent->Some_0].children.len() as int,
            )
        },
{
    let t = s.new_process(parent, fds);
    let id = s.proc_id_count;
    assert(!s.proc_info.contains_key(id));
    let new_child = ChildView {
        id,
        inherited_fds: fds,
        event_wait: Event { signaled: false },
        event_notify: Event { signaled: false },
    };
    match parent {
        Some(q) => {
            let old_children = s.proc_info[q].children;
            lemma_child_with_id(old_children, id, 0);
            assert(child_with_id(old_children, id, 0) == old_children.len()) by {
                let at = child_with_id(old_children, id, 0) as int;
                if at < old_children.len() {
                    assert(s.linked(q, at));
                }
            }
            lemma_child_with_id_push(old_children, new_child, id, 0);
            assert forall|p: u64| #[trigger] t.proc_info.contains_key(p) implies p
                < t.proc_id_count && t.proc_info[p].id == p && t.kept(p) by {
                if p != id {
                    assert(s.proc_info.contains_key(p));
                    assert(s.kept(p));
                    match s.proc_info[p].parent {
                        Some(pp) => {
                            if pp == q {
                                lemma_child_with_id_push(old_children, new_child, p, 0);
                            }
                        },
                        None => {},
                    }
                }
            }
            assert forall|p: u64, k: int|
                t.proc_info.contains_key(p) && 0 <= k < t.proc_info[p].children.len()
                implies #[trigger] t.linked(p, k) by {
                if p == q {
                    if k < old_children.len() {
                        assert(s.linked(q, k));
                        lemma_child_with_id_push(old_children, new_child, old_children[k].id, 0);
                    }
                } else {
                    assert(p != id);
                    assert(s.linked(p, k));
                }
            }
        },
        None => {
            assert forall|p: u64| #[trigger] t.proc_info.contains_key(p) implies p
                < t.proc_id_count && t.proc_info[p].id == p && t.kept(p) by {
                if p != id {
                    assert(s.proc_info.contains_key(p));
                    assert(s.kept(p));
                }
            }
            assert forall|p: u64, k: int|
                t.proc_info.contains_key(p) && 0 <= k < t.proc_info[p].children.len()
                implies #[trigger] t.linked(p, k) by {
                assert(p != id);
                assert(s.linked(p, k));
            }
        },
    }
}

} // verus!
