use vstd::prelude::*;

verus! {

/// Handle for one end of a pipe. Even values are read ends, odd values are
/// write ends; the two ends of one pipe differ in the lowest bit only.
#[derive(Clone, Copy, Debug, PartialEq, Eq, Structural, PartialOrd, Ord, Hash)]
pub struct Fd(pub u64);

impl From<u64> for Fd {
    fn from(value: u64) -> (ret: Self) {
        Fd(value)
    }
}

impl vstd::std_specs::convert::FromSpecImpl<u64> for Fd {
    open spec fn obeys_from_spec() -> bool {
        true
    }

    open spec fn from_spec(value: u64) -> Self {
        Fd(value)
    }
}

impl From<Fd> for u64 {
    fn from(value: Fd) -> (ret: Self) {
        value.0
    }
}

impl vstd::std_specs::convert::FromSpecImpl<Fd> for u64 {
    open spec fn obeys_from_spec() -> bool {
        true
    }

    open spec fn from_spec(value: Fd) -> Self {
        value.0
    }
}

/// The handle of the other end of the pipe that `fd` belongs to.
pub open spec fn peer_of(fd: u64) -> u64 {
    if fd % 2 == 0 {
        (fd + 1) as u64
    } else {
        (fd - 1) as u64
    }
}

/// Flipping the lowest bit moves an even value one up and an odd value one down.
pub proof fn lemma_xor_one(fd: u64)
    ensures
        fd ^ 1 == peer_of(fd),
        (fd | 1) == (if fd % 2 == 0 { (fd + 1) as u64 } else { fd }),
{
    assert(fd ^ 1 == (if fd % 2 == 0 { (fd + 1) as u64 } else { (fd - 1) as u64 })) by (bit_vector);
    assert((fd | 1) == (if fd % 2 == 0 { (fd + 1) as u64 } else { fd })) by (bit_vector);
}

/// The peer of the peer is the end one started from, and the two ends differ.
pub proof fn lemma_peer_involution(fd: u64)
    ensures
        peer_of(peer_of(fd)) == fd,
        peer_of(fd) != fd,
        peer_of(fd) % 2 != fd % 2,
{
}

impl Fd {
    /// The two ends of a fresh pipe taken at `slot`, and the slot after them.
    pub fn create(slot: u64) -> (ret: (Fd, Fd, u64))
        requires
            slot + 2 <= u64::MAX,
        ensures
            ret.0 == Fd(slot),
            ret.1 == Fd((slot + 1) as u64),
            ret.2 == slot + 2,
    {
        (Fd(slot), Fd(slot + 1), slot + 2)
    }

    /// The other end of the same pipe.
    pub fn other_fd(&self) -> (ret: Fd)
        ensures
            ret == Fd(peer_of(self.0)),
            ret.0 == self.0 ^ 1,
    {
        proof {
            lemma_xor_one(self.0);
        }
        Fd(self.0 ^ 0x1)
    }

    /// Whether this is the read end of its pipe.
    pub fn is_read(&self) -> (ret: bool)
        ensures
            ret == (self.0 % 2 == 0),
    {
        self.0 % 2 == 0
    }
}

/// Identifier of one simulation held by the registry; 0 is the default one.
#[derive(Clone, Copy, Debug, PartialEq, Eq, Structural, Hash)]
pub struct SimID(pub u64);

impl Default for SimID {
    fn default() -> (ret: Self)
        ensures
            ret == SimID(0),
    {
        SimID(0)
    }
}

impl From<u64> for SimID {
    fn from(value: u64) -> (ret: Self) {
        SimID(value)
    }
}

impl vstd::std_specs::convert::FromSpecImpl<u64> for SimID {
    open spec fn obeys_from_spec() -> bool {
        true
    }

    open spec fn from_spec(value: u64) -> Self {
        SimID(value)
    }
}

impl From<SimID> for u64 {
    fn from(value: SimID) -> (ret: Self) {
        value.0
    }
}

impl vstd::std_specs::convert::FromSpecImpl<SimID> for u64 {
    open spec fn obeys_from_spec() -> bool {
        true
    }

    open spec fn from_spec(value: SimID) -> Self {
        value.0
    }
}

impl SimID {
    /// Advances the counter and returns its new value.
    pub fn next(&mut self) -> (ret: Self)
        requires
            old(self).0 < u64::MAX,
        ensures
            final(self).0 == old(self).0 + 1,
            ret == *final(self),
    {
        self.0 += 1;
        *self
    }
}

/// Identifier of one process of a simulation; 0 is the root process.
#[derive(Clone, Copy, Debug, PartialEq, Eq, Structural, PartialOrd, Ord, Hash)]
pub struct ProcID(pub u64);

impl Default for ProcID {
    fn default() -> (ret: Self)
        ensures
            ret == ProcID(0),
    {
        ProcID(0)
    }
}

impl From<u64> for ProcID {
    fn from(value: u64) -> (ret: Self) {
        ProcID(value)
    }
}

impl vstd::std_specs::convert::FromSpecImpl<u64> for ProcID {
    open spec fn obeys_from_spec() -> bool {
        true
    }

    open spec fn from_spec(value: u64) -> Self {
        ProcID(value)
    }
}

impl From<ProcID> for u64 {
    fn from(value: ProcID) -> (ret: Self) {
        value.0
    }
}

impl vstd::std_specs::convert::FromSpecImpl<ProcID> for u64 {
    open spec fn obeys_from_spec() -> bool {
        true
    }

    open spec fn from_spec(value: ProcID) -> Self {
        value.0
    }
}

impl ProcID {
    /// Returns the current value and advances the counter past it.
    pub fn next(&mut self) -> (ret: Self)
        requires
            old(self).0 < u64::MAX,
        ensures
            ret == *old(self),
            final(self).0 == old(self).0 + 1,
    {
        let id = *self;
        self.0 += 1;
        id
    }
}

/// One-slot, auto-reset wake flag. A notification sets the flag, several of
/// them before it is consumed count as one, and consuming it clears it
/// again. A flag cannot be copied: it is the flag of whoever holds it, and
/// a flag that several parties use is reached through its holder.
#[derive(Debug, PartialEq, Eq, Structural)]
pub struct Event {
    pub signaled: bool,
}

impl Default for Event {
    fn default() -> (ret: Self)
        ensures
            !ret.signaled,
    {
        Event { signaled: false }
    }
}

impl Event {
    /// The flag after a notification.
    pub open spec fn notified(self) -> Event {
        Event { signaled: true }
    }

    /// What a wait finds: whether the flag was set.
    pub open spec fn woken(self) -> bool {
        self.signaled
    }

    /// The flag after a wait has looked at it.
    pub open spec fn waited(self) -> Event {
        Event { signaled: false }
    }

    /// Sets the flag.
    pub fn notify(&mut self)
        ensures
            *final(self) == old(self).notified(),
            final(self).signaled,
    {
        self.signaled = true;
    }

    /// Consumes the flag: returns `true` and clears it when it was set, and
    /// returns `false`, leaving it clear, when the caller has to keep waiting.
    pub fn wait(&mut self) -> (woken: bool)
        ensures
            woken == old(self).woken(),
            *final(self) == old(self).waited(),
            !final(self).signaled,
    {
        if self.signaled {
            self.signaled = false;
            true
        } else {
            false
        }
    }
}

/// Notifications do not add up: after any number of them, one or more, the
/// flag is as after one. The next wait finds it set and clears it, and the
/// wait after that finds it clear. A notification that comes before the
/// wait is not lost, and a wait finds the flag set only when a notification
/// came since the last wait.
pub proof fn lemma_event_collapses(e: Event, n: nat)
    requires
        n >= 1,
    ensures
        notified_times(e, n) == e.notified(),
        notified_times(e, n).woken(),
        !notified_times(e, n).waited().woken(),
        !e.waited().woken(),
        e.waited().notified().woken(),
    decreases n,
{
    if n > 1 {
        lemma_event_collapses(e, (n - 1) as nat);
    }
}

/// The flag after `n` notifications in a row.
pub open spec fn notified_times(e: Event, n: nat) -> Event
    decreases n,
{
    if n == 0 {
        e
    } else {
        notified_times(e, (n - 1) as nat).notified()
    }
}

/// The simulation and the process that a host thread is acting as.
#[derive(Clone, Copy, Debug, PartialEq, Eq, Structural)]
pub struct CurrentIds {
    pub sim_id: SimID,
    pub proc_id: ProcID,
}

impl Default for CurrentIds {
    fn default() -> (ret: Self)
        ensures
            ret == (CurrentIds { sim_id: SimID(0), proc_id: ProcID(0) }),
    {
        CurrentIds { sim_id: SimID(0), proc_id: ProcID(0) }
    }
}

impl CurrentIds {
    /// Switches to the simulation `id`, and to the process `pid` when one
    /// is given.
    pub fn update_ctx_id(&mut self, id: SimID, pid: Option<ProcID>)
        ensures
            final(self).sim_id == id,
            final(self).proc_id == match pid {
                Some(p) => p,
                None => old(self).proc_id,
            },
    {
        self.sim_id = id;
        if let Some(p) = pid {
            self.proc_id = p;
        }
    }

    /// The simulation that the thread is acting in.
    pub fn ctx_id(&self) -> (id: SimID)
        ensures
            id == self.sim_id,
    {
        self.sim_id
    }

    /// The process that the thread is acting as.
    pub fn pid(&self) -> (pid: ProcID)
        ensures
            pid == self.proc_id,
    {
        self.proc_id
    }

    /// Goes back to the root process of the default simulation.
    pub fn clean(&mut self)
        ensures
            *final(self) == (CurrentIds { sim_id: SimID(0), proc_id: ProcID(0) }),
    {
        self.sim_id = SimID(0);
        self.proc_id = ProcID(0);
    }
}

} // verus!
