//! What the debug target decides: which breakpoints are installed, why the core
//! stopped, and what to do while GDB waits for it.

use vstd::prelude::*;

verus! {

/// Number of bytes that a breakpoint covers.
pub const BREAKPOINT_SIZE: u32 = 2;

/// Time between two looks at a running core, in milliseconds.
pub const POLL_INTERVAL_MS: u64 = 2;

/// Whether the last resume request was a continue or a single step. Used to
/// report the correct stop reason once the core halts.
#[derive(Debug, Clone, Copy, PartialEq, Eq, Structural)]
pub enum ResumeKind {
    /// The core was told to run.
    Continue,
    /// The core was told to execute one instruction.
    Step,
}

/// What the core says of itself, as far as it matters here.
#[derive(Debug, Clone, Copy, PartialEq, Eq, Structural)]
pub enum CoreState {
    /// The core runs.
    Running,
    /// The core is in any other state.
    NotRunning,
}

/// Why the core stopped, as reported to GDB.
#[derive(Debug, Clone, Copy, PartialEq, Eq, Structural)]
pub enum StopReason {
    /// A single step is done.
    DoneStep,
    /// A hardware breakpoint was hit.
    HwBreak,
    /// GDB interrupted the core: the signal SIGINT.
    Interrupt,
}

/// A breakpoint that the core is asked for.
#[derive(Debug, Clone, Copy, PartialEq, Eq, Structural)]
pub struct BreakpointRequest {
    /// Address of the instruction.
    pub address: u64,
    /// Number of bytes from there on.
    pub size: u32,
}

/// What happened last while GDB waits for the core to stop.
#[derive(Debug, Clone, Copy, PartialEq, Eq, Structural)]
pub enum WaitEvent {
    /// The wait begins.
    Begin,
    /// The connection was looked at, and there is data from GDB or there is none.
    Peeked(bool),
    /// A byte from GDB was read.
    Received(u8),
    /// The core was asked for its state; `None` if it could not be had.
    Polled(Option<CoreState>),
    /// The time between two looks has passed.
    Slept,
}

/// What to do next while GDB waits for the core to stop.
#[derive(Debug, Clone, Copy, PartialEq, Eq, Structural)]
pub enum WaitAction {
    /// Look whether GDB has sent something.
    Peek,
    /// Read a byte from GDB.
    Receive,
    /// Ask the core for its state.
    Poll,
    /// Wait for the given number of milliseconds.
    Sleep(u64),
    /// End the wait: GDB has sent this byte.
    IncomingData(u8),
    /// End the wait: the core has stopped.
    TargetStopped(StopReason),
}

/// The stop reason to report for a core in the given state that was resumed in the
/// given way.
pub open spec fn stop_reason(kind: ResumeKind, state: Option<CoreState>) -> Option<StopReason> {
    if state == Some(CoreState::NotRunning) {
        match kind {
            ResumeKind::Step => Some(StopReason::DoneStep),
            ResumeKind::Continue => Some(StopReason::HwBreak),
        }
    } else {
        None
    }
}

/// What to do next: data from GDB comes first, then the state of the core, then a pause.
pub open spec fn wait_action(kind: ResumeKind, event: WaitEvent) -> WaitAction {
    match event {
        WaitEvent::Begin | WaitEvent::Slept => WaitAction::Peek,
        WaitEvent::Peeked(true) => WaitAction::Receive,
        WaitEvent::Peeked(false) => WaitAction::Poll,
        WaitEvent::Received(byte) => WaitAction::IncomingData(byte),
        WaitEvent::Polled(state) => match stop_reason(kind, state) {
            Some(reason) => WaitAction::TargetStopped(reason),
            None => WaitAction::Sleep(POLL_INTERVAL_MS),
        },
    }
}

/// The index of the oldest breakpoint at the given address, or the number of breakpoints
/// if there is none.
pub open spec fn oldest_at(breakpoints: Seq<(u32, u32)>, addr: u32) -> int
    decreases breakpoints.len(),
{
    if breakpoints.len() == 0 || breakpoints.first().0 == addr {
        0
    } else {
        1 + oldest_at(breakpoints.drop_first(), addr)
    }
}

/// The part of a debug target that does not talk to the core.
#[derive(Debug)]
pub struct TricoreTarget {
    breakpoints: Vec<(u32, u32)>,
    resume_kind: ResumeKind,
}

impl TricoreTarget {
    /// Installed hardware breakpoints as `(address, trigger_id)` pairs, the oldest first.
    pub closed spec fn breakpoints(self) -> Seq<(u32, u32)> {
        self.breakpoints@
    }

    /// How the core was last resumed.
    pub closed spec fn resume_kind(self) -> ResumeKind {
        self.resume_kind
    }

    /// A target without breakpoints.
    pub fn new() -> (target: Self)
        ensures
            target.breakpoints() == Seq::<(u32, u32)>::empty(),
            target.resume_kind() == ResumeKind::Continue,
    {
        TricoreTarget { breakpoints: Vec::new(), resume_kind: ResumeKind::Continue }
    }

    /// Takes note that the core is told to run.
    pub fn resume(&mut self)
        ensures
            final(self).resume_kind() == ResumeKind::Continue,
            final(self).breakpoints() == old(self).breakpoints(),
    {
        self.resume_kind = ResumeKind::Continue;
    }

    /// Takes note that the core is told to execute one instruction.
    pub fn step(&mut self)
        ensures
            final(self).resume_kind() == ResumeKind::Step,
            final(self).breakpoints() == old(self).breakpoints(),
    {
        self.resume_kind = ResumeKind::Step;
    }

    /// The stop reason for a core that was found in the given state. There is none while
    /// it runs, nor where its state could not be had: that happens around resets and is
    /// no reason to end the session.
    pub fn poll_stop(&self, state: Option<CoreState>) -> (reason: Option<StopReason>)
        ensures
            reason == stop_reason(self.resume_kind(), state),
    {
        match state {
            Some(CoreState::NotRunning) => match self.resume_kind {
                ResumeKind::Step => Some(StopReason::DoneStep),
                ResumeKind::Continue => Some(StopReason::HwBreak),
            },
            _ => None,
        }
    }

    /// The breakpoint to ask the core for.
    pub fn breakpoint_request(addr: u32) -> (request: BreakpointRequest)
        ensures
            request.address == addr,
            request.size == 2,
    {
        BreakpointRequest { address: addr as u64, size: BREAKPOINT_SIZE }
    }

    /// Takes note of the trigger that the core has created for a breakpoint. A failure of
    /// the core is handed on.
    pub fn add_hw_breakpoint<E>(&mut self, addr: u32, created: Result<u32, E>) -> (added: Result<
        bool,
        E,
    >)
        ensures
            final(self).resume_kind() == old(self).resume_kind(),
            match created {
                Ok(id) => added == Ok::<bool, E>(true) && final(self).breakpoints() == old(
                    self,
                ).breakpoints().push((addr, id)),
                Err(error) => added == Err::<bool, E>(error) && final(self).breakpoints() == old(
                    self,
                ).breakpoints(),
            },
    {
        match created {
            Ok(id) => {
                self.breakpoints.push((addr, id));
                Ok(true)
            },
            Err(error) => Err(error),
        }
    }

    /// Forgets the oldest breakpoint at an address and returns the trigger that the core
    /// is to remove, or `None` if there is no breakpoint.
    pub fn remove_hw_breakpoint(&mut self, addr: u32) -> (trigger: Option<u32>)
        ensures
            final(self).resume_kind() == old(self).resume_kind(),
            ({
                let given = old(self).breakpoints();
                let i = oldest_at(given, addr);
                match trigger {
                    Some(id) => i < given.len() && given[i] == (addr, id)
                        && final(self).breakpoints() == given.remove(i),
                    None => i == given.len() && final(self).breakpoints() == given,
                }
            }),
    {
        let mut i: usize = 0;
        while i < self.breakpoints.len()
            invariant
                i <= self.breakpoints@.len(),
                *self == *old(self),
                forall|j: int| 0 <= j < i ==> (#[trigger] self.breakpoints@[j]).0 != addr,
            decreases self.breakpoints.len() - i,
        {
            if self.breakpoints[i].0 == addr {
                proof {
                    lemma_is_oldest(self.breakpoints@, addr, i as int);
                }
                let (_, id) = self.breakpoints.remove(i);
                return Some(id);
            }
            i += 1;
        }
        proof {
            lemma_is_oldest(self.breakpoints@, addr, i as int);
        }
        None
    }

    /// What to do next while GDB waits for the core to stop.
    pub fn wait_for_stop_reason(&self, event: WaitEvent) -> (action: WaitAction)
        ensures
            action == wait_action(self.resume_kind(), event),
    {
        match event {
            WaitEvent::Begin | WaitEvent::Slept => WaitAction::Peek,
            WaitEvent::Peeked(true) => WaitAction::Receive,
            WaitEvent::Peeked(false) => WaitAction::Poll,
            WaitEvent::Received(byte) => WaitAction::IncomingData(byte),
            WaitEvent::Polled(state) => match self.poll_stop(state) {
                Some(reason) => WaitAction::TargetStopped(reason),
                None => WaitAction::Sleep(POLL_INTERVAL_MS),
            },
        }
    }

    /// What to report to GDB after the core was stopped on its request. A failure of the
    /// core is handed on.
    pub fn on_interrupt<E>(stopped: Result<(), E>) -> (reason: Result<Option<StopReason>, E>)
        ensures
            match stopped {
                Ok(()) => reason == Ok::<Option<StopReason>, E>(Some(StopReason::Interrupt)),
                Err(error) => reason == Err::<Option<StopReason>, E>(error),
            },
    {
        match stopped {
            Ok(()) => Ok(Some(StopReason::Interrupt)),
            Err(error) => Err(error),
        }
    }
}

proof fn lemma_is_oldest(breakpoints: Seq<(u32, u32)>, addr: u32, i: int)
    requires
        0 <= i <= breakpoints.len(),
        forall|j: int| 0 <= j < i ==> (#[trigger] breakpoints[j]).0 != addr,
        i < breakpoints.len() ==> breakpoints[i].0 == addr,
    ensures
        oldest_at(breakpoints, addr) == i,
    decreases i,
{
    if i > 0 {
        assert(breakpoints[0].0 != addr);
        let rest = breakpoints.drop_first();
        assert forall|j: int| 0 <= j < i - 1 implies (#[trigger] rest[j]).0 != addr by {
            assert(rest[j] == breakpoints[j + 1]);
        }
        lemma_is_oldest(rest, addr, i - 1);
    }
}

/// The oldest breakpoint at an address is one at that address, and no older one is.
pub proof fn law_oldest_is_first(breakpoints: Seq<(u32, u32)>, addr: u32)
    ensures
        0 <= oldest_at(breakpoints, addr) <= breakpoints.len(),
        forall|j: int|
            0 <= j < oldest_at(breakpoints, addr) ==> (#[trigger] breakpoints[j]).0 != addr,
        oldest_at(breakpoints, addr) < breakpoints.len() ==> breakpoints[oldest_at(
            breakpoints,
            addr,
        )].0 == addr,
    decreases breakpoints.len(),
{
    if breakpoints.len() > 0 && breakpoints.first().0 != addr {
        let rest = breakpoints.drop_first();
        law_oldest_is_first(rest, addr);
        assert forall|j: int| 0 <= j < oldest_at(breakpoints, addr) implies (
        #[trigger] breakpoints[j]).0 != addr by {
            if j > 0 {
                assert(rest[j - 1] == breakpoints[j]);
            }
        }
    }
}

/// Adding a breakpoint does not change which one is the oldest at an address that has one
/// already. At an address that has none, it becomes the oldest.
pub proof fn law_addition_keeps_the_oldest(breakpoints: Seq<(u32, u32)>, addr: u32, id: u32)
    ensures
        oldest_at(breakpoints.push((addr, id)), addr) == oldest_at(breakpoints, addr),
{
    let i = oldest_at(breakpoints, addr);
    let added = breakpoints.push((addr, id));
    law_oldest_is_first(breakpoints, addr);
    assert forall|j: int| 0 <= j < i implies (#[trigger] added[j]).0 != addr by {
        assert(added[j] == breakpoints[j]);
    }
    lemma_is_oldest(added, addr, i);
}

/// A breakpoint at an address that had none is removed with the trigger that it was
/// added with, and that leaves the breakpoints as they were.
pub proof fn law_removal_undoes_addition(breakpoints: Seq<(u32, u32)>, addr: u32, id: u32)
    requires
        oldest_at(breakpoints, addr) == breakpoints.len(),
    ensures
        ({
            let added = breakpoints.push((addr, id));
            let i = oldest_at(added, addr);
            added[i] == (addr, id) && added.remove(i) == breakpoints
        }),
{
    law_addition_keeps_the_oldest(breakpoints, addr, id);
    let added = breakpoints.push((addr, id));
    assert(added.remove(breakpoints.len() as int) =~= breakpoints);
}

proof fn lemma_remove_other(
    breakpoints: Seq<(u32, u32)>,
    i: int,
    other: u32,
)
    requires
        0 <= i < breakpoints.len(),
        breakpoints[i].0 != other,
    ensures
        breakpoints.remove(i).filter(|entry: (u32, u32)| entry.0 == other) == breakpoints.filter(
            |entry: (u32, u32)| entry.0 == other,
        ),
    decreases breakpoints.len(),
{
    reveal(Seq::filter);
    let removed = breakpoints.remove(i);
    if i == breakpoints.len() - 1 {
        assert(removed =~= breakpoints.drop_last());
    } else {
        let shorter = breakpoints.drop_last();
        lemma_remove_other(shorter, i, other);
        assert(removed.drop_last() =~= shorter.remove(i));
        assert(removed.last() == breakpoints.last());
    }
}

/// A removal leaves the breakpoints at all other addresses as they were, in their order.
pub proof fn law_removal_keeps_other_addresses(
    breakpoints: Seq<(u32, u32)>,
    addr: u32,
    other: u32,
)
    requires
        oldest_at(breakpoints, addr) < breakpoints.len(),
        other != addr,
    ensures
        breakpoints.remove(oldest_at(breakpoints, addr)).filter(
            |entry: (u32, u32)| entry.0 == other,
        ) == breakpoints.filter(|entry: (u32, u32)| entry.0 == other),
{
    law_oldest_is_first(breakpoints, addr);
    lemma_remove_other(breakpoints, oldest_at(breakpoints, addr), other);
}

/// A wait ends only with a byte that GDB has sent or with a core that has stopped. A core
/// that runs, or whose state could not be had, is looked at again after a pause.
pub proof fn law_wait_goes_on(kind: ResumeKind, event: WaitEvent)
    ensures
        wait_action(kind, event) is IncomingData <==> event is Received,
        wait_action(kind, event) is TargetStopped <==> event == WaitEvent::Polled(
            Some(CoreState::NotRunning),
        ),
        wait_action(kind, WaitEvent::Polled(None)) == WaitAction::Sleep(2),
        wait_action(kind, WaitEvent::Polled(Some(CoreState::Running))) == WaitAction::Sleep(2),
        wait_action(kind, WaitEvent::Slept) == wait_action(kind, WaitEvent::Begin),
{
}

/// While data from GDB is there, the core is not asked for its state: a round asks the
/// core only after it has looked at the connection and found nothing.
pub proof fn law_gdb_comes_first(kind: ResumeKind, event: WaitEvent)
    requires
        wait_action(kind, event) is Poll,
    ensures
        event == WaitEvent::Peeked(false),
{
}

/// A round of the wait goes through all its steps, however the core was resumed: it begins
/// with a look at the connection, reads what GDB has sent and reports that very byte, and
/// where GDB has sent nothing it asks the core.
pub proof fn law_every_round_asks_gdb_and_the_core(kind: ResumeKind, byte: u8)
    ensures
        wait_action(kind, WaitEvent::Begin) == WaitAction::Peek,
        wait_action(kind, WaitEvent::Slept) == WaitAction::Peek,
        wait_action(kind, WaitEvent::Peeked(true)) == WaitAction::Receive,
        wait_action(kind, WaitEvent::Received(byte)) == WaitAction::IncomingData(byte),
        wait_action(kind, WaitEvent::Peeked(false)) == WaitAction::Poll,
{
}

/// A core that has stopped ends the wait at once. What is reported tells how the core was
/// resumed: a step is done, or else a breakpoint was hit.
pub proof fn law_stop_is_reported_by_resume_kind(kind: ResumeKind)
    ensures
        wait_action(kind, WaitEvent::Polled(Some(CoreState::NotRunning)))
            == WaitAction::TargetStopped(
            if kind is Step {
                StopReason::DoneStep
            } else {
                StopReason::HwBreak
            },
        ),
{
}

/// A core has a stop reason exactly when its state is known and it does not run. That is
/// the reason that ends a wait.
pub proof fn law_poll_and_wait_agree(kind: ResumeKind, state: Option<CoreState>)
    ensures
        stop_reason(kind, state) is Some <==> state == Some(CoreState::NotRunning),
        stop_reason(kind, state) matches Some(reason) ==> wait_action(
            kind,
            WaitEvent::Polled(state),
        ) == WaitAction::TargetStopped(reason) && (reason == StopReason::DoneStep <==> kind is Step)
            && (reason == StopReason::HwBreak <==> kind is Continue),
        stop_reason(kind, state) is None ==> wait_action(kind, WaitEvent::Polled(state))
            == WaitAction::Sleep(2),
{
}

} // verus!
