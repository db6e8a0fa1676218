use vstd::prelude::*;

verus! {

/// Where the watch on the database stands.
#[derive(Debug, Clone, Copy, PartialEq, Eq, Structural)]
pub enum Phase {
    /// Not registered yet.
    Starting,
    /// Registered on the file that the path names now.
    Armed,
    /// The file was replaced: the watch must be registered again.
    Rearming,
    /// Registration failed: no change can be seen any more.
    Stopped,
}

/// The watch's phase, and how often the watched file has been replaced.
#[derive(Debug, Clone, Copy, PartialEq, Eq, Structural)]
pub struct WatchState {
    pub phase: Phase,
    pub generation: u64,
}

/// The class of a notification on the watched path.
#[derive(Debug, Clone, Copy, PartialEq, Eq, Structural)]
pub enum EventKind {
    Create,
    Modify,
    Remove,
    Other,
}

/// What the loop hands to the state machine.
#[derive(Debug, Clone, Copy, PartialEq, Eq, Structural)]
pub enum WatchInput {
    /// A notification of the given class.
    Event(EventKind),
    /// The watcher reported an error instead of a notification.
    WatchError,
    /// An attempt to register the watch, and whether it succeeded.
    Registered(bool),
}

/// What the loop is asked to do next.
#[derive(Debug, Clone, Copy, PartialEq, Eq, Structural)]
pub enum WatchAction {
    /// Nothing.
    Ignore,
    /// Export every configured user's hash, in order, once.
    Resync,
    /// Register the watch on the database path again.
    Rearm,
    /// Report the watcher's error and go on.
    Report,
    /// Registration failed: end with an error.
    Fail,
}

/// `g + 1`, wrapping at the end of the range.
pub open spec fn next_generation(g: u64) -> u64 {
    if g == u64::MAX {
        0
    } else {
        (g + 1) as u64
    }
}

/// One transition of the watch.
pub open spec fn step_spec(s: WatchState, i: WatchInput) -> (WatchState, WatchAction) {
    match s.phase {
        Phase::Stopped => (s, WatchAction::Ignore),
        Phase::Starting => match i {
            WatchInput::Registered(true) => (WatchState { phase: Phase::Armed, generation: 0 }, WatchAction::Ignore),
            WatchInput::Registered(false) => (WatchState { phase: Phase::Stopped, ..s }, WatchAction::Fail),
            _ => (s, WatchAction::Ignore),
        },
        Phase::Armed => match i {
            WatchInput::Event(EventKind::Remove) => (WatchState { phase: Phase::Rearming, ..s }, WatchAction::Rearm),
            WatchInput::Event(EventKind::Create) => (s, WatchAction::Resync),
            WatchInput::Event(EventKind::Modify) => (s, WatchAction::Resync),
            WatchInput::Event(EventKind::Other) => (s, WatchAction::Ignore),
            WatchInput::WatchError => (s, WatchAction::Report),
            WatchInput::Registered(_) => (s, WatchAction::Ignore),
        },
        Phase::Rearming => match i {
            WatchInput::Registered(true) => (
                WatchState { phase: Phase::Armed, generation: next_generation(s.generation) },
                WatchAction::Resync,
            ),
            WatchInput::Registered(false) => (WatchState { phase: Phase::Stopped, ..s }, WatchAction::Fail),
            WatchInput::WatchError => (s, WatchAction::Report),
            WatchInput::Event(_) => (s, WatchAction::Rearm),
        },
    }
}

/// The actions that a run of inputs asks for, from state `s`.
pub open spec fn run_spec(s: WatchState, inputs: Seq<WatchInput>) -> Seq<WatchAction>
    decreases inputs.len(),
{
    if inputs.len() == 0 {
        Seq::empty()
    } else {
        let (t, a) = step_spec(s, inputs[0]);
        seq![a] + run_spec(t, inputs.drop_first())
    }
}

impl WatchState {
    /// The state before the first registration.
    pub fn new() -> (r: WatchState)
        ensures
            r == (WatchState { phase: Phase::Starting, generation: 0 }),
    {
        WatchState { phase: Phase::Starting, generation: 0 }
    }

    /// The next state, and what to do, on input `i`.
    pub fn step(self, i: WatchInput) -> (r: (WatchState, WatchAction))
        ensures
            r == step_spec(self, i),
    {
        match self.phase {
            Phase::Stopped => (self, WatchAction::Ignore),
            Phase::Starting => match i {
                WatchInput::Registered(true) => (WatchState { phase: Phase::Armed, generation: 0 }, WatchAction::Ignore),
                WatchInput::Registered(false) => (WatchState { phase: Phase::Stopped, generation: self.generation }, WatchAction::Fail),
                _ => (self, WatchAction::Ignore),
            },
            Phase::Armed => match i {
                WatchInput::Event(EventKind::Remove) => (WatchState { phase: Phase::Rearming, generation: self.generation }, WatchAction::Rearm),
                WatchInput::Event(EventKind::Create) => (self, WatchAction::Resync),
                WatchInput::Event(EventKind::Modify) => (self, WatchAction::Resync),
                WatchInput::Event(EventKind::Other) => (self, WatchAction::Ignore),
                WatchInput::WatchError => (self, WatchAction::Report),
                WatchInput::Registered(_) => (self, WatchAction::Ignore),
            },
            Phase::Rearming => match i {
                WatchInput::Registered(true) => {
                    let g = if self.generation == u64::MAX { 0 } else { self.generation + 1 };
                    (WatchState { phase: Phase::Armed, generation: g }, WatchAction::Resync)
                },
                WatchInput::Registered(false) => (WatchState { phase: Phase::Stopped, generation: self.generation }, WatchAction::Fail),
                WatchInput::WatchError => (self, WatchAction::Report),
                WatchInput::Event(_) => (self, WatchAction::Rearm),
            },
        }
    }
}

proof fn lemma_run_len(s: WatchState, inputs: Seq<WatchInput>)
    ensures
        run_spec(s, inputs).len() == inputs.len(),
    decreases inputs.len(),
{
    if inputs.len() > 0 {
        let (t, a) = step_spec(s, inputs[0]);
        lemma_run_len(t, inputs.drop_first());
    }
}

proof fn lemma_stopped_never_resyncs(s: WatchState, inputs: Seq<WatchInput>, k: int)
    requires
        s.phase == Phase::Stopped,
        0 <= k < inputs.len(),
    ensures
        run_spec(s, inputs)[k] == WatchAction::Ignore,
    decreases inputs.len(),
{
    lemma_run_len(s, inputs);
    lemma_run_len(s, inputs.drop_first());
    if k > 0 {
        lemma_stopped_never_resyncs(s, inputs.drop_first(), k - 1);
    }
}

proof fn lemma_rearming_waits(s: WatchState, inputs: Seq<WatchInput>, k: int)
    requires
        s.phase == Phase::Rearming,
        0 <= k < inputs.len(),
        run_spec(s, inputs)[k] == WatchAction::Resync,
    ensures
        exists|j: int| 0 <= j <= k && inputs[j] == WatchInput::Registered(true),
    decreases inputs.len(),
{
    let (t, a) = step_spec(s, inputs[0]);
    lemma_run_len(s, inputs);
    lemma_run_len(t, inputs.drop_first());
    assert(run_spec(s, inputs) == seq![a] + run_spec(t, inputs.drop_first()));
    if inputs[0] == WatchInput::Registered(true) {
        assert(inputs[0] == WatchInput::Registered(true));
    } else if inputs[0] == WatchInput::Registered(false) {
        lemma_stopped_never_resyncs(t, inputs.drop_first(), k - 1);
    } else {
        lemma_rearming_waits(t, inputs.drop_first(), k - 1);
        let j = choose|j: int| 0 <= j <= k - 1 && inputs.drop_first()[j] == WatchInput::Registered(true);
        assert(inputs[j + 1] == WatchInput::Registered(true));
    }
}

/// After a remove event on an armed watch, every resync that follows comes at
/// or after a successful registration of the watch: no resync runs on a watch
/// that lost its file.
pub proof fn lemma_rearm_before_resync(s: WatchState, inputs: Seq<WatchInput>, k: int)
    requires
        s.phase == Phase::Armed,
        inputs.len() > 0,
        inputs[0] == WatchInput::Event(EventKind::Remove),
        0 <= k < inputs.len(),
        run_spec(s, inputs)[k] == WatchAction::Resync,
    ensures
        exists|j: int| 0 < j <= k && inputs[j] == WatchInput::Registered(true),
{
    let (t, a) = step_spec(s, inputs[0]);
    lemma_run_len(s, inputs);
    lemma_run_len(t, inputs.drop_first());
    assert(run_spec(s, inputs) == seq![a] + run_spec(t, inputs.drop_first()));
    lemma_rearming_waits(t, inputs.drop_first(), k - 1);
    let j = choose|j: int| 0 <= j <= k - 1 && inputs.drop_first()[j] == WatchInput::Registered(true);
    assert(inputs[j + 1] == WatchInput::Registered(true));
}

/// A failed registration stops the watch for good: it asks to fail at once,
/// and nothing afterwards.
pub proof fn lemma_failed_registration_is_final(s: WatchState, inputs: Seq<WatchInput>, k: int)
    requires
        s.phase == Phase::Rearming || s.phase == Phase::Starting,
        inputs.len() > 0,
        inputs[0] == WatchInput::Registered(false),
        0 < k < inputs.len(),
    ensures
        run_spec(s, inputs)[0] == WatchAction::Fail,
        run_spec(s, inputs)[k] == WatchAction::Ignore,
{
    let (t, a) = step_spec(s, inputs[0]);
    lemma_run_len(s, inputs);
    lemma_run_len(t, inputs.drop_first());
    assert(run_spec(s, inputs) == seq![a] + run_spec(t, inputs.drop_first()));
    lemma_stopped_never_resyncs(t, inputs.drop_first(), k - 1);
}

} // verus!
