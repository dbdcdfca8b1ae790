use vstd::prelude::*;

verus! {

/// Where the loop stands.
#[derive(Debug, Clone, Copy, PartialEq, Eq, Structural)]
pub enum Phase {
    Initializing,
    Rendering,
    AwaitingMessage,
    Updating,
    Reconciling,
    Terminated,
}

/// Where a received message came from: the application's own producers, or
/// the raw input source (which still has to be translated by `map_event`).
#[derive(Debug, Clone, Copy, PartialEq, Eq, Structural)]
pub enum Inbound {
    User,
    External,
}

/// What the driver reports back after carrying out an action.
#[derive(Debug, Clone, Copy, PartialEq, Eq, Structural)]
pub enum Event {
    /// The initial model exists, its subscriptions and command are under way.
    Initialized,
    /// The view was drawn.
    Drawn,
    /// One message was taken from the channel.
    Received(Inbound),
    /// `map_event` ran on a raw event: whether it produced a message.
    Mapped(bool),
    /// `update` ran and its command was dispatched: whether the quit flag is raised.
    Updated(bool),
    /// The running subscriptions were reconciled with the model's.
    Reconciled,
}

/// What the driver must do next.
#[derive(Debug, Clone, Copy, PartialEq, Eq, Structural)]
pub enum Action {
    /// Draw the view of the current model.
    Draw,
    /// Block on the channel for exactly one message.
    Receive,
    /// Translate the raw event just received with `map_event`.
    MapEvent,
    /// Call `update` with the message in hand, then dispatch its command.
    Update,
    /// Recompute the desired subscriptions and reconcile the running ones.
    Reconcile,
    /// Stop every running subscription, release the terminal, and return.
    Shutdown,
    /// Nothing: the event does not fit the current phase.
    Idle,
}

/// One item of the loop's single channel: a message of the application, or a
/// raw event of the input source still to be translated.
pub enum Incoming<M, R> {
    User(M),
    External(R),
}

impl<M, R> Incoming<M, R> {
    /// Where the item came from.
    pub fn source(&self) -> (r: Inbound)
        ensures
            r == (if self is User { Inbound::User } else { Inbound::External }),
    {
        match self {
            Incoming::User(_) => Inbound::User,
            Incoming::External(_) => Inbound::External,
        }
    }
}

/// The loop's control state.
#[derive(Debug, Clone, Copy, PartialEq, Eq, Structural)]
pub struct LoopState {
    pub phase: Phase,
    /// A raw event is in hand, waiting for `map_event`.
    pub translating: bool,
    /// The quit flag was seen raised after the last update.
    pub quitting: bool,
}

/// One transition of the loop: the next state and the action it asks for.
pub open spec fn next(s: LoopState, e: Event) -> (LoopState, Action) {
    match (s.phase, e) {
        (Phase::Initializing, Event::Initialized) => (LoopState { phase: Phase::Rendering, ..s }, Action::Draw),
        (Phase::Rendering, Event::Drawn) => (LoopState { phase: Phase::AwaitingMessage, ..s }, Action::Receive),
        (Phase::AwaitingMessage, Event::Received(Inbound::User)) if !s.translating => (
            LoopState { phase: Phase::Updating, ..s },
            Action::Update,
        ),
        (Phase::AwaitingMessage, Event::Received(Inbound::External)) if !s.translating => (
            LoopState { translating: true, ..s },
            Action::MapEvent,
        ),
        (Phase::AwaitingMessage, Event::Mapped(produced)) if s.translating => {
            if produced {
                (LoopState { phase: Phase::Updating, translating: false, ..s }, Action::Update)
            } else {
                (LoopState { phase: Phase::Rendering, translating: false, ..s }, Action::Draw)
            }
        },
        (Phase::Updating, Event::Updated(quit)) => (
            LoopState { phase: Phase::Reconciling, quitting: quit, ..s },
            Action::Reconcile,
        ),
        (Phase::Reconciling, Event::Reconciled) => {
            if s.quitting {
                (LoopState { phase: Phase::Terminated, ..s }, Action::Shutdown)
            } else {
                (LoopState { phase: Phase::Rendering, ..s }, Action::Draw)
            }
        },
        _ => (s, Action::Idle),
    }
}

/// The actions asked for while the events `es` arrive one after another from `s`.
pub open spec fn actions(s: LoopState, es: Seq<Event>) -> Seq<Action>
    decreases es.len(),
{
    if es.len() == 0 {
        Seq::empty()
    } else {
        let (t, a) = next(s, es[0]);
        seq![a] + actions(t, es.drop_first())
    }
}

impl LoopState {
    /// The state before anything has run.
    pub fn start() -> (r: LoopState)
        ensures
            r == (LoopState { phase: Phase::Initializing, translating: false, quitting: false }),
    {
        LoopState { phase: Phase::Initializing, translating: false, quitting: false }
    }

    /// Whether the loop has finished.
    pub fn finished(&self) -> (r: bool)
        ensures
            r == (self.phase == Phase::Terminated),
    {
        match self.phase {
            Phase::Terminated => true,
            _ => false,
        }
    }

    /// Takes one event and says what to do next.
    pub fn step(&mut self, e: Event) -> (a: Action)
        ensures
            (*final(self), a) == next(*old(self), e),
    {
        let s = *self;
        let (t, a) = match (s.phase, e) {
            (Phase::Initializing, Event::Initialized) => (LoopState { phase: Phase::Rendering, ..s }, Action::Draw),
            (Phase::Rendering, Event::Drawn) => (LoopState { phase: Phase::AwaitingMessage, ..s }, Action::Receive),
            (Phase::AwaitingMessage, Event::Received(Inbound::User)) if !s.translating => (
                LoopState { phase: Phase::Updating, ..s },
                Action::Update,
            ),
            (Phase::AwaitingMessage, Event::Received(Inbound::External)) if !s.translating => (
                LoopState { translating: true, ..s },
                Action::MapEvent,
            ),
            (Phase::AwaitingMessage, Event::Mapped(produced)) if s.translating => {
                if produced {
                    (LoopState { phase: Phase::Updating, translating: false, ..s }, Action::Update)
                } else {
                    (LoopState { phase: Phase::Rendering, translating: false, ..s }, Action::Draw)
                }
            },
            (Phase::Updating, Event::Updated(quit)) => (
                LoopState { phase: Phase::Reconciling, quitting: quit, ..s },
                Action::Reconcile,
            ),
            (Phase::Reconciling, Event::Reconciled) => {
                if s.quitting {
                    (LoopState { phase: Phase::Terminated, ..s }, Action::Shutdown)
                } else {
                    (LoopState { phase: Phase::Rendering, ..s }, Action::Draw)
                }
            },
            _ => (s, Action::Idle),
        };
        *self = t;
        a
    }
}

} // verus!
