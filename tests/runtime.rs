use tear::flag::QuitFlag;
use tear::runtime::{Action, Event, Inbound, Incoming, LoopState, Phase};

fn waiting() -> LoopState {
    let mut s = LoopState::start();
    assert_eq!(s.step(Event::Initialized), Action::Draw);
    assert_eq!(s.step(Event::Drawn), Action::Receive);
    s
}

#[test]
fn start_draws_then_waits() {
    let s = waiting();
    assert_eq!(s.phase, Phase::AwaitingMessage);
    assert!(!s.finished());
}

#[test]
fn command_message_causes_one_update() {
    let mut s = waiting();
    let msg: Incoming<&str, u8> = Incoming::User("Tick");
    let mut updates = 0;
    let mut a = s.step(Event::Received(msg.source()));
    loop {
        match a {
            Action::Update => {
                updates += 1;
                a = s.step(Event::Updated(false));
            }
            Action::Reconcile => a = s.step(Event::Reconciled),
            _ => break,
        }
    }
    assert_eq!(updates, 1);
    assert_eq!(a, Action::Draw);
    assert_eq!(s.phase, Phase::Rendering);
}

#[test]
fn ignored_raw_event_renders_without_update() {
    let mut s = waiting();
    let raw: Incoming<&str, u8> = Incoming::External(7);
    assert_eq!(raw.source(), Inbound::External);
    assert_eq!(s.step(Event::Received(raw.source())), Action::MapEvent);
    assert_eq!(s.step(Event::Mapped(false)), Action::Draw);
    assert_eq!(s.phase, Phase::Rendering);
    assert!(!s.translating);
}

#[test]
fn translated_raw_event_updates() {
    let mut s = waiting();
    assert_eq!(s.step(Event::Received(Inbound::External)), Action::MapEvent);
    assert_eq!(s.step(Event::Mapped(true)), Action::Update);
    assert_eq!(s.phase, Phase::Updating);
}

#[test]
fn quit_reconciles_once_then_stops() {
    let quit = QuitFlag::new();
    let mut s = waiting();
    assert_eq!(s.step(Event::Received(Inbound::User)), Action::Update);
    quit.raise();
    assert_eq!(s.step(Event::Updated(quit.raised())), Action::Reconcile);
    assert_eq!(s.step(Event::Reconciled), Action::Shutdown);
    assert!(s.finished());
    assert_eq!(s.step(Event::Drawn), Action::Idle);
    assert_eq!(s.step(Event::Reconciled), Action::Idle);
    assert_eq!(s.step(Event::Received(Inbound::User)), Action::Idle);
}

#[test]
fn event_out_of_turn_is_ignored() {
    let mut s = LoopState::start();
    assert_eq!(s.step(Event::Drawn), Action::Idle);
    assert_eq!(s.phase, Phase::Initializing);
    let mut w = waiting();
    assert_eq!(w.step(Event::Mapped(true)), Action::Idle);
    assert_eq!(w.phase, Phase::AwaitingMessage);
}

#[test]
fn quit_flag_is_shared_by_clones() {
    let a = QuitFlag::new();
    let b = a.clone();
    assert!(!b.raised());
    a.raise();
    a.raise();
    assert!(a.raised());
    assert!(b.raised());
}

#[test]
fn fresh_quit_flags_are_independent() {
    let a = QuitFlag::new();
    let b = QuitFlag::new();
    a.raise();
    assert!(!b.raised());
}
