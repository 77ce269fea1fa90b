use maxsonar::acquisition::{AcqError, Action, Cycle, Event, Phase, ReadFault};

fn start(delay: u64) -> Cycle {
    let mut c = Cycle::new(delay);
    assert_eq!(c.step(Event::Begin), Action::AssertTrigger);
    assert_eq!(c.step(Event::TriggerSet), Action::Wait(delay));
    assert_eq!(c.step(Event::Settled), Action::OpenPort);
    assert_eq!(c.step(Event::PortOpened), Action::ReadChunk);
    c
}

fn data(b: &[u8]) -> Event {
    Event::Data(b.to_vec())
}

#[test]
fn successful_cycle() {
    let mut c = start(145);
    assert_eq!(c.step(data(b"XXR00")), Action::ReadChunk);
    assert_eq!(c.step(data(b"45\rR0")), Action::DeassertTrigger);
    assert_eq!(c.step(Event::TriggerCleared), Action::Return(Ok(45)));
    assert!(matches!(c.phase(), Phase::Finished(Ok(45))));
    assert_eq!(c.step(data(b"R0123\r")), Action::Ignore);
}

#[test]
fn timeout_does_not_abort() {
    let mut c = start(200);
    assert_eq!(c.step(data(b"R01")), Action::ReadChunk);
    assert_eq!(c.step(Event::Fault(ReadFault::TimedOut)), Action::ReadChunk);
    assert_eq!(c.step(Event::Fault(ReadFault::Transient)), Action::ReadChunk);
    assert_eq!(c.step(data(b"23\r")), Action::DeassertTrigger);
    assert_eq!(c.step(Event::TriggerCleared), Action::Return(Ok(123)));
}

#[test]
fn unusable_stream_fails_after_release() {
    let mut c = start(1);
    assert_eq!(c.step(Event::Fault(ReadFault::Unusable)), Action::DeassertTrigger);
    assert_eq!(c.step(Event::TriggerCleared), Action::Return(Err(AcqError::StreamFailed)));
}

#[test]
fn parse_failure_releases_trigger() {
    let mut c = start(1);
    assert_eq!(c.step(data(b"R12A4\r")), Action::DeassertTrigger);
    assert_eq!(c.step(Event::TriggerCleared), Action::Return(Err(AcqError::InvalidNumber)));
}

#[test]
fn port_unavailable_releases_trigger() {
    let mut c = Cycle::new(10);
    assert_eq!(c.step(Event::Begin), Action::AssertTrigger);
    assert_eq!(c.step(Event::TriggerSet), Action::Wait(10));
    assert_eq!(c.step(Event::Settled), Action::OpenPort);
    assert_eq!(c.step(Event::PortUnavailable), Action::DeassertTrigger);
    assert_eq!(c.step(Event::ClearFailed), Action::Return(Err(AcqError::PortUnavailable)));
}

#[test]
fn trigger_failure_is_hardware_error() {
    let mut c = Cycle::new(10);
    assert_eq!(c.step(Event::Begin), Action::AssertTrigger);
    assert_eq!(c.step(Event::TriggerFailed), Action::DeassertTrigger);
    assert_eq!(c.step(Event::TriggerCleared), Action::Return(Err(AcqError::Hardware)));
}

#[test]
fn clear_failure_after_success_is_hardware_error() {
    let mut c = start(1);
    assert_eq!(c.step(data(b"R0123\r")), Action::DeassertTrigger);
    assert_eq!(c.step(Event::ClearFailed), Action::Return(Err(AcqError::Hardware)));
}

#[test]
fn out_of_order_events_are_ignored() {
    let mut c = Cycle::new(10);
    assert_eq!(c.step(data(b"R0123\r")), Action::Ignore);
    assert_eq!(c.step(Event::TriggerCleared), Action::Ignore);
    assert!(matches!(c.phase(), Phase::Idle));
    assert_eq!(c.step(Event::Begin), Action::AssertTrigger);
    assert_eq!(c.step(Event::Begin), Action::Ignore);
}

#[test]
fn trigger_asserted_and_deasserted_once() {
    let events = vec![
        Event::Begin,
        Event::Begin,
        Event::TriggerSet,
        Event::Settled,
        Event::PortOpened,
        Event::Fault(ReadFault::TimedOut),
        data(b"R9"),
        Event::TriggerCleared,
        data(b"999\r"),
        Event::TriggerCleared,
        Event::TriggerCleared,
        Event::Begin,
    ];
    let mut c = Cycle::new(5);
    let acts: Vec<Action> = events.into_iter().map(|e| c.step(e)).collect();
    let asserts: Vec<usize> =
        (0..acts.len()).filter(|&i| acts[i] == Action::AssertTrigger).collect();
    let deasserts: Vec<usize> =
        (0..acts.len()).filter(|&i| acts[i] == Action::DeassertTrigger).collect();
    let returns: Vec<usize> =
        (0..acts.len()).filter(|&i| matches!(acts[i], Action::Return(_))).collect();
    assert_eq!(asserts.len(), 1);
    assert_eq!(deasserts.len(), 1);
    assert_eq!(returns.len(), 1);
    assert!(asserts[0] < deasserts[0] && deasserts[0] < returns[0]);
    assert_eq!(acts[returns[0]], Action::Return(Ok(9999)));
}
