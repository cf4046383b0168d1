use mina_logs_service::lifecycle::{step, ServerAction, ServerEvent, ServerState};

#[test]
fn running_accepts() {
    let (state, action) = step(ServerState::Running { in_flight: 0 }, ServerEvent::Connected);
    assert_eq!(state, ServerState::Running { in_flight: 1 });
    assert_eq!(action, ServerAction::Accept);
}

#[test]
fn shutdown_completes_in_flight_request() {
    // one request is in flight when the signal fires
    let (state, action) = step(
        ServerState::Running { in_flight: 1 },
        ServerEvent::ShutdownSignal,
    );
    assert_eq!(state, ServerState::Draining { in_flight: 1 });
    assert_eq!(action, ServerAction::Continue);

    // a new connection is no longer accepted
    let (state, action) = step(state, ServerEvent::Connected);
    assert_eq!(state, ServerState::Draining { in_flight: 1 });
    assert_eq!(action, ServerAction::Refuse);

    // the in-flight request still finishes, then the task exits
    let (state, action) = step(state, ServerEvent::RequestCompleted);
    assert_eq!(state, ServerState::Stopped);
    assert_eq!(action, ServerAction::Exit);

    // and stays down
    let (state, action) = step(state, ServerEvent::Connected);
    assert_eq!(state, ServerState::Stopped);
    assert_eq!(action, ServerAction::Refuse);
}

#[test]
fn idle_shutdown_exits_at_once() {
    let (state, action) = step(
        ServerState::Running { in_flight: 0 },
        ServerEvent::ShutdownSignal,
    );
    assert_eq!(state, ServerState::Stopped);
    assert_eq!(action, ServerAction::Exit);
}
