use crossbeam_channel::unbounded;
use redisless::lifecycle::{await_confirmation, expected_confirmation, is_start_request,
    is_stop_request, wait_outcome};
use redisless::ServerState;

#[test]
fn test_expected_confirmation() {
    assert!(matches!(
        expected_confirmation(&ServerState::Start),
        Some(ServerState::Started)
    ));
    assert!(matches!(
        expected_confirmation(&ServerState::Stop),
        Some(ServerState::Stopped)
    ));
    assert!(expected_confirmation(&ServerState::Started).is_none());
    assert!(expected_confirmation(&ServerState::Timeout).is_none());
    assert!(expected_confirmation(&ServerState::Error(String::from("x"))).is_none());
}

#[test]
fn test_wait_outcome_routes_error_through() {
    let outcome = wait_outcome(&ServerState::Started, ServerState::Error(String::from("bind failed")));
    match outcome {
        ServerState::Error(m) => assert_eq!(m, "bind failed"),
        _ => panic!("expected the error to be routed through"),
    }
    assert!(matches!(
        wait_outcome(&ServerState::Started, ServerState::Started),
        ServerState::Started
    ));
    assert!(matches!(
        wait_outcome(&ServerState::Stopped, ServerState::Stopped),
        ServerState::Stopped
    ));
    assert!(matches!(
        wait_outcome(&ServerState::Started, ServerState::Stopped),
        ServerState::Timeout
    ));
    assert!(matches!(
        wait_outcome(&ServerState::Stopped, ServerState::Start),
        ServerState::Timeout
    ));
}

#[test]
fn test_request_predicates() {
    assert!(is_start_request(&ServerState::Start));
    assert!(!is_start_request(&ServerState::Stop));
    assert!(!is_start_request(&ServerState::Started));
    assert!(is_stop_request(&ServerState::Stop));
    assert!(!is_stop_request(&ServerState::Start));
    assert!(!is_stop_request(&ServerState::Stopped));
}

#[test]
fn test_await_confirmation_receives_confirmation() {
    let (tx, rx) = unbounded::<ServerState>();
    tx.send(ServerState::Started).unwrap();
    let outcome = await_confirmation(&rx, &ServerState::Started, 1000);
    assert!(matches!(outcome, ServerState::Started));
}

#[test]
fn test_await_confirmation_times_out_on_silence() {
    let (_tx, rx) = unbounded::<ServerState>();
    let outcome = await_confirmation(&rx, &ServerState::Stopped, 20);
    assert!(matches!(outcome, ServerState::Timeout));
}

#[test]
fn test_await_confirmation_surfaces_error() {
    let (tx, rx) = unbounded::<ServerState>();
    tx.send(ServerState::Error(String::from("address already in use"))).unwrap();
    let outcome = await_confirmation(&rx, &ServerState::Started, 1000);
    match outcome {
        ServerState::Error(m) => assert_eq!(m, "address already in use"),
        _ => panic!("expected the error, not a timeout"),
    }
}
