use waypipe_core::supervise::{
    supervisor_step, x_display_step, SupervisorAction, SupervisorEvent, SupervisorState, XDisplayAction,
    XDisplayEvent, XDisplayFailure, XDisplayNext, X_DISPLAY_FIRST,
};

fn act(remove_lock: bool, next: XDisplayNext) -> XDisplayAction {
    XDisplayAction { remove_lock, next }
}

#[test]
fn x_display_search_skips_taken_numbers() {
    assert_eq!(X_DISPLAY_FIRST, 0);
    assert_eq!(x_display_step(0, XDisplayEvent::LockExists), act(false, XDisplayNext::Try(1)));
    assert_eq!(x_display_step(1, XDisplayEvent::SocketInUse), act(true, XDisplayNext::Try(2)));
    assert_eq!(x_display_step(2, XDisplayEvent::Bound), act(false, XDisplayNext::Use(2)));
}

#[test]
fn x_display_search_stops_on_errors() {
    assert_eq!(
        x_display_step(3, XDisplayEvent::LockFailed),
        act(false, XDisplayNext::Fail(XDisplayFailure::LockFailed))
    );
    assert_eq!(
        x_display_step(3, XDisplayEvent::LockWriteFailed),
        act(true, XDisplayNext::Fail(XDisplayFailure::LockWriteFailed))
    );
    assert_eq!(
        x_display_step(3, XDisplayEvent::SocketFailed),
        act(true, XDisplayNext::Fail(XDisplayFailure::SocketFailed))
    );
}

#[test]
fn x_display_search_ends_after_254() {
    assert_eq!(x_display_step(253, XDisplayEvent::LockExists), act(false, XDisplayNext::Try(254)));
    assert_eq!(
        x_display_step(254, XDisplayEvent::LockExists),
        act(false, XDisplayNext::Fail(XDisplayFailure::Exhausted))
    );
    assert_eq!(
        x_display_step(254, XDisplayEvent::SocketInUse),
        act(true, XDisplayNext::Fail(XDisplayFailure::Exhausted))
    );
}

fn server() -> SupervisorState {
    SupervisorState { command: Some(100), x_helper: None, x_listening: true, connections: vec![], is_server: true }
}

#[test]
fn server_serves_connections_and_stops_with_its_command() {
    let s = server();
    let (s, a) = supervisor_step(&s, SupervisorEvent::NoChildEnded);
    assert_eq!(a, SupervisorAction::Poll);
    let (s, a) = supervisor_step(&s, SupervisorEvent::PollReady { error: false, wayland: true, x: true });
    assert_eq!(a, SupervisorAction::Serve { start_x: true, accept: true });
    assert!(!s.x_listening);
    let (s, a) = supervisor_step(&s, SupervisorEvent::XStarted(Some(200)));
    assert_eq!(a, SupervisorAction::Wait);
    assert_eq!(s.x_helper, Some(200));
    let (s, a) = supervisor_step(&s, SupervisorEvent::ConnectionStarted(300));
    assert_eq!(a, SupervisorAction::Wait);
    let (s, a) = supervisor_step(&s, SupervisorEvent::ConnectionStarted(301));
    assert_eq!(a, SupervisorAction::Wait);
    assert_eq!(s.connections, vec![300, 301]);
    // The X sockets are served once only.
    let (s, a) = supervisor_step(&s, SupervisorEvent::PollReady { error: false, wayland: false, x: true });
    assert_eq!(a, SupervisorAction::Serve { start_x: false, accept: false });
    let (s, a) = supervisor_step(&s, SupervisorEvent::ChildEnded(300));
    assert_eq!(a, SupervisorAction::ReapConnection(300));
    assert_eq!(s.connections, vec![301]);
    let (s, a) = supervisor_step(&s, SupervisorEvent::ChildEnded(200));
    assert_eq!(a, SupervisorAction::ReapXHelper(200));
    assert_eq!(s.x_helper, None);
    let (s, a) = supervisor_step(&s, SupervisorEvent::ChildEnded(999));
    assert_eq!(a, SupervisorAction::ReportUnknownChild(999));
    let (_, a) = supervisor_step(&s, SupervisorEvent::ChildEnded(100));
    assert_eq!(a, SupervisorAction::ReapCommandAndStop(100));
}

#[test]
fn pid_reuse_is_an_error() {
    let mut s = server();
    s.connections = vec![7];
    let (s2, a) = supervisor_step(&s, SupervisorEvent::ConnectionStarted(7));
    assert_eq!(a, SupervisorAction::PidReused(7));
    assert_eq!(s2.connections, vec![7]);
}

#[test]
fn server_and_client_differ_on_wait_outcomes() {
    let s = server();
    assert_eq!(supervisor_step(&s, SupervisorEvent::NoChildren).1, SupervisorAction::Stop);
    assert_eq!(supervisor_step(&s, SupervisorEvent::WaitInterrupted).1, SupervisorAction::Wait);
    let c = SupervisorState { command: None, x_helper: None, x_listening: false, connections: vec![], is_server: false };
    assert_eq!(supervisor_step(&c, SupervisorEvent::NoChildren).1, SupervisorAction::Poll);
    assert_eq!(supervisor_step(&c, SupervisorEvent::WaitInterrupted).1, SupervisorAction::Poll);
    assert_eq!(supervisor_step(&c, SupervisorEvent::PollInterrupted).1, SupervisorAction::Wait);
    assert_eq!(
        supervisor_step(&c, SupervisorEvent::PollReady { error: true, wayland: true, x: false }).1,
        SupervisorAction::Stop
    );
    assert_eq!(supervisor_step(&c, SupervisorEvent::AcceptFailed).1, SupervisorAction::Wait);
}
