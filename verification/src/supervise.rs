//! The decisions of the top-level loops: picking an X display number, and supervising the
//! main command, the X helper and the connection handlers. The caller performs each
//! action (file, socket and process calls) and reports what happened as the next event.
use vstd::prelude::*;

verus! {

/// The number of X display numbers tried: `0..255`.
pub const X_DISPLAY_COUNT: u8 = 255;

/// What happened when a display number was tried.
#[derive(Debug, Clone, Copy, PartialEq, Eq, Structural)]
pub enum XDisplayEvent {
    /// Its lock file already exists.
    LockExists,
    /// Creating its lock file failed for another reason.
    LockFailed,
    /// The lock file was created, but writing the pid into it failed.
    LockWriteFailed,
    /// The lock file was written, but one of its socket addresses is in use.
    SocketInUse,
    /// The lock file was written, but binding a socket failed for another reason.
    SocketFailed,
    /// The lock file was written and every socket bound.
    Bound,
}

/// Why no X display could be set up.
#[derive(Debug, Clone, Copy, PartialEq, Eq, Structural)]
pub enum XDisplayFailure {
    LockFailed,
    LockWriteFailed,
    SocketFailed,
    /// Every display number was taken.
    Exhausted,
}

/// What to do after trying a display number.
#[derive(Debug, Clone, Copy, PartialEq, Eq, Structural)]
pub enum XDisplayNext {
    /// Try this display number.
    Try(u8),
    /// Use this display number: its lock file and sockets are in place.
    Use(u8),
    /// Give up with this failure.
    Fail(XDisplayFailure),
}

/// The reaction to an attempt: whether to remove the lock file just created, then what next.
#[derive(Debug, Clone, Copy, PartialEq, Eq, Structural)]
pub struct XDisplayAction {
    pub remove_lock: bool,
    pub next: XDisplayNext,
}

/// The display number tried first.
pub const X_DISPLAY_FIRST: u8 = 0;

/// After display `display`: the next number, or giving up when none is left.
pub open spec fn after_display(display: u8) -> XDisplayNext {
    if display + 1 < X_DISPLAY_COUNT {
        XDisplayNext::Try((display + 1) as u8)
    } else {
        XDisplayNext::Fail(XDisplayFailure::Exhausted)
    }
}

/// A display whose lock file exists is skipped; one whose address is in use is skipped
/// after removing the lock file just created; other failures end the search (removing
/// the lock file if it was created); a display whose sockets all bound is used.
pub open spec fn x_display_step_spec(display: u8, event: XDisplayEvent) -> XDisplayAction {
    match event {
        XDisplayEvent::LockExists => XDisplayAction { remove_lock: false, next: after_display(display) },
        XDisplayEvent::LockFailed => XDisplayAction {
            remove_lock: false,
            next: XDisplayNext::Fail(XDisplayFailure::LockFailed),
        },
        XDisplayEvent::LockWriteFailed => XDisplayAction {
            remove_lock: true,
            next: XDisplayNext::Fail(XDisplayFailure::LockWriteFailed),
        },
        XDisplayEvent::SocketInUse => XDisplayAction { remove_lock: true, next: after_display(display) },
        XDisplayEvent::SocketFailed => XDisplayAction {
            remove_lock: true,
            next: XDisplayNext::Fail(XDisplayFailure::SocketFailed),
        },
        XDisplayEvent::Bound => XDisplayAction { remove_lock: false, next: XDisplayNext::Use(display) },
    }
}

/// Decide what follows trying display number `display` (see `x_display_step_spec`).
pub fn x_display_step(display: u8, event: XDisplayEvent) -> (a: XDisplayAction)
    requires
        display < X_DISPLAY_COUNT,
    ensures
        a == x_display_step_spec(display, event),
{
    let next = if display + 1 < X_DISPLAY_COUNT {
        XDisplayNext::Try(display + 1)
    } else {
        XDisplayNext::Fail(XDisplayFailure::Exhausted)
    };
    match event {
        XDisplayEvent::LockExists => XDisplayAction { remove_lock: false, next },
        XDisplayEvent::LockFailed => XDisplayAction {
            remove_lock: false,
            next: XDisplayNext::Fail(XDisplayFailure::LockFailed),
        },
        XDisplayEvent::LockWriteFailed => XDisplayAction {
            remove_lock: true,
            next: XDisplayNext::Fail(XDisplayFailure::LockWriteFailed),
        },
        XDisplayEvent::SocketInUse => XDisplayAction { remove_lock: true, next },
        XDisplayEvent::SocketFailed => XDisplayAction {
            remove_lock: true,
            next: XDisplayNext::Fail(XDisplayFailure::SocketFailed),
        },
        XDisplayEvent::Bound => XDisplayAction { remove_lock: false, next: XDisplayNext::Use(display) },
    }
}

/// The search moves to strictly larger display numbers, below 255, and uses only the
/// number whose sockets bound; a lock file is removed exactly when it was created and the
/// number is not used.
pub proof fn lemma_x_display_search(display: u8, event: XDisplayEvent)
    requires
        display < X_DISPLAY_COUNT,
    ensures
        x_display_step_spec(display, event).next matches XDisplayNext::Try(d) ==> display < d < X_DISPLAY_COUNT,
        x_display_step_spec(display, event).next matches XDisplayNext::Use(d) ==> d == display && event
            == XDisplayEvent::Bound,
        x_display_step_spec(display, event).remove_lock <==> (event == XDisplayEvent::LockWriteFailed || event
            == XDisplayEvent::SocketInUse || event == XDisplayEvent::SocketFailed),
{
}

/// What the wait for ended children, the poll of the listening sockets, or the starting
/// of a helper reported.
#[derive(Debug, Clone, Copy, PartialEq, Eq, Structural)]
pub enum SupervisorEvent {
    /// The child with this pid ended.
    ChildEnded(u32),
    /// No child has ended.
    NoChildEnded,
    /// There are no children left to wait for.
    NoChildren,
    /// The wait was interrupted.
    WaitInterrupted,
    /// The poll was interrupted.
    PollInterrupted,
    /// The poll returned: whether a socket reported an error, whether the Wayland (or, for
    /// the client, the channel) socket and whether an X socket have a connection waiting.
    PollReady { error: bool, wayland: bool, x: bool },
    /// The X helper was started with this pid, or failed to start.
    XStarted(Option<u32>),
    /// A connection handler was started with this pid.
    ConnectionStarted(u32),
    /// Accepting a connection failed.
    AcceptFailed,
}

/// What to do next.
#[derive(Debug, Clone, Copy, PartialEq, Eq, Structural)]
pub enum SupervisorAction {
    /// Reap the main command with this pid, then stop.
    ReapCommandAndStop(u32),
    /// Stop.
    Stop,
    /// Reap the X helper, which stopped early, then keep waiting.
    ReapXHelper(u32),
    /// Reap the connection handler with this pid, then keep waiting.
    ReapConnection(u32),
    /// Report an unexpected child with this pid, collect it if it can be, then keep waiting.
    ReportUnknownChild(u32),
    /// Wait for ended children.
    Wait,
    /// Poll the listening sockets.
    Poll,
    /// Start the X helper on the X sockets if `start_x`, then accept a connection and start
    /// its handler if `accept`; then wait.
    Serve { start_x: bool, accept: bool },
    /// Fail: a new handler has the pid of one still running.
    PidReused(u32),
}

/// The supervised processes: the main command (if any), the X helper (if running), whether
/// the X sockets are still listened on, and the connection handlers.
#[derive(Debug, Clone)]
pub struct SupervisorState {
    pub command: Option<u32>,
    pub x_helper: Option<u32>,
    pub x_listening: bool,
    pub connections: Vec<u32>,
    /// The server side (running the program) rather than the client side.
    pub is_server: bool,
}

/// The state as values.
pub struct SupervisorView {
    pub command: Option<u32>,
    pub x_helper: Option<u32>,
    pub x_listening: bool,
    pub connections: Seq<u32>,
    pub is_server: bool,
}

impl View for SupervisorState {
    type V = SupervisorView;

    open spec fn view(&self) -> SupervisorView {
        SupervisorView {
            command: self.command,
            x_helper: self.x_helper,
            x_listening: self.x_listening,
            connections: self.connections@,
            is_server: self.is_server,
        }
    }
}

/// `s` without the entries equal to `pid`.
pub open spec fn without(s: Seq<u32>, pid: u32) -> Seq<u32>
    decreases s.len(),
{
    if s.len() == 0 {
        s
    } else if s.last() == pid {
        without(s.drop_last(), pid)
    } else {
        without(s.drop_last(), pid).push(s.last())
    }
}

/// The supervisor's reaction to an event. When a child ends: if it is the main command,
/// reap it and stop; if it is the X helper, it stopped early; if it is a connection
/// handler, it is reaped and forgotten; otherwise it is reported. With no child ended,
/// the sockets are polled; with no children at all, the server stops and the client
/// polls; an interrupted wait is retried by the server and followed by a poll on the
/// client. An interrupted poll, or a poll with nothing to serve, leads back to waiting; a
/// socket error stops. A waiting X connection starts the X helper once, and the X sockets
/// are then no longer listened on. A new handler whose pid is still recorded is an error.
pub open spec fn supervisor_step_spec(s: SupervisorView, e: SupervisorEvent) -> (SupervisorView, SupervisorAction) {
    match e {
        SupervisorEvent::ChildEnded(pid) => if s.command == Some(pid) {
            (s, SupervisorAction::ReapCommandAndStop(pid))
        } else if s.x_helper == Some(pid) {
            (SupervisorView { x_helper: None, ..s }, SupervisorAction::ReapXHelper(pid))
        } else if s.connections.contains(pid) {
            (SupervisorView { connections: without(s.connections, pid), ..s }, SupervisorAction::ReapConnection(pid))
        } else {
            (s, SupervisorAction::ReportUnknownChild(pid))
        },
        SupervisorEvent::NoChildEnded => (s, SupervisorAction::Poll),
        SupervisorEvent::NoChildren => (s, if s.is_server { SupervisorAction::Stop } else { SupervisorAction::Poll }),
        SupervisorEvent::WaitInterrupted => (s, if s.is_server { SupervisorAction::Wait } else { SupervisorAction::Poll }),
        SupervisorEvent::PollInterrupted => (s, SupervisorAction::Wait),
        SupervisorEvent::PollReady { error, wayland, x } => if error {
            (s, SupervisorAction::Stop)
        } else {
            let start_x = x && s.x_listening;
            (
                SupervisorView { x_listening: s.x_listening && !start_x, ..s },
                SupervisorAction::Serve { start_x, accept: wayland },
            )
        },
        SupervisorEvent::XStarted(pid) => (SupervisorView { x_helper: pid, ..s }, SupervisorAction::Wait),
        SupervisorEvent::ConnectionStarted(pid) => if s.connections.contains(pid) {
            (s, SupervisorAction::PidReused(pid))
        } else {
            (SupervisorView { connections: s.connections.push(pid), ..s }, SupervisorAction::Wait)
        },
        SupervisorEvent::AcceptFailed => (s, SupervisorAction::Wait),
    }
}

fn contains_pid(v: &Vec<u32>, pid: u32) -> (r: bool)
    ensures
        r == v@.contains(pid),
{
    let mut i: usize = 0;
    while i < v.len()
        invariant
            i <= v.len(),
            forall|j: int| 0 <= j < i ==> v@[j] != pid,
        decreases v.len() - i,
    {
        if v[i] == pid {
            proof {
                assert(v@[i as int] == pid);
            }
            return true;
        }
        i = i + 1;
    }
    false
}

fn remove_pid(v: &Vec<u32>, pid: u32) -> (r: Vec<u32>)
    ensures
        r@ == without(v@, pid),
{
    let mut out: Vec<u32> = Vec::new();
    let mut i: usize = 0;
    while i < v.len()
        invariant
            i <= v.len(),
            out@ == without(v@.subrange(0, i as int), pid),
        decreases v.len() - i,
    {
        proof {
            assert(v@.subrange(0, i as int + 1).drop_last() =~= v@.subrange(0, i as int));
        }
        if v[i] != pid {
            out.push(v[i]);
        }
        i = i + 1;
    }
    proof {
        assert(v@.subrange(0, v@.len() as int) =~= v@);
    }
    out
}

/// The supervisor's next state and action (see `supervisor_step_spec`).
pub fn supervisor_step(s: &SupervisorState, e: SupervisorEvent) -> (r: (SupervisorState, SupervisorAction))
    ensures
        r.0@ == supervisor_step_spec(s@, e).0,
        r.1 == supervisor_step_spec(s@, e).1,
{
    let same = SupervisorState {
        command: s.command,
        x_helper: s.x_helper,
        x_listening: s.x_listening,
        connections: s.connections.clone(),
        is_server: s.is_server,
    };
    match e {
        SupervisorEvent::ChildEnded(pid) => {
            if s.command == Some(pid) {
                (same, SupervisorAction::ReapCommandAndStop(pid))
            } else if s.x_helper == Some(pid) {
                (SupervisorState { x_helper: None, ..same }, SupervisorAction::ReapXHelper(pid))
            } else if contains_pid(&s.connections, pid) {
                let rest = remove_pid(&s.connections, pid);
                (SupervisorState { connections: rest, ..same }, SupervisorAction::ReapConnection(pid))
            } else {
                (same, SupervisorAction::ReportUnknownChild(pid))
            }
        },
        SupervisorEvent::NoChildEnded => (same, SupervisorAction::Poll),
        SupervisorEvent::NoChildren => {
            let a = if s.is_server {
                SupervisorAction::Stop
            } else {
                SupervisorAction::Poll
            };
            (same, a)
        },
        SupervisorEvent::WaitInterrupted => {
            let a = if s.is_server {
                SupervisorAction::Wait
            } else {
                SupervisorAction::Poll
            };
            (same, a)
        },
        SupervisorEvent::PollInterrupted => (same, SupervisorAction::Wait),
        SupervisorEvent::PollReady { error, wayland, x } => {
            if error {
                (same, SupervisorAction::Stop)
            } else {
                let start_x = x && s.x_listening;
                (
                    SupervisorState { x_listening: s.x_listening && !start_x, ..same },
                    SupervisorAction::Serve { start_x, accept: wayland },
                )
            }
        },
        SupervisorEvent::XStarted(pid) => (SupervisorState { x_helper: pid, ..same }, SupervisorAction::Wait),
        SupervisorEvent::ConnectionStarted(pid) => {
            if contains_pid(&s.connections, pid) {
                (same, SupervisorAction::PidReused(pid))
            } else {
                let mut conns = s.connections.clone();
                conns.push(pid);
                (SupervisorState { connections: conns, ..same }, SupervisorAction::Wait)
            }
        },
        SupervisorEvent::AcceptFailed => (same, SupervisorAction::Wait),
    }
}

/// Removing a pid keeps only other entries of the sequence, and keeps them distinct.
proof fn lemma_without(s: Seq<u32>, pid: u32)
    ensures
        forall|x: u32| without(s, pid).contains(x) ==> s.contains(x) && x != pid,
        s.no_duplicates() ==> without(s, pid).no_duplicates(),
    decreases s.len(),
{
    if s.len() > 0 {
        let t = s.drop_last();
        lemma_without(t, pid);
        assert forall|x: u32| without(s, pid).contains(x) implies s.contains(x) && x != pid by {
            let w = without(t, pid);
            if s.last() == pid {
                assert(w.contains(x));
                assert(t.contains(x));
                let k = choose|k: int| 0 <= k < t.len() && t[k] == x;
                assert(t[k] == s[k]);
                assert(s[k] == x);
            } else {
                let ws = w.push(s.last());
                let j = choose|j: int| 0 <= j < ws.len() && ws[j] == x;
                if j == w.len() {
                    assert(s[s.len() - 1] == x);
                } else {
                    assert(w[j] == x);
                    assert(w.contains(x));
                    assert(t.contains(x));
                    let k = choose|k: int| 0 <= k < t.len() && t[k] == x;
                    assert(t[k] == s[k]);
                    assert(s[k] == x);
                }
            }
        }
        if s.no_duplicates() && s.last() != pid {
            assert(t.no_duplicates()) by {
                assert forall|a: int, b: int| 0 <= a < t.len() && 0 <= b < t.len() && a != b implies t[a] != t[b] by {
                    assert(s[a] == t[a] && s[b] == t[b]);
                }
            }
            let w = without(t, pid);
            assert(!w.contains(s.last())) by {
                if w.contains(s.last()) {
                    assert(t.contains(s.last()));
                    let k = choose|k: int| 0 <= k < t.len() && t[k] == s.last();
                    assert(t[k] == s[k]);
                    assert(s[k] == s[s.len() - 1]);
                }
            }
            assert forall|a: int, b: int| 0 <= a < w.push(s.last()).len() && 0 <= b < w.push(s.last()).len() && a != b
                implies w.push(s.last())[a] != w.push(s.last())[b] by {
                if a == w.len() {
                    assert(w.contains(w[b]));
                } else if b == w.len() {
                    assert(w.contains(w[a]));
                }
            }
        } else if s.no_duplicates() {
            assert(t.no_duplicates()) by {
                assert forall|a: int, b: int| 0 <= a < t.len() && 0 <= b < t.len() && a != b implies t[a] != t[b] by {
                    assert(s[a] == t[a] && s[b] == t[b]);
                }
            }
        }
    }
}

/// Every step keeps the recorded handler pids distinct, keeps the main command and the
/// side (server or client), and never listens on the X sockets again once it stopped.
pub proof fn lemma_supervisor_invariant(s: SupervisorView, e: SupervisorEvent)
    requires
        s.connections.no_duplicates(),
    ensures
        supervisor_step_spec(s, e).0.connections.no_duplicates(),
        supervisor_step_spec(s, e).0.command == s.command,
        supervisor_step_spec(s, e).0.is_server == s.is_server,
        supervisor_step_spec(s, e).0.x_listening ==> s.x_listening,
{
    match e {
        SupervisorEvent::ChildEnded(pid) => {
            lemma_without(s.connections, pid);
        },
        SupervisorEvent::ConnectionStarted(pid) => {
            if !s.connections.contains(pid) {
                let c = s.connections.push(pid);
                assert forall|a: int, b: int| 0 <= a < c.len() && 0 <= b < c.len() && a != b implies c[a] != c[b] by {
                    if a == s.connections.len() {
                        assert(s.connections.contains(c[b]) ==> c[b] != pid);
                        assert(s.connections[b] == c[b]);
                    } else if b == s.connections.len() {
                        assert(s.connections[a] == c[a]);
                    }
                }
            }
        },
        _ => {},
    }
}

} // verus!
