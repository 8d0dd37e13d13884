//! The service: what it does with its listener, its connections and its configuration, one step
//! at a time. Taking the steps is the caller's part.

use std::collections::VecDeque;
use std::sync::Arc;
use vstd::prelude::*;
use vstd::string::StringExecFns;

use crate::config::{check_fips_environment, fips_error, KernelFips, RuntimeConfig};
use crate::text::concat2;

verus! {

// Workers.

pub const MIN_WORKERS: usize = 2;

pub const MAX_WORKERS: usize = 32;

/// How many workers there are where the machine does not tell what it can do at once.
pub const USUAL_WORKERS: usize = 4;

pub open spec fn workers_for(available: Option<usize>) -> usize {
    let n = match available {
        Some(n) => n,
        None => USUAL_WORKERS,
    };
    if n < MIN_WORKERS {
        MIN_WORKERS
    } else if n > MAX_WORKERS {
        MAX_WORKERS
    } else {
        n
    }
}

/// The number of workers, for what the machine can do at once.
pub fn worker_count(available: Option<usize>) -> (r: usize)
    ensures
        r == workers_for(available),
        MIN_WORKERS <= r <= MAX_WORKERS,
{
    let n: usize = match available {
        Some(n) => n,
        None => USUAL_WORKERS,
    };
    if n < MIN_WORKERS {
        MIN_WORKERS
    } else if n > MAX_WORKERS {
        MAX_WORKERS
    } else {
        n
    }
}

/// How many connections may wait for a worker.
pub fn queue_capacity(workers: usize) -> (r: usize)
    requires
        workers * 2 <= usize::MAX,
    ensures
        r == workers * 2,
{
    workers * 2
}

/// Connections that wait for a worker, in the order in which they came.
pub struct Backlog<T> {
    items: VecDeque<T>,
    capacity: usize,
    closed: bool,
}

pub struct BacklogView<T> {
    pub waiting: Seq<T>,
    /// The most that may wait.
    pub capacity: usize,
    /// Whether none will be added any more.
    pub closed: bool,
}

impl<T> View for Backlog<T> {
    type V = BacklogView<T>;

    closed spec fn view(&self) -> BacklogView<T> {
        BacklogView { waiting: self.items@, capacity: self.capacity, closed: self.closed }
    }
}

impl<T> BacklogView<T> {
    /// No more wait than may.
    pub open spec fn bounded(self) -> bool {
        self.waiting.len() <= self.capacity
    }

    pub open spec fn is_full(self) -> bool {
        self.waiting.len() >= self.capacity
    }

    /// The backlog after one more was offered: it waits last, if it may wait.
    pub open spec fn offered(self, item: T) -> BacklogView<T> {
        if self.is_full() || self.closed {
            self
        } else {
            BacklogView { waiting: self.waiting.push(item), ..self }
        }
    }

    /// The backlog without the one that waited longest.
    pub open spec fn taken(self) -> BacklogView<T> {
        if self.waiting.len() == 0 {
            self
        } else {
            BacklogView { waiting: self.waiting.skip(1), ..self }
        }
    }
}

impl<T> Backlog<T> {
    /// A backlog for so many workers, in which none wait.
    pub fn new(workers: usize) -> (r: Self)
        requires
            workers * 2 <= usize::MAX,
        ensures
            r@ == (BacklogView {
                waiting: Seq::<T>::empty(),
                capacity: (workers * 2) as usize,
                closed: false,
            }),
    {
        Backlog { items: VecDeque::new(), capacity: queue_capacity(workers), closed: false }
    }

    /// Lets one more wait, or gives it back if it may not.
    pub fn offer(&mut self, item: T) -> (r: Option<T>)
        ensures
            final(self)@ == old(self)@.offered(item),
            r == if old(self)@.is_full() || old(self)@.closed {
                Some(item)
            } else {
                None
            },
    {
        if self.closed || self.items.len() >= self.capacity {
            return Some(item);
        }
        self.items.push_back(item);
        None
    }

    /// Takes out the one that waited longest.
    pub fn take(&mut self) -> (r: Option<T>)
        ensures
            final(self)@ == old(self)@.taken(),
            r == if old(self)@.waiting.len() == 0 {
                None
            } else {
                Some(old(self)@.waiting[0])
            },
    {
        let r = self.items.pop_front();
        assert(self@.waiting =~= old(self)@.taken().waiting);
        r
    }

    /// Notes that none will be added any more.
    pub fn close(&mut self)
        ensures
            final(self)@ == (BacklogView { closed: true, ..old(self)@ }),
    {
        self.closed = true;
    }

    pub fn is_closed(&self) -> (r: bool)
        ensures
            r == self@.closed,
    {
        self.closed
    }
}

/// However many workers there are, no more connections wait than twice as many, and never more
/// than 64. One that comes when so many wait is given back, those that wait stay in their order,
/// and the service goes on.
pub proof fn law_waiting_connections_are_bounded<T>(
    available: Option<usize>,
    backlog: BacklogView<T>,
    item: T,
    shutdown: bool,
)
    requires
        backlog.capacity == workers_for(available) * 2,
        backlog.bounded(),
    ensures
        backlog.capacity <= 64,
        backlog.offered(item).bounded(),
        backlog.taken().bounded(),
        backlog.is_full() ==> backlog.offered(item) == backlog,
        serve_next(ServeState::Queueing, shutdown, ServeEvent::QueueFull) == (
            ServeState::Polling,
            ServeView::Wait(0),
        ),
{
}

// The listener.

/// The mode of the socket file: its owner and its group may connect.
pub const SOCKET_MODE: u32 = 0o660;

/// Where to listen: a socket file, by its path, or a TCP address, by its text.
pub struct Place {
    pub unix: bool,
    pub name: String,
}

#[derive(Clone, Copy, PartialEq, Eq, Structural, Debug)]
pub enum BindState {
    Starting,
    Inspecting,
    Removing,
    Binding,
    Permitting,
    Configuring,
}

/// What came of a step.
pub enum BindEvent {
    Start,
    /// There is nothing at the path.
    Missing,
    /// There is a socket at the path.
    Socket,
    /// There is something else at the path.
    Other,
    Done,
    Failed(String),
}

/// A step to be taken.
pub enum BindAction {
    /// Tell what is at the path.
    Inspect,
    Remove,
    Bind,
    /// Give the socket file its mode.
    Permit,
    /// Let the listener never block.
    Configure,
    Finish(Result<(), String>),
}

pub enum BindView {
    Inspect,
    Remove,
    Bind,
    Permit,
    Configure,
    Finish(Result<(), Seq<char>>),
}

impl View for BindAction {
    type V = BindView;

    open spec fn view(&self) -> BindView {
        match self {
            BindAction::Inspect => BindView::Inspect,
            BindAction::Remove => BindView::Remove,
            BindAction::Bind => BindView::Bind,
            BindAction::Permit => BindView::Permit,
            BindAction::Configure => BindView::Configure,
            BindAction::Finish(Ok(())) => BindView::Finish(Ok(())),
            BindAction::Finish(Err(error)) => BindView::Finish(Err(error@)),
        }
    }
}

pub open spec fn bind_failure(
    unix: bool,
    name: Seq<char>,
    state: BindState,
    cause: Seq<char>,
) -> Seq<char> {
    match state {
        BindState::Removing => "cannot remove stale socket "@ + name + ": "@ + cause,
        BindState::Permitting => "cannot set permissions on "@ + name + ": "@ + cause,
        BindState::Configuring => if unix {
            "cannot configure Unix listener: "@ + cause
        } else {
            "cannot configure TCP listener: "@ + cause
        },
        _ => if unix {
            "cannot bind Unix socket "@ + name + ": "@ + cause
        } else {
            "cannot bind TCP listener "@ + name + ": "@ + cause
        },
    }
}

/// The step after one has come to something. Only a socket makes way for the new one.
pub open spec fn bind_next(
    unix: bool,
    name: Seq<char>,
    state: BindState,
    event: BindEvent,
) -> (BindState, BindView) {
    match state {
        BindState::Starting => if unix {
            (BindState::Inspecting, BindView::Inspect)
        } else {
            (BindState::Binding, BindView::Bind)
        },
        BindState::Inspecting => match event {
            BindEvent::Socket => (BindState::Removing, BindView::Remove),
            BindEvent::Other => (
                state,
                BindView::Finish(Err("refusing to replace non-socket path "@ + name)),
            ),
            _ => (BindState::Binding, BindView::Bind),
        },
        _ => match event {
            BindEvent::Failed(cause) => (
                state,
                BindView::Finish(Err(bind_failure(unix, name, state, cause@))),
            ),
            _ => match state {
                BindState::Removing => (BindState::Binding, BindView::Bind),
                BindState::Binding => if unix {
                    (BindState::Permitting, BindView::Permit)
                } else {
                    (BindState::Configuring, BindView::Configure)
                },
                BindState::Permitting => (BindState::Configuring, BindView::Configure),
                _ => (state, BindView::Finish(Ok(()))),
            },
        },
    }
}

fn bind_error(place: &Place, state: BindState, cause: &str) -> (r: String)
    ensures
        r@ == bind_failure(place.unix, place.name@, state, cause@),
{
    if let BindState::Configuring = state {
        return if place.unix {
            concat2("cannot configure Unix listener: ", cause)
        } else {
            concat2("cannot configure TCP listener: ", cause)
        };
    }
    let what = match state {
        BindState::Removing => "cannot remove stale socket ",
        BindState::Permitting => "cannot set permissions on ",
        _ => if place.unix {
            "cannot bind Unix socket "
        } else {
            "cannot bind TCP listener "
        },
    };
    let mut error = concat2(what, place.name.as_str());
    error.append(": ");
    error.append(cause);
    error
}

/// Takes what came of the last step of making a listener, and gives the next.
pub fn bind(place: &Place, state: BindState, event: BindEvent) -> (r: (BindState, BindAction))
    ensures
        (r.0, r.1@) == bind_next(place.unix, place.name@, state, event),
{
    match state {
        BindState::Starting => if place.unix {
            (BindState::Inspecting, BindAction::Inspect)
        } else {
            (BindState::Binding, BindAction::Bind)
        },
        BindState::Inspecting => match event {
            BindEvent::Socket => (BindState::Removing, BindAction::Remove),
            BindEvent::Other => {
                let error = concat2("refusing to replace non-socket path ", place.name.as_str());
                (state, BindAction::Finish(Err(error)))
            },
            _ => (BindState::Binding, BindAction::Bind),
        },
        _ => match event {
            BindEvent::Failed(cause) => (
                state,
                BindAction::Finish(Err(bind_error(place, state, cause.as_str()))),
            ),
            _ => match state {
                BindState::Removing => (BindState::Binding, BindAction::Bind),
                BindState::Binding => if place.unix {
                    (BindState::Permitting, BindAction::Permit)
                } else {
                    (BindState::Configuring, BindAction::Configure)
                },
                BindState::Permitting => (BindState::Configuring, BindAction::Configure),
                _ => (state, BindAction::Finish(Ok(()))),
            },
        },
    }
}

/// Nothing but a socket is ever removed to make way for the listener; a TCP listener removes
/// nothing.
pub proof fn law_only_sockets_are_removed(
    unix: bool,
    name: Seq<char>,
    state: BindState,
    event: BindEvent,
)
    ensures
        bind_next(unix, name, state, event).1 is Remove ==> state is Inspecting && event is Socket,
        state is Starting && !unix ==> bind_next(unix, name, state, event).0 is Binding,
        state is Inspecting && event is Other ==> bind_next(unix, name, state, event).1 is Finish,
{
}

/// A socket file is ready only once it has its mode.
pub proof fn law_socket_files_have_their_mode(name: Seq<char>, state: BindState, event: BindEvent)
    ensures
        bind_next(true, name, state, event).1 == BindView::Finish(Ok(())) ==> state
            is Configuring,
        bind_next(true, name, state, event).0 is Configuring && !(state is Configuring) ==> state
            is Permitting && !(event is Failed),
{
}

// Connections.

/// How long, in milliseconds, the listener is waited for before the service looks whether it is
/// to stop.
pub const WAIT_MILLIS: u64 = 100;

#[derive(Clone, Copy, PartialEq, Eq, Structural, Debug)]
pub enum ServeState {
    Starting,
    Waiting,
    Accepting,
    Queueing,
    Polling,
}

/// What came of a step.
pub enum ServeEvent {
    Start,
    Ready,
    NotReady,
    WaitFailed(String),
    Accepted,
    /// There was no connection after all.
    WouldBlock,
    AcceptFailed(String),
    Queued,
    /// As many connections wait for a worker as may.
    QueueFull,
}

/// A step to be taken.
pub enum ServeAction {
    /// Wait for the listener, for so many milliseconds.
    Wait(u64),
    Accept,
    /// Hand the connection to the workers, or drop it.
    Queue,
    Stop(Result<(), String>),
}

pub enum ServeView {
    Wait(u64),
    Accept,
    Queue,
    Stop(Result<(), Seq<char>>),
}

impl View for ServeAction {
    type V = ServeView;

    open spec fn view(&self) -> ServeView {
        match self {
            ServeAction::Wait(millis) => ServeView::Wait(*millis),
            ServeAction::Accept => ServeView::Accept,
            ServeAction::Queue => ServeView::Queue,
            ServeAction::Stop(Ok(())) => ServeView::Stop(Ok(())),
            ServeAction::Stop(Err(error)) => ServeView::Stop(Err(error@)),
        }
    }
}

/// The step where no connection is at hand.
pub open spec fn serve_top(shutdown: bool) -> (ServeState, ServeView) {
    if shutdown {
        (ServeState::Starting, ServeView::Stop(Ok(())))
    } else {
        (ServeState::Waiting, ServeView::Wait(WAIT_MILLIS))
    }
}

/// The step after one has come to something; `shutdown` tells whether the service is to stop.
pub open spec fn serve_next(
    state: ServeState,
    shutdown: bool,
    event: ServeEvent,
) -> (ServeState, ServeView) {
    match state {
        ServeState::Starting => serve_top(shutdown),
        ServeState::Waiting => match event {
            ServeEvent::Ready => if shutdown {
                serve_top(shutdown)
            } else {
                (ServeState::Accepting, ServeView::Accept)
            },
            ServeEvent::WaitFailed(cause) => (
                state,
                ServeView::Stop(Err("listener readiness failed: "@ + cause@)),
            ),
            _ => serve_top(shutdown),
        },
        ServeState::Accepting => match event {
            ServeEvent::Accepted => (ServeState::Queueing, ServeView::Queue),
            ServeEvent::AcceptFailed(cause) => if shutdown {
                serve_top(shutdown)
            } else {
                (state, ServeView::Stop(Err("listener failed: "@ + cause@)))
            },
            _ => serve_top(shutdown),
        },
        ServeState::Queueing => (ServeState::Polling, ServeView::Wait(0)),
        ServeState::Polling => match event {
            ServeEvent::Ready => (ServeState::Accepting, ServeView::Accept),
            ServeEvent::WaitFailed(cause) => (
                state,
                ServeView::Stop(Err("listener readiness failed: "@ + cause@)),
            ),
            _ => serve_top(shutdown),
        },
    }
}

/// What is reported of an event, if anything.
pub open spec fn serve_report(state: ServeState, event: ServeEvent) -> Option<Seq<char>> {
    if state is Queueing && event is QueueFull {
        Some("worker queue full; dropping milter connection"@)
    } else {
        None
    }
}

fn top(shutdown: bool) -> (r: (ServeState, ServeAction))
    ensures
        (r.0, r.1@) == serve_top(shutdown),
{
    if shutdown {
        (ServeState::Starting, ServeAction::Stop(Ok(())))
    } else {
        (ServeState::Waiting, ServeAction::Wait(WAIT_MILLIS))
    }
}

/// Takes what came of the last step of serving, and gives the next, with what is to be reported.
pub fn serve(state: ServeState, shutdown: bool, event: ServeEvent) -> (r: (
    ServeState,
    ServeAction,
    Option<String>,
))
    ensures
        (r.0, r.1@) == serve_next(state, shutdown, event),
        match r.2 {
            Some(report) => serve_report(state, event) == Some(report@),
            None => serve_report(state, event) is None,
        },
{
    if let ServeState::Queueing = state {
        let report = if let ServeEvent::QueueFull = event {
            Some("worker queue full; dropping milter connection".to_owned())
        } else {
            None
        };
        return (ServeState::Polling, ServeAction::Wait(0), report);
    }
    let (state, action) = match state {
        ServeState::Waiting => match event {
            ServeEvent::Ready => if shutdown {
                top(shutdown)
            } else {
                (ServeState::Accepting, ServeAction::Accept)
            },
            ServeEvent::WaitFailed(cause) => {
                let error = concat2("listener readiness failed: ", cause.as_str());
                (state, ServeAction::Stop(Err(error)))
            },
            _ => top(shutdown),
        },
        ServeState::Accepting => match event {
            ServeEvent::Accepted => (ServeState::Queueing, ServeAction::Queue),
            ServeEvent::AcceptFailed(cause) => if shutdown {
                top(shutdown)
            } else {
                let error = concat2("listener failed: ", cause.as_str());
                (state, ServeAction::Stop(Err(error)))
            },
            _ => top(shutdown),
        },
        ServeState::Polling => match event {
            ServeEvent::Ready => (ServeState::Accepting, ServeAction::Accept),
            ServeEvent::WaitFailed(cause) => {
                let error = concat2("listener readiness failed: ", cause.as_str());
                (state, ServeAction::Stop(Err(error)))
            },
            _ => top(shutdown),
        },
        _ => top(shutdown),
    };
    (state, action, None)
}

/// Whether a worker handles a connection that it received, or stops.
pub fn worker_handles(received: bool, shutdown: bool) -> (r: bool)
    ensures
        r == (received && !shutdown),
{
    received && !shutdown
}

/// The result of the service once it has stopped without an error and its workers have ended.
pub fn workers_ended(panicked: bool) -> (r: Result<(), String>)
    ensures
        match r {
            Ok(()) => !panicked,
            Err(error) => panicked && error@ == "milter worker thread panicked"@,
        },
{
    if panicked {
        Err("milter worker thread panicked".to_owned())
    } else {
        Ok(())
    }
}

/// The service never waits longer than the limit. Once it is to stop, it does not wait at all,
/// and stops as soon as no connection is at hand.
pub proof fn law_shutdown_is_prompt(state: ServeState, shutdown: bool, event: ServeEvent)
    ensures
        serve_next(state, shutdown, event).1 matches ServeView::Wait(millis) ==> millis
            <= 100 && (shutdown ==> millis == 0 && state is Queueing),
        shutdown && (state is Starting || state is Waiting) ==> serve_next(
            state,
            shutdown,
            event,
        ).1 is Stop,
        shutdown && state is Polling && !(event is Ready) ==> serve_next(state, shutdown, event).1
            is Stop,
{
}

/// Every connection that is accepted goes to the workers, and a full queue does not stop the
/// service.
pub proof fn law_accepted_connections_are_queued(
    state: ServeState,
    shutdown: bool,
    event: ServeEvent,
)
    ensures
        state is Accepting && event is Accepted <==> serve_next(state, shutdown, event).1 is Queue,
        event is QueueFull ==> !(serve_next(state, shutdown, event).1 matches ServeView::Stop(
            Err(_),
        )),
{
}

// The daemon.

/// What the daemon does with its configuration.
pub enum Startup {
    /// Say that the configuration is valid.
    Report(String),
    Serve(RuntimeConfig),
}

/// Decides whether the daemon starts, from its configuration and from FIPS mode.
pub fn startup(
    loaded: Result<RuntimeConfig, String>,
    kernel: &KernelFips,
    openssl_enabled: bool,
    check_only: bool,
) -> (r: Result<Startup, String>)
    ensures
        match loaded {
            Err(error) => r == Err::<Startup, String>(error),
            Ok(config) => if config.require_fips && fips_error(*kernel, openssl_enabled) is Some {
                r matches Err(error) && fips_error(*kernel, openssl_enabled) == Some(error@)
            } else if check_only {
                r matches Ok(Startup::Report(text)) && text@ == "configuration valid"@
            } else {
                r == Ok::<Startup, String>(Startup::Serve(config))
            },
        },
{
    let config = match loaded {
        Ok(config) => config,
        Err(error) => return Err(error),
    };
    match check_fips_environment(config.require_fips, kernel, openssl_enabled) {
        Ok(()) => {},
        Err(error) => return Err(error),
    }
    if check_only {
        Ok(Startup::Report("configuration valid".to_owned()))
    } else {
        Ok(Startup::Serve(config))
    }
}

/// What the daemon does each time it looks at its signals.
#[derive(Clone, Copy, PartialEq, Eq, Structural, Debug)]
pub enum MonitorAction {
    Stop,
    /// Reload the configuration, then sleep.
    Reload,
    Sleep,
}

/// Decides on the signals that came.
pub fn run_monitor(shutdown: bool, reload: bool) -> (r: MonitorAction)
    ensures
        r == if shutdown {
            MonitorAction::Stop
        } else if reload {
            MonitorAction::Reload
        } else {
            MonitorAction::Sleep
        },
{
    if shutdown {
        MonitorAction::Stop
    } else if reload {
        MonitorAction::Reload
    } else {
        MonitorAction::Sleep
    }
}

/// Carries out a reload that was decided on: the configuration that is active from now on, and
/// what is to be reported. Where the reload was refused, that is the one that was active.
pub fn reloaded(active: Arc<RuntimeConfig>, decision: Result<RuntimeConfig, String>) -> (r: (
    Arc<RuntimeConfig>,
    String,
))
    ensures
        match decision {
            Ok(config) => *r.0 == config && r.1@ == "configuration reloaded"@,
            Err(error) => r.0 == active && r.1@ == "reload rejected: "@ + error@,
        },
{
    match decision {
        Ok(config) => (Arc::new(config), "configuration reloaded".to_owned()),
        Err(error) => (active, concat2("reload rejected: ", error.as_str())),
    }
}

// What is done.

/// There are as many workers as the machine can do at once, but not under 2 or over 32, and 4 where
/// it does not tell.
pub proof fn law_workers_follow_the_machine(n: usize)
    ensures
        workers_for(None) == 4,
        2 <= n <= 32 ==> workers_for(Some(n)) == n,
        n < 2 ==> workers_for(Some(n)) == 2,
        n > 32 ==> workers_for(Some(n)) == 32,
{
}

/// A socket file is made where nothing is or a socket was, which is removed first: the listener is
/// bound, gets its mode and its settings, and is ready. A TCP listener is bound, gets its settings,
/// and is ready.
pub proof fn law_listeners_are_made(name: Seq<char>, event: BindEvent)
    ensures
        bind_next(true, name, BindState::Starting, event) == (
            BindState::Inspecting,
            BindView::Inspect,
        ),
        bind_next(true, name, BindState::Inspecting, BindEvent::Missing) == (
            BindState::Binding,
            BindView::Bind,
        ),
        bind_next(true, name, BindState::Inspecting, BindEvent::Socket) == (
            BindState::Removing,
            BindView::Remove,
        ),
        bind_next(true, name, BindState::Removing, BindEvent::Done) == (
            BindState::Binding,
            BindView::Bind,
        ),
        bind_next(true, name, BindState::Binding, BindEvent::Done) == (
            BindState::Permitting,
            BindView::Permit,
        ),
        bind_next(true, name, BindState::Permitting, BindEvent::Done) == (
            BindState::Configuring,
            BindView::Configure,
        ),
        bind_next(false, name, BindState::Starting, event) == (
            BindState::Binding,
            BindView::Bind,
        ),
        bind_next(false, name, BindState::Binding, BindEvent::Done) == (
            BindState::Configuring,
            BindView::Configure,
        ),
        forall|unix: bool|
            (#[trigger] bind_next(unix, name, BindState::Configuring, BindEvent::Done)).1
                == BindView::Finish(Ok(())),
{
}

/// A step that fails gives the listener up, with an error.
pub proof fn law_failed_listeners_are_given_up(
    unix: bool,
    name: Seq<char>,
    state: BindState,
    event: BindEvent,
)
    requires
        event is Failed,
        !(state is Starting) && !(state is Inspecting),
    ensures
        bind_next(unix, name, state, event).1 matches BindView::Finish(result) && result is Err,
{
}

/// While it is not to stop, the service waits up to 100 milliseconds for the listener, accepts a
/// connection when it is ready, queues it, and goes on with the next that is there. It stops with
/// an error only where waiting or accepting failed.
pub proof fn law_connections_are_served(state: ServeState, event: ServeEvent)
    ensures
        serve_next(ServeState::Starting, false, event) == (
            ServeState::Waiting,
            ServeView::Wait(100),
        ),
        serve_next(ServeState::Waiting, false, ServeEvent::Ready) == (
            ServeState::Accepting,
            ServeView::Accept,
        ),
        serve_next(ServeState::Waiting, false, ServeEvent::NotReady) == (
            ServeState::Waiting,
            ServeView::Wait(100),
        ),
        serve_next(ServeState::Accepting, false, ServeEvent::Accepted) == (
            ServeState::Queueing,
            ServeView::Queue,
        ),
        serve_next(ServeState::Accepting, false, ServeEvent::WouldBlock) == (
            ServeState::Waiting,
            ServeView::Wait(100),
        ),
        serve_next(ServeState::Queueing, false, event) == (
            ServeState::Polling,
            ServeView::Wait(0),
        ),
        serve_next(ServeState::Polling, false, ServeEvent::Ready) == (
            ServeState::Accepting,
            ServeView::Accept,
        ),
        serve_next(ServeState::Polling, false, ServeEvent::NotReady) == (
            ServeState::Waiting,
            ServeView::Wait(100),
        ),
        serve_next(state, false, event).1 matches ServeView::Stop(result) ==> result is Err && (
        event is WaitFailed || event is AcceptFailed),
{
}

/// Connections leave the backlog in the order in which they came, each once.
pub proof fn law_the_longest_waiting_is_next<T>(backlog: BacklogView<T>, item: T)
    requires
        !backlog.closed,
        backlog.waiting.len() < backlog.capacity,
    ensures
        backlog.offered(item).waiting == backlog.waiting.push(item),
        backlog.waiting.len() > 0 ==> backlog.waiting == seq![backlog.waiting[0]]
            + backlog.taken().waiting,
        backlog.taken().capacity == backlog.capacity && backlog.offered(item).capacity
            == backlog.capacity,
{
    if backlog.waiting.len() > 0 {
        assert(backlog.waiting =~= seq![backlog.waiting[0]] + backlog.taken().waiting);
    }
}

} // verus!
