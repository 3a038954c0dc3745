//! The decisions of the platform event loop, apart from the backend that runs
//! it.
//!
//! The backend reports what happened (the platform resumed, a window got an
//! event, the loop is about to wait, a window was created) and performs the
//! actions handed back here; which events reach the application, which
//! windows exist, and when the loop ends are decided here.
use vstd::prelude::*;
use vstd::string::*;
use crate::app::PlatformApp;
use crate::command::{Command, Commands, CommandsView};
use crate::error::PlatformError;
use crate::event::{Event, WindowEvent};
use crate::window::{WindowDesc, WindowId};
use std::collections::HashMap;

verus! {

/// What a backend reported about one of its windows.
#[derive(Debug, Clone, Copy, PartialEq, Eq, Structural)]
pub enum BackendWindowEvent {
    CloseRequested,
    RedrawRequested,
    Resized { width: u32, height: u32 },
    Destroyed,
    /// Anything the application has no event for.
    Other,
}

/// What the backend is to do next.
#[derive(Debug, Clone, PartialEq, Eq)]
pub enum Action {
    Nothing,
    /// Create a window for the handle; report the outcome through
    /// `Driver::window_created` or `Driver::fail`.
    CreateWindow { window: WindowId, desc: WindowDesc },
    /// Drop the backend window behind the handle.
    DestroyWindow(WindowId),
    /// Ask the backend window behind the handle to redraw.
    RequestRedraw(WindowId),
    /// Leave the event loop.
    Exit,
}

/// The model of the loop state: events not yet handed to the application, the
/// command queue kept across iterations (so window handles stay unique for the
/// whole run), the backend window id of each open window (keyed by the raw
/// value of its handle), the handle of each backend window, and the first
/// failure.
pub struct DriverView {
    pub events: Seq<Event>,
    pub commands: CommandsView,
    pub windows: Map<u64, u64>,
    pub handles: Map<u64, WindowId>,
    pub error: Option<PlatformError>,
    /// Commands the application recorded that are not applied yet, in the
    /// order it recorded them.
    pub pending: Seq<Command>,
}

impl DriverView {
    pub open spec fn start() -> DriverView {
        DriverView {
            events: Seq::empty(),
            commands: CommandsView::empty(),
            windows: Map::empty(),
            handles: Map::empty(),
            error: None,
            pending: Seq::empty(),
        }
    }

    pub open spec fn with_event(self, e: Event) -> DriverView {
        DriverView { events: self.events.push(e), ..self }
    }

    /// Applying one command.
    pub open spec fn apply(self, c: Command) -> (DriverView, Action) {
        match c {
            Command::CreateWindow { window, desc } => (
                self,
                Action::CreateWindow { window, desc },
            ),
            Command::CloseWindow(w) => if self.windows.contains_key(w@) {
                let b = self.windows[w@];
                (
                    DriverView {
                        events: self.events.push(
                            Event::Window { window: w, event: WindowEvent::Destroyed },
                        ),
                        windows: self.windows.remove(w@),
                        handles: self.handles.remove(b),
                        ..self
                    },
                    Action::DestroyWindow(w),
                )
            } else {
                (self, Action::Nothing)
            },
            Command::RequestRedraw(w) => if self.windows.contains_key(w@) {
                (self, Action::RequestRedraw(w))
            } else {
                (self, Action::Nothing)
            },
            Command::Exit => (self, Action::Exit),
        }
    }

    /// A backend window was created for a handle.
    pub open spec fn created(self, w: WindowId, b: u64) -> DriverView {
        DriverView {
            windows: self.windows.insert(w@, b),
            handles: self.handles.insert(b, w),
            ..self
        }
    }

    /// A backend window reported an event. Events of a backend window that no
    /// handle maps to are dropped, so none reaches the application through a
    /// stale handle.
    pub open spec fn window_event(self, b: u64, e: BackendWindowEvent) -> (DriverView, Action) {
        if !self.handles.contains_key(b) {
            (self, Action::Nothing)
        } else {
            let w = self.handles[b];
            match e {
                BackendWindowEvent::CloseRequested => (
                    self.with_event(Event::Window { window: w, event: WindowEvent::CloseRequested }),
                    Action::Nothing,
                ),
                BackendWindowEvent::RedrawRequested => (
                    self.with_event(Event::Window { window: w, event: WindowEvent::RedrawRequested }),
                    Action::Nothing,
                ),
                BackendWindowEvent::Resized { width, height } => (
                    self.with_event(
                        Event::Window { window: w, event: WindowEvent::Resized { width, height } },
                    ),
                    Action::Nothing,
                ),
                BackendWindowEvent::Destroyed => (
                    DriverView {
                        events: self.events.push(
                            Event::Window { window: w, event: WindowEvent::Destroyed },
                        ),
                        windows: self.windows.remove(w@),
                        handles: self.handles.remove(b),
                        ..self
                    },
                    Action::DestroyWindow(w),
                ),
                BackendWindowEvent::Other => (self, Action::Nothing),
            }
        }
    }

    /// The next step of applying what the application recorded: nothing once
    /// the loop has failed or nothing is pending, else the first pending
    /// command is applied.
    pub open spec fn next(self) -> (DriverView, Option<Action>) {
        if self.error is Some || self.pending.len() == 0 {
            (self, None)
        } else {
            let (d, a) = DriverView { pending: self.pending.drop_first(), ..self }.apply(
                self.pending[0],
            );
            (d, Some(a))
        }
    }

    /// A failure: the first one is kept.
    pub open spec fn fail(self, e: PlatformError) -> DriverView {
        if self.error is Some {
            self
        } else {
            DriverView { error: Some(e), ..self }
        }
    }
}

/// Translates between a backend event loop and a `PlatformApp`.
pub struct Driver<A> {
    app: A,
    /// Events accumulated since the last update, handed over as one batch.
    events: Vec<Event>,
    /// Kept across iterations so window handles stay unique for the whole run.
    commands: Commands,
    /// The backend window id of each open window, keyed by its handle.
    windows: HashMap<u64, u64>,
    /// The handle of each backend window.
    handles: HashMap<u64, WindowId>,
    error: Option<PlatformError>,
    /// Recorded commands not applied yet.
    pending: Vec<Command>,
}

impl<A: PlatformApp> View for Driver<A> {
    type V = DriverView;

    closed spec fn view(&self) -> DriverView {
        DriverView {
            events: self.events@,
            commands: self.commands@,
            windows: self.windows@,
            handles: self.handles@,
            error: self.error,
            pending: self.pending@,
        }
    }
}

impl<A: PlatformApp> Driver<A> {
    /// The application the loop drives.
    pub closed spec fn app(&self) -> A {
        self.app
    }

    pub fn new(app: A) -> (d: Driver<A>)
        ensures
            d@ == DriverView::start(),
            d.app() == app,
    {
        Driver {
            app,
            events: Vec::new(),
            commands: Commands::default(),
            windows: HashMap::new(),
            handles: HashMap::new(),
            error: None,
            pending: Vec::new(),
        }
    }

    /// The platform is ready.
    pub fn resumed(&mut self)
        ensures
            final(self)@ == old(self)@.with_event(Event::Resumed),
            final(self).app() == old(self).app(),
    {
        self.events.push(Event::Resumed);
    }

    /// Platform surfaces are going away.
    pub fn suspended(&mut self)
        ensures
            final(self)@ == old(self)@.with_event(Event::Suspended),
            final(self).app() == old(self).app(),
    {
        self.events.push(Event::Suspended);
    }

    /// A backend window reported an event.
    pub fn window_event(&mut self, backend: u64, event: BackendWindowEvent) -> (a: Action)
        ensures
            (final(self)@, a) == old(self)@.window_event(backend, event),
            final(self).app() == old(self).app(),
    {
        let window = match self.handles.get(&backend) {
            Some(w) => *w,
            None => {
                return Action::Nothing;
            },
        };
        let event = match event {
            BackendWindowEvent::CloseRequested => WindowEvent::CloseRequested,
            BackendWindowEvent::RedrawRequested => WindowEvent::RedrawRequested,
            BackendWindowEvent::Resized { width, height } => WindowEvent::Resized { width, height },
            BackendWindowEvent::Destroyed => {
                self.handles.remove(&backend);
                self.windows.remove(&window.raw());
                self.events.push(Event::Window { window, event: WindowEvent::Destroyed });
                return Action::DestroyWindow(window);
            },
            BackendWindowEvent::Other => {
                return Action::Nothing;
            },
        };
        self.events.push(Event::Window { window, event });
        Action::Nothing
    }

    /// The loop is about to wait: unless it has failed, hands every event
    /// accumulated since the last call to the application as one batch, in
    /// the order they arrived, and queues what it recorded, in order, to be
    /// applied through `next_action`. A queue that cannot hand out a handle per
    /// event fails the loop instead, and the backend is to leave it.
    pub fn about_to_wait(&mut self) -> (a: Action)
        ensures
            old(self)@.error is Some ==> a == Action::Nothing && final(self)@ == old(self)@
                && final(self).app() == old(self).app(),
            old(self)@.error is None && !old(self)@.commands.can_create(old(self)@.events.len())
                ==> {
                &&& a == Action::Exit
                &&& final(self).app() == old(self).app()
                &&& final(self)@.events == old(self)@.events
                &&& final(self)@.commands == old(self)@.commands
                &&& final(self)@.windows == old(self)@.windows
                &&& final(self)@.handles == old(self)@.handles
                &&& final(self)@.pending == old(self)@.pending
                &&& final(self)@.error matches Some(PlatformError::EventLoop(m))
                &&& m@ == "window handles exhausted"@
            },
            old(self)@.error is None && old(self)@.commands.can_create(old(self)@.events.len())
                ==> a == Action::Nothing && exists|recorded: CommandsView|
                {
                    &&& #[trigger] old(self).app().handled(
                        old(self)@.events,
                        old(self)@.commands,
                        final(self).app(),
                        recorded,
                    )
                    &&& final(self)@.pending == old(self)@.pending + recorded.queue
                    &&& final(self)@.commands == recorded.drained()
                    &&& final(self)@.commands.queue.len() == 0
                    &&& final(self)@.events.len() == 0
                    &&& final(self)@.windows == old(self)@.windows
                    &&& final(self)@.handles == old(self)@.handles
                    &&& final(self)@.error is None
                },
    {
        if self.error.is_some() {
            return Action::Nothing;
        }
        let mut events: Vec<Event> = Vec::new();
        std::mem::swap(&mut events, &mut self.events);
        if self.commands.next_window() > u64::MAX - events.len() as u64 {
            std::mem::swap(&mut events, &mut self.events);
            return self.fail(PlatformError::EventLoop(String::from_str("window handles exhausted")));
        }
        assert(events@ == old(self)@.events);
        assert(self.commands@ == old(self)@.commands);
        self.app.update(events.as_slice(), &mut self.commands);
        let ghost recorded = self.commands@;
        assert(old(self).app().handled(
            old(self)@.events,
            old(self)@.commands,
            self.app,
            recorded,
        ));
        let mut recorded_now = self.commands.drain();
        self.pending.append(&mut recorded_now);
        assert(self.events@.len() == 0);
        assert(self.app == self.app());
        Action::Nothing
    }

    /// Applies the first pending command and says what the backend is to do;
    /// `None` once nothing is pending, or once the loop has failed, so that
    /// nothing recorded after a failure is applied.
    pub fn next_action(&mut self) -> (r: Option<Action>)
        ensures
            (final(self)@, r) == old(self)@.next(),
            final(self).app() == old(self).app(),
    {
        if self.error.is_some() || self.pending.len() == 0 {
            return None;
        }
        let command = self.pending.remove(0);
        assert(self.pending@ =~= old(self)@.pending.drop_first());
        Some(self.apply(command))
    }

    /// Applies one recorded command, and says what the backend is to do.
    pub fn apply(&mut self, command: Command) -> (a: Action)
        ensures
            (final(self)@, a) == old(self)@.apply(command),
            final(self).app() == old(self).app(),
    {
        match command {
            Command::CreateWindow { window, desc } => Action::CreateWindow { window, desc },
            Command::CloseWindow(window) => match self.windows.get(&window.raw()) {
                Some(backend) => {
                    let backend = *backend;
                    self.windows.remove(&window.raw());
                    self.handles.remove(&backend);
                    self.events.push(Event::Window { window, event: WindowEvent::Destroyed });
                    Action::DestroyWindow(window)
                },
                None => Action::Nothing,
            },
            Command::RequestRedraw(window) => match self.windows.get(&window.raw()) {
                Some(_) => Action::RequestRedraw(window),
                None => Action::Nothing,
            },
            Command::Exit => Action::Exit,
        }
    }

    /// The backend created the window `backend` for the handle `window`.
    pub fn window_created(&mut self, window: WindowId, backend: u64)
        ensures
            final(self)@ == old(self)@.created(window, backend),
            final(self).app() == old(self).app(),
    {
        self.handles.insert(backend, window);
        self.windows.insert(window.raw(), backend);
    }

    /// Records a failure; the first one is kept. The backend is to leave the
    /// loop.
    pub fn fail(&mut self, error: PlatformError) -> (a: Action)
        ensures
            final(self)@ == old(self)@.fail(error),
            final(self).app() == old(self).app(),
            a == Action::Exit,
    {
        if self.error.is_none() {
            self.error = Some(error);
        }
        Action::Exit
    }

    /// Whether a failure has been recorded.
    pub fn has_failed(&self) -> (r: bool)
        ensures
            r == self@.error is Some,
    {
        self.error.is_some()
    }

    /// How the run ended: the first failure, if any.
    pub fn finish(self) -> (r: Result<(), PlatformError>)
        ensures
            match self@.error {
                Some(e) => r == Err::<(), PlatformError>(e),
                None => r is Ok,
            },
    {
        match self.error {
            Some(error) => Err(error),
            None => Ok(()),
        }
    }
}

/// Law: once a window is closed by command, no event of its backend window
/// reaches the application.
pub proof fn law_closed_window_events_are_dropped(
    d: DriverView,
    w: WindowId,
    e: BackendWindowEvent,
)
    requires
        d.windows.contains_key(w@),
    ensures
        ({
            let b = d.windows[w@];
            let (d1, _) = d.apply(Command::CloseWindow(w));
            &&& !d1.windows.contains_key(w@)
            &&& d1.window_event(b, e) == (d1, Action::Nothing)
        }),
{
}

/// Law: an event of a backend window with a handle reaches the application
/// as the same event on that handle, with the same size for a resize, and
/// nothing else changes; events the application has no name for, and events
/// of backend windows without a handle, change nothing.
pub proof fn law_window_events_are_forwarded_unchanged(
    d: DriverView,
    b: u64,
    width: u32,
    height: u32,
    e: BackendWindowEvent,
)
    ensures
        d.handles.contains_key(b) ==> {
            let w = d.handles[b];
            &&& d.window_event(b, BackendWindowEvent::Resized { width, height }) == (
                DriverView {
                    events: d.events.push(
                        Event::Window {
                            window: w,
                            event: WindowEvent::Resized { width: width, height: height },
                        },
                    ),
                    ..d
                },
                Action::Nothing,
            )
            &&& d.window_event(b, BackendWindowEvent::CloseRequested) == (
                DriverView {
                    events: d.events.push(
                        Event::Window { window: w, event: WindowEvent::CloseRequested },
                    ),
                    ..d
                },
                Action::Nothing,
            )
            &&& d.window_event(b, BackendWindowEvent::RedrawRequested) == (
                DriverView {
                    events: d.events.push(
                        Event::Window { window: w, event: WindowEvent::RedrawRequested },
                    ),
                    ..d
                },
                Action::Nothing,
            )
            &&& d.window_event(b, BackendWindowEvent::Other) == (d, Action::Nothing)
        },
        !d.handles.contains_key(b) ==> d.window_event(b, e) == (d, Action::Nothing),
{
}

/// Law: once a backend window reports its destruction, none of its later
/// events reaches the application, and its handle is no longer open.
pub proof fn law_destroyed_window_events_are_dropped(
    d: DriverView,
    b: u64,
    e: BackendWindowEvent,
)
    requires
        d.handles.contains_key(b),
    ensures
        ({
            let w = d.handles[b];
            let (d1, a) = d.window_event(b, BackendWindowEvent::Destroyed);
            &&& a == Action::DestroyWindow(w)
            &&& d1.events == d.events.push(Event::Window { window: w, event: WindowEvent::Destroyed })
            &&& !d1.windows.contains_key(w@)
            &&& d1.window_event(b, e) == (d1, Action::Nothing)
        }),
{
}

/// Law: a window created and then closed by command is destroyed exactly
/// once, and the application is told so.
pub proof fn law_created_then_closed(d: DriverView, w: WindowId, b: u64)
    ensures
        ({
            let d1 = d.created(w, b);
            let (d2, a) = d1.apply(Command::CloseWindow(w));
            let (d3, a3) = d2.apply(Command::CloseWindow(w));
            &&& a == Action::DestroyWindow(w)
            &&& d2.events == d.events.push(Event::Window { window: w, event: WindowEvent::Destroyed })
            &&& a3 == Action::Nothing
            &&& d3 == d2
        }),
{
}

/// Law: the command queue the application records into holds nothing
/// between updates: a fresh driver's is empty, every operation other than an
/// update leaves it as it was, and an update drains it.
pub proof fn law_queue_is_empty_between_updates(
    d: DriverView,
    c: Command,
    w: WindowId,
    b: u64,
    e: BackendWindowEvent,
    ev: Event,
    err: PlatformError,
)
    ensures
        DriverView::start().commands.queue.len() == 0,
        d.apply(c).0.commands == d.commands,
        d.created(w, b).commands == d.commands,
        d.window_event(b, e).0.commands == d.commands,
        d.with_event(ev).commands == d.commands,
        d.fail(err).commands == d.commands,
        d.next().0.commands == d.commands,
{
}

/// Law: once the loop has failed, nothing more is applied.
pub proof fn law_nothing_is_applied_after_a_failure(d: DriverView)
    requires
        d.error is Some,
    ensures
        d.next() == (d, None::<Action>),
{
}

/// Law: the first failure is the one reported; later ones are ignored.
pub proof fn law_first_failure_is_kept(d: DriverView, e1: PlatformError, e2: PlatformError)
    requires
        d.error is None,
    ensures
        d.fail(e1).fail(e2).error == Some(e1),
{
}

} // verus!
