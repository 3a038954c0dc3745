//! The application side of the platform contract, and the loop policy the
//! engine's application runs with.
use vstd::prelude::*;
use crate::command::{handles_from, Commands, CommandsView};
use crate::event::{Event, WindowEvent};
use crate::window::{WindowDesc, WindowId};

verus! {

/// The application driven by the platform event loop.
///
/// The platform calls `update` once per loop iteration with every event
/// accumulated since the previous call, so an implementation sees whole
/// batches rather than one callback per event.
pub trait PlatformApp: Sized {
    /// What an implementation promises of one `update`: handling `events`
    /// with the queue in state `before` leaves the application as `after` and
    /// the queue as `recorded`. An implementation that does not say promises
    /// nothing.
    open spec fn handled(
        &self,
        events: Seq<Event>,
        before: CommandsView,
        after: Self,
        recorded: CommandsView,
    ) -> bool {
        true
    }

    /// Handles one batch of events and records the resulting platform
    /// requests. `events` may be empty. Commands recorded into `commands` are
    /// applied after this call returns. The queue can hand out at least one
    /// window handle per event.
    fn update(&mut self, events: &[Event], commands: &mut Commands)
        requires
            old(commands)@.can_create(events@.len()),
        ensures
            old(self).handled(events@, old(commands)@, *final(self), final(commands)@),
    ;
}

/// The model of the loop policy: the window it opens, and the windows it has
/// open.
pub struct RunnerView {
    pub window: WindowDesc,
    pub open: Seq<WindowId>,
}

/// What the loop policy does with one event.
///
/// Resume can fire more than once: on platforms that tear surfaces down,
/// every wake-up needs the window opened again, but a window already open is
/// not opened twice. A suspend closes what is open; a close request on a
/// window exits.
pub open spec fn policy_step(r: RunnerView, c: CommandsView, e: Event) -> (RunnerView, CommandsView) {
    match e {
        Event::Resumed => if r.open.len() == 0 {
            (
                RunnerView { window: r.window, open: r.open + handles_from(c.next_window, 1) },
                c.create(seq![r.window]),
            )
        } else {
            (r, c)
        },
        Event::Suspended => (RunnerView { window: r.window, open: Seq::empty() }, c.close(r.open)),
        Event::Window { event: WindowEvent::CloseRequested, .. } => (r, c.exit()),
        _ => (r, c),
    }
}

/// What the loop policy does with a batch of events, in order.
pub open spec fn policy(r: RunnerView, c: CommandsView, es: Seq<Event>) -> (RunnerView, CommandsView)
    decreases es.len(),
{
    if es.len() == 0 {
        (r, c)
    } else {
        let (r1, c1) = policy(r, c, es.drop_last());
        policy_step(r1, c1, es.last())
    }
}

/// Each event opens at most one window.
proof fn lemma_policy_handles(r: RunnerView, c: CommandsView, es: Seq<Event>)
    ensures
        c.can_create(es.len()) ==> c.next_window <= policy(r, c, es).1.next_window
            <= c.next_window + es.len(),
        policy(r, c, es).0.window == r.window,
    decreases es.len(),
{
    if es.len() > 0 {
        lemma_policy_handles(r, c, es.drop_last());
    }
}

/// Loop policy: one window, opened when the platform is ready, closed with it.
pub struct Runner {
    window: WindowDesc,
    open: Vec<WindowId>,
}

impl View for Runner {
    type V = RunnerView;

    closed spec fn view(&self) -> RunnerView {
        RunnerView { window: self.window, open: self.open@ }
    }
}

impl Runner {
    pub fn new(window: WindowDesc) -> (r: Runner)
        ensures
            r@.window == window,
            r@.open == Seq::<WindowId>::empty(),
    {
        Runner { window, open: Vec::new() }
    }

    /// The windows this policy has open.
    pub fn open(&self) -> (r: &Vec<WindowId>)
        ensures
            r@ == self@.open,
    {
        &self.open
    }

    fn step(&mut self, event: &Event, commands: &mut Commands)
        requires
            old(commands)@.can_create(1),
        ensures
            (final(self)@, final(commands)@) == policy_step(old(self)@, old(commands)@, *event),
    {
        match event {
            Event::Resumed => {
                if self.open.len() == 0 {
                    let descs = vec![self.window.clone()];
                    assert(descs@ =~= seq![self.window]);
                    commands.create_windows(descs.as_slice(), &mut self.open);
                }
            },
            Event::Suspended => {
                commands.close_windows(self.open.as_slice());
                self.open = Vec::new();
            },
            Event::Window { event: WindowEvent::CloseRequested, .. } => {
                commands.exit();
            },
            _ => {},
        }
    }
}

impl PlatformApp for Runner {
    /// The loop policy applied to the batch, event by event.
    open spec fn handled(
        &self,
        events: Seq<Event>,
        before: CommandsView,
        after: Self,
        recorded: CommandsView,
    ) -> bool {
        (after@, recorded) == policy(self@, before, events)
    }

    fn update(&mut self, events: &[Event], commands: &mut Commands)
        ensures
            (final(self)@, final(commands)@) == policy(old(self)@, old(commands)@, events@),
    {
        let ghost r0 = self@;
        let ghost c0 = commands@;
        let mut i: usize = 0;
        while i < events.len()
            invariant
                i <= events@.len(),
                c0.can_create(events@.len()),
                (self@, commands@) == policy(r0, c0, events@.take(i as int)),
            decreases events@.len() - i,
        {
            proof {
                lemma_policy_handles(r0, c0, events@.take(i as int));
                assert(events@.take(i + 1).drop_last() =~= events@.take(i as int));
                assert(events@.take(i + 1).last() == events@[i as int]);
            }
            self.step(&events[i], commands);
            i = i + 1;
        }
        assert(events@.take(events@.len() as int) =~= events@);
    }
}

/// Law: the policy never has more than one window open.
pub proof fn law_at_most_one_window(r: RunnerView, c: CommandsView, es: Seq<Event>)
    requires
        r.open.len() <= 1,
    ensures
        policy(r, c, es).0.open.len() <= 1,
    decreases es.len(),
{
    if es.len() > 0 {
        law_at_most_one_window(r, c, es.drop_last());
    }
}

/// Law: the policy records an exit for a close request on a window and for
/// nothing else: a close request appends exactly `Exit` and leaves the open
/// windows alone, and every other window event leaves the policy and the
/// queue as they were.
pub proof fn law_only_a_close_request_exits(
    r: RunnerView,
    c: CommandsView,
    w: WindowId,
    e: WindowEvent,
)
    ensures
        e == WindowEvent::CloseRequested ==> policy_step(r, c, Event::Window { window: w, event: e })
            == (r, CommandsView { queue: c.queue.push(crate::command::Command::Exit), ..c }),
        e != WindowEvent::CloseRequested ==> policy_step(r, c, Event::Window { window: w, event: e })
            == (r, c),
{
}

/// Law: a resume while a window is open records nothing; so does any event
/// the policy has no rule for.
pub proof fn law_resume_with_a_window_open_is_idle(r: RunnerView, c: CommandsView)
    requires
        r.open.len() > 0,
    ensures
        policy_step(r, c, Event::Resumed) == (r, c),
{
}

/// Law: after a suspend nothing is open, and a resume opens exactly one
/// window again.
pub proof fn law_suspend_then_resume_reopens(r: RunnerView, c: CommandsView)
    requires
        c.can_create(1),
    ensures
        ({
            let (r1, c1) = policy_step(r, c, Event::Suspended);
            let (r2, c2) = policy_step(r1, c1, Event::Resumed);
            &&& r1.open.len() == 0
            &&& c1.queue == c.queue + r.open.map_values(
                |w: WindowId| crate::command::Command::CloseWindow(w),
            )
            &&& r2.open.len() == 1
            &&& c2.queue.len() == c1.queue.len() + 1
        }),
{
}

} // verus!
