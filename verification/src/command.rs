//! Commands recorded by the application and applied by the platform.
//!
//! Commands travel in one direction only: the application records them, the
//! platform applies them at the end of the loop iteration. Nothing here returns
//! a backend value, so none of it is a synchronization point.
use vstd::prelude::*;
use crate::window::{handle, lemma_handle, WindowDesc, WindowId};

verus! {

/// A single queued request to the platform.
#[derive(Debug, Clone, PartialEq, Eq)]
#[non_exhaustive]
pub enum Command {
    /// Create a window and bind it to the given handle.
    CreateWindow {
        /// Handle reserved for the new window.
        window: WindowId,
        /// How the window should be created.
        desc: WindowDesc,
    },
    /// Destroy a window; its handle becomes stale afterwards.
    CloseWindow(WindowId),
    /// Ask a window to redraw.
    RequestRedraw(WindowId),
    /// Leave the event loop.
    Exit,
}

/// The model of a command queue: what is recorded, and the raw value of the
/// next window handle it will hand out.
pub struct CommandsView {
    pub queue: Seq<Command>,
    pub next_window: u64,
}

/// The handles `n` window creations hand out from `next` on.
pub open spec fn handles_from(next: u64, n: nat) -> Seq<WindowId> {
    Seq::new(n, |i: int| handle((next + i) as u64))
}

impl CommandsView {
    pub open spec fn empty() -> CommandsView {
        CommandsView { queue: Seq::empty(), next_window: 0 }
    }

    /// Whether `n` more handles can be handed out.
    pub open spec fn can_create(self, n: nat) -> bool {
        self.next_window + n <= u64::MAX
    }

    /// The queue after reserving a handle per description and queueing the
    /// creation of each window.
    pub open spec fn create(self, descs: Seq<WindowDesc>) -> CommandsView {
        CommandsView {
            queue: self.queue + Seq::new(
                descs.len(),
                |i: int|
                    Command::CreateWindow {
                        window: handle((self.next_window + i) as u64),
                        desc: descs[i],
                    },
            ),
            next_window: (self.next_window + descs.len()) as u64,
        }
    }

    /// The queue after queueing the destruction of every window.
    pub open spec fn close(self, windows: Seq<WindowId>) -> CommandsView {
        CommandsView {
            queue: self.queue + windows.map_values(|w: WindowId| Command::CloseWindow(w)),
            next_window: self.next_window,
        }
    }

    /// The queue after queueing a redraw request for every window.
    pub open spec fn redraw(self, windows: Seq<WindowId>) -> CommandsView {
        CommandsView {
            queue: self.queue + windows.map_values(|w: WindowId| Command::RequestRedraw(w)),
            next_window: self.next_window,
        }
    }

    /// The queue after queueing an exit.
    pub open spec fn exit(self) -> CommandsView {
        CommandsView { queue: self.queue.push(Command::Exit), next_window: self.next_window }
    }

    /// The queue once drained: nothing recorded, and handles keep counting.
    pub open spec fn drained(self) -> CommandsView {
        CommandsView { queue: Seq::empty(), next_window: self.next_window }
    }
}

/// The queue an application records platform requests into.
pub struct Commands {
    queue: Vec<Command>,
    next_window: u64,
}

impl View for Commands {
    type V = CommandsView;

    closed spec fn view(&self) -> CommandsView {
        CommandsView { queue: self.queue@, next_window: self.next_window }
    }
}

impl Default for Commands {
    fn default() -> (r: Commands)
        ensures
            r@ == CommandsView::empty(),
    {
        Commands { queue: Vec::new(), next_window: 0 }
    }
}

impl Commands {
    /// The raw value of the next handle this queue hands out.
    pub fn next_window(&self) -> (r: u64)
        ensures
            r == self@.next_window,
    {
        self.next_window
    }

    /// Reserves a handle per entry of `descs`, appends the handles to `out` in
    /// the same order, and queues the creation of each window. The handles are
    /// allocated here rather than by the backend, so they are usable at once.
    pub fn create_windows(&mut self, descs: &[WindowDesc], out: &mut Vec<WindowId>)
        requires
            old(self)@.can_create(descs@.len()),
        ensures
            final(self)@ == old(self)@.create(descs@),
            final(out)@ == old(out)@ + handles_from(old(self)@.next_window, descs@.len()),
    {
        let ghost start = self@;
        let ghost out0 = out@;
        out.reserve(descs.len());
        self.queue.reserve(descs.len());
        let mut i: usize = 0;
        while i < descs.len()
            invariant
                i <= descs@.len(),
                start.can_create(descs@.len()),
                self.next_window == start.next_window + i,
                self.queue@ == start.create(descs@.take(i as int)).queue,
                out@ == out0 + handles_from(start.next_window, i as nat),
            decreases descs@.len() - i,
        {
            let window = WindowId::from_raw(self.next_window);
            self.next_window = self.next_window + 1;
            out.push(window);
            self.queue.push(Command::CreateWindow { window, desc: descs[i].clone() });
            assert(out@ =~= out0 + handles_from(start.next_window, (i + 1) as nat));
            assert(self.queue@ =~= start.create(descs@.take(i + 1)).queue);
            i = i + 1;
        }
        assert(descs@.take(descs@.len() as int) =~= descs@);
    }

    /// Queues the destruction of every window in `windows`.
    pub fn close_windows(&mut self, windows: &[WindowId])
        ensures
            final(self)@ == old(self)@.close(windows@),
            final(self)@.next_window == old(self)@.next_window,
            final(self)@.queue.len() == old(self)@.queue.len() + windows@.len(),
            final(self)@.queue.subrange(0, old(self)@.queue.len() as int) == old(self)@.queue,
            forall|i: int|
                0 <= i < windows@.len() ==> final(self)@.queue[old(self)@.queue.len() + i]
                    == Command::CloseWindow(#[trigger] windows@[i]),
    {
        let ghost start = self@;
        let mut i: usize = 0;
        while i < windows.len()
            invariant
                i <= windows@.len(),
                self.next_window == start.next_window,
                self.queue@ == start.close(windows@.take(i as int)).queue,
            decreases windows@.len() - i,
        {
            self.queue.push(Command::CloseWindow(windows[i]));
            assert(self.queue@ =~= start.close(windows@.take(i + 1)).queue);
            i = i + 1;
        }
        assert(windows@.take(windows@.len() as int) =~= windows@);
    }

    /// Queues a redraw request for every window in `windows`.
    pub fn request_redraw(&mut self, windows: &[WindowId])
        ensures
            final(self)@ == old(self)@.redraw(windows@),
            final(self)@.next_window == old(self)@.next_window,
            final(self)@.queue.len() == old(self)@.queue.len() + windows@.len(),
            final(self)@.queue.subrange(0, old(self)@.queue.len() as int) == old(self)@.queue,
            forall|i: int|
                0 <= i < windows@.len() ==> final(self)@.queue[old(self)@.queue.len() + i]
                    == Command::RequestRedraw(#[trigger] windows@[i]),
    {
        let ghost start = self@;
        let mut i: usize = 0;
        while i < windows.len()
            invariant
                i <= windows@.len(),
                self.next_window == start.next_window,
                self.queue@ == start.redraw(windows@.take(i as int)).queue,
            decreases windows@.len() - i,
        {
            self.queue.push(Command::RequestRedraw(windows[i]));
            assert(self.queue@ =~= start.redraw(windows@.take(i + 1)).queue);
            i = i + 1;
        }
        assert(windows@.take(windows@.len() as int) =~= windows@);
    }

    /// Queues an exit from the event loop.
    pub fn exit(&mut self)
        ensures
            final(self)@ == old(self)@.exit(),
    {
        self.queue.push(Command::Exit);
    }

    /// Removes and returns everything recorded so far, in the order it was
    /// recorded.
    pub fn drain(&mut self) -> (r: Vec<Command>)
        ensures
            r@ == old(self)@.queue,
            final(self)@ == old(self)@.drained(),
    {
        let mut taken: Vec<Command> = Vec::new();
        std::mem::swap(&mut taken, &mut self.queue);
        taken
    }
}

/// Law: every handle a queue hands out is new. The handles of one call are
/// pairwise distinct, and distinct from those of any later call, drains in
/// between included.
pub proof fn law_handles_are_unique(c: CommandsView, first: Seq<WindowDesc>, second: Seq<WindowDesc>)
    requires
        c.can_create(first.len() + second.len()),
    ensures
        ({
            let a = handles_from(c.next_window, first.len());
            let after = c.create(first).drained();
            let b = handles_from(after.next_window, second.len());
            &&& forall|i: int, j: int| 0 <= i < j < a.len() ==> a[i] != a[j]
            &&& forall|i: int, j: int| 0 <= i < a.len() && 0 <= j < b.len() ==> a[i] != b[j]
        }),
{
    let a = handles_from(c.next_window, first.len());
    let after = c.create(first).drained();
    let b = handles_from(after.next_window, second.len());
    assert forall|i: int, j: int| 0 <= i < j < a.len() implies a[i] != a[j] by {
        lemma_handle((c.next_window + i) as u64, a[j]);
        lemma_handle((c.next_window + j) as u64, a[j]);
    }
    assert forall|i: int, j: int| 0 <= i < a.len() && 0 <= j < b.len() implies a[i] != b[j] by {
        lemma_handle((c.next_window + i) as u64, b[j]);
        lemma_handle((after.next_window + j) as u64, b[j]);
    }
}

/// Law: a redraw request queues one `RequestRedraw` per given window, in the
/// given order, after what was already queued; a close request does the same
/// with `CloseWindow`. Neither hands out a handle.
pub proof fn law_one_request_per_window(c: CommandsView, windows: Seq<WindowId>)
    ensures
        c.redraw(windows).next_window == c.next_window,
        c.redraw(windows).queue.len() == c.queue.len() + windows.len(),
        c.redraw(windows).queue.subrange(0, c.queue.len() as int) == c.queue,
        forall|i: int|
            0 <= i < windows.len() ==> c.redraw(windows).queue[c.queue.len() + i]
                == Command::RequestRedraw(#[trigger] windows[i]),
        c.close(windows).next_window == c.next_window,
        c.close(windows).queue.len() == c.queue.len() + windows.len(),
        c.close(windows).queue.subrange(0, c.queue.len() as int) == c.queue,
        forall|i: int|
            0 <= i < windows.len() ==> c.close(windows).queue[c.queue.len() + i]
                == Command::CloseWindow(#[trigger] windows[i]),
{
    assert(c.redraw(windows).queue.subrange(0, c.queue.len() as int) =~= c.queue);
    assert(c.close(windows).queue.subrange(0, c.queue.len() as int) =~= c.queue);
}

/// Law: draining hands back everything recorded, in order, and leaves the
/// queue empty; a second drain hands back nothing.
pub proof fn law_drain_empties(c: CommandsView)
    ensures
        c.drained().queue.len() == 0,
        c.drained().drained() == c.drained(),
        c.drained().next_window == c.next_window,
{
}

} // verus!
