use rgine::command::{Command, Commands};
use rgine::driver::{Action, BackendWindowEvent, Driver};
use rgine::error::PlatformError;
use rgine::event::Event;
use rgine::app::{PlatformApp, Runner};
use rgine::window::WindowDesc;

/// Records every batch it is handed, and exits on the second.
struct Recorder {
    batches: Vec<Vec<Event>>,
}

impl PlatformApp for Recorder {
    fn update(&mut self, events: &[Event], commands: &mut Commands) {
        self.batches.push(events.to_vec());
        if self.batches.len() == 2 {
            commands.exit();
        }
    }
}

#[test]
fn errors_read_as_messages() {
    assert_eq!(
        PlatformError::EventLoop("gone".to_string()).to_string(),
        "event loop failure: gone"
    );
    assert_eq!(
        PlatformError::WindowCreation("no".to_string()).to_string(),
        "window creation failed: no"
    );
}

/// One loop iteration: what the driver tells the backend to do, in order.
fn iteration<A: PlatformApp>(driver: &mut Driver<A>) -> Vec<Action> {
    let mut actions = Vec::new();
    let first = driver.about_to_wait();
    if first != Action::Nothing {
        actions.push(first);
    }
    while let Some(action) = driver.next_action() {
        actions.push(action);
    }
    actions
}

#[test]
fn the_driver_hands_events_over_in_batches() {
    let mut driver = Driver::new(Runner::new(WindowDesc::new("w")));
    driver.resumed();
    let actions = iteration(&mut driver);
    assert_eq!(actions.len(), 1);
    let window = match &actions[0] {
        Action::CreateWindow { window, desc } => {
            assert_eq!(desc, &WindowDesc::new("w"));
            *window
        }
        other => panic!("unexpected {other:?}"),
    };
    driver.window_created(window, 77);

    // Events of unknown backend windows are dropped.
    assert_eq!(driver.window_event(5, BackendWindowEvent::CloseRequested), Action::Nothing);
    assert!(iteration(&mut driver).is_empty());

    assert_eq!(driver.window_event(77, BackendWindowEvent::Other), Action::Nothing);
    assert_eq!(driver.window_event(77, BackendWindowEvent::CloseRequested), Action::Nothing);
    assert_eq!(iteration(&mut driver), vec![Action::Exit]);
    assert!(!driver.has_failed());
    assert_eq!(driver.finish(), Ok(()));
}

#[test]
fn closing_a_window_by_command_destroys_it_once_and_drops_its_events() {
    let mut driver = Driver::new(Recorder { batches: Vec::new() });
    let window = first_window();
    driver.window_created(window, 9);

    assert_eq!(driver.apply(Command::RequestRedraw(window)), Action::RequestRedraw(window));
    assert_eq!(driver.apply(Command::CloseWindow(window)), Action::DestroyWindow(window));
    assert_eq!(driver.apply(Command::CloseWindow(window)), Action::Nothing);
    assert_eq!(driver.apply(Command::RequestRedraw(window)), Action::Nothing);
    assert_eq!(driver.window_event(9, BackendWindowEvent::RedrawRequested), Action::Nothing);

    // The first batch holds the destruction; the recorder exits on the second.
    assert!(iteration(&mut driver).is_empty());
    assert_eq!(iteration(&mut driver), vec![Action::Exit]);
}

fn first_window() -> rgine::window::WindowId {
    let mut commands = Commands::default();
    let mut handles = Vec::new();
    commands.create_windows(&[WindowDesc::default()], &mut handles);
    handles[0]
}

#[test]
fn a_backend_destroyed_window_is_reported_and_forgotten() {
    let mut driver = Driver::new(Runner::new(WindowDesc::default()));
    let window = first_window();
    driver.window_created(window, 3);
    assert_eq!(
        driver.window_event(3, BackendWindowEvent::Resized { width: 2, height: 4 }),
        Action::Nothing
    );
    assert_eq!(driver.window_event(3, BackendWindowEvent::Destroyed), Action::DestroyWindow(window));
    assert_eq!(driver.window_event(3, BackendWindowEvent::Destroyed), Action::Nothing);
    assert_eq!(driver.apply(Command::CloseWindow(window)), Action::Nothing);
}

#[test]
fn the_first_failure_stops_the_loop_and_is_reported() {
    let mut driver = Driver::new(Runner::new(WindowDesc::default()));
    driver.resumed();
    driver.fail(PlatformError::WindowCreation("first".to_string()));
    driver.fail(PlatformError::EventLoop("second".to_string()));
    assert!(driver.has_failed());
    assert!(iteration(&mut driver).is_empty());
    assert_eq!(
        driver.finish(),
        Err(PlatformError::WindowCreation("first".to_string()))
    );
}

#[test]
fn nothing_recorded_after_a_failure_is_applied() {
    let mut driver = Driver::new(Runner::new(WindowDesc::default()));
    driver.resumed();
    driver.suspended();
    assert_eq!(driver.about_to_wait(), Action::Nothing);
    let first = driver.next_action();
    assert!(matches!(first, Some(Action::CreateWindow { .. })));
    // Creating the window failed: the close that was recorded after it is not
    // applied.
    assert_eq!(
        driver.fail(PlatformError::WindowCreation("no".to_string())),
        Action::Exit
    );
    assert_eq!(driver.next_action(), None);
}

#[test]
fn a_failure_tells_the_backend_to_leave_the_loop() {
    let mut driver = Driver::new(Runner::new(WindowDesc::default()));
    assert_eq!(
        driver.fail(PlatformError::EventLoop("x".to_string())),
        Action::Exit
    );
    assert_eq!(
        driver.fail(PlatformError::EventLoop("y".to_string())),
        Action::Exit
    );
    assert_eq!(driver.finish(), Err(PlatformError::EventLoop("x".to_string())));
}

#[test]
fn the_application_gets_every_queued_event_once_in_order() {
    let mut driver = Driver::new(Runner::new(WindowDesc::default()));
    driver.resumed();
    driver.suspended();
    driver.resumed();
    let actions = iteration(&mut driver);
    assert_eq!(actions.len(), 3);
    let first = match &actions[0] {
        Action::CreateWindow { window, .. } => *window,
        other => panic!("unexpected {other:?}"),
    };
    // The window was never created by the backend, so closing it is a no-op.
    assert_eq!(actions[1], Action::Nothing);
    assert!(matches!(actions[2], Action::CreateWindow { window, .. } if window != first));
    assert!(iteration(&mut driver).is_empty());
}
