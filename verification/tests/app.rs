use rgine::app::{PlatformApp, Runner};
use rgine::command::{Command, Commands};
use rgine::event::{Event, WindowEvent};
use rgine::window::{WindowDesc, WindowId};

fn window_event(window: WindowId, event: WindowEvent) -> Event {
    Event::Window { window, event }
}

#[test]
fn opens_one_window_when_the_platform_resumes() {
    let mut runner = Runner::new(WindowDesc::new("test"));
    let mut commands = Commands::default();

    runner.update(&[Event::Resumed], &mut commands);

    let drained = commands.drain();
    assert_eq!(drained.len(), 1);
    assert!(matches!(drained[0], Command::CreateWindow { .. }));
}

#[test]
fn does_not_reopen_a_window_that_is_already_open() {
    let mut runner = Runner::new(WindowDesc::new("test"));
    let mut commands = Commands::default();

    runner.update(&[Event::Resumed], &mut commands);
    let _ = commands.drain();
    runner.update(&[Event::Resumed], &mut commands);

    assert!(commands.drain().is_empty());
}

#[test]
fn reopens_the_window_after_a_suspend() {
    let mut runner = Runner::new(WindowDesc::new("test"));
    let mut commands = Commands::default();

    runner.update(&[Event::Resumed], &mut commands);
    let opened = runner.open().clone();
    let _ = commands.drain();

    runner.update(&[Event::Suspended], &mut commands);
    assert_eq!(commands.drain(), vec![Command::CloseWindow(opened[0])]);

    runner.update(&[Event::Resumed], &mut commands);
    assert!(matches!(
        commands.drain().as_slice(),
        [Command::CreateWindow { .. }]
    ));
}

#[test]
fn exits_when_the_window_is_closed() {
    let mut runner = Runner::new(WindowDesc::new("test"));
    let mut commands = Commands::default();

    runner.update(&[Event::Resumed], &mut commands);
    let window = runner.open()[0];
    let _ = commands.drain();

    runner.update(
        &[window_event(window, WindowEvent::CloseRequested)],
        &mut commands,
    );

    assert_eq!(commands.drain(), vec![Command::Exit]);
}

#[test]
fn ignores_events_it_has_no_policy_for() {
    let mut runner = Runner::new(WindowDesc::new("test"));
    let mut commands = Commands::default();

    runner.update(&[Event::Resumed], &mut commands);
    let window = runner.open()[0];
    let _ = commands.drain();

    runner.update(
        &[
            window_event(
                window,
                WindowEvent::Resized {
                    width: 800,
                    height: 600,
                },
            ),
            window_event(window, WindowEvent::RedrawRequested),
        ],
        &mut commands,
    );

    assert!(commands.drain().is_empty());
}

#[test]
fn a_batch_is_handled_in_order_and_never_opens_two_windows() {
    let mut runner = Runner::new(WindowDesc::new("batch"));
    let mut commands = Commands::default();

    runner.update(
        &[Event::Resumed, Event::Resumed, Event::Suspended, Event::Resumed],
        &mut commands,
    );

    let drained = commands.drain();
    assert_eq!(drained.len(), 3);
    let first = match &drained[0] {
        Command::CreateWindow { window, desc } => {
            assert_eq!(desc, &WindowDesc::new("batch"));
            *window
        }
        other => panic!("unexpected {other:?}"),
    };
    assert_eq!(drained[1], Command::CloseWindow(first));
    assert!(matches!(drained[2], Command::CreateWindow { .. }));
    assert_eq!(runner.open().len(), 1);
    assert_ne!(runner.open()[0], first);
}

#[test]
fn an_empty_batch_records_nothing() {
    let mut runner = Runner::new(WindowDesc::default());
    let mut commands = Commands::default();
    runner.update(&[], &mut commands);
    assert!(commands.drain().is_empty());
    assert!(runner.open().is_empty());
}
