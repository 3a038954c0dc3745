use rgine::command::{Command, Commands};
use rgine::window::WindowDesc;

#[test]
fn create_windows_allocates_one_distinct_handle_per_desc() {
    let mut commands = Commands::default();
    let descs = [WindowDesc::new("a"), WindowDesc::new("b")];
    let mut handles = Vec::new();

    commands.create_windows(&descs, &mut handles);

    assert_eq!(handles.len(), 2);
    assert_ne!(handles[0], handles[1]);
    assert_eq!(
        commands.drain(),
        vec![
            Command::CreateWindow {
                window: handles[0],
                desc: descs[0].clone(),
            },
            Command::CreateWindow {
                window: handles[1],
                desc: descs[1].clone(),
            },
        ]
    );
}

#[test]
fn handles_stay_unique_across_drains() {
    let mut commands = Commands::default();
    let mut first = Vec::new();
    let mut second = Vec::new();

    commands.create_windows(&[WindowDesc::default()], &mut first);
    let _ = commands.drain();
    commands.create_windows(&[WindowDesc::default()], &mut second);

    assert_ne!(first[0], second[0]);
}

#[test]
fn drain_preserves_record_order_and_empties_the_queue() {
    let mut commands = Commands::default();
    let mut handles = Vec::new();
    commands.create_windows(&[WindowDesc::default()], &mut handles);
    commands.request_redraw(&handles);
    commands.close_windows(&handles);
    commands.exit();

    let drained = commands.drain();

    assert!(matches!(drained[0], Command::CreateWindow { .. }));
    assert_eq!(drained[1], Command::RequestRedraw(handles[0]));
    assert_eq!(drained[2], Command::CloseWindow(handles[0]));
    assert_eq!(drained[3], Command::Exit);
    assert!(commands.drain().is_empty());
}

#[test]
fn handles_are_appended_after_what_out_already_holds() {
    let mut commands = Commands::default();
    let mut handles = Vec::new();
    commands.create_windows(&[WindowDesc::new("a")], &mut handles);
    commands.create_windows(&[WindowDesc::new("b"), WindowDesc::new("c")], &mut handles);
    assert_eq!(handles.len(), 3);
    assert_ne!(handles[0], handles[1]);
    assert_ne!(handles[1], handles[2]);
    assert_ne!(handles[0], handles[2]);
    assert_eq!(commands.next_window(), 3);
    assert_eq!(commands.drain().len(), 3);
    assert_eq!(commands.next_window(), 3);
}

#[test]
fn creating_nothing_records_nothing() {
    let mut commands = Commands::default();
    let mut handles = Vec::new();
    commands.create_windows(&[], &mut handles);
    commands.close_windows(&[]);
    commands.request_redraw(&[]);
    assert!(handles.is_empty());
    assert!(commands.drain().is_empty());
}

#[test]
fn window_descriptions_default_and_resize() {
    let desc = WindowDesc::default();
    assert_eq!(desc.title, "rgine");
    assert_eq!((desc.width, desc.height), (1280, 720));
    let desc = WindowDesc::new("x").with_size(640, 480);
    assert_eq!(desc.title, "x");
    assert_eq!((desc.width, desc.height), (640, 480));
}
