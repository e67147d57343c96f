use termie::emulator::TerminalEmulator;
use termie::recording::{ControlAction, Event, Recording};
use termie::replay::{load_replay, ReplaySession};
use termie::screen::Snapshot;

fn blank_snapshot(width: usize, height: usize) -> Snapshot {
    TerminalEmulator::construct(width, height).capture_snapshot()
}

fn row_text(snapshot: &Snapshot, row: usize) -> String {
    snapshot.grid[row].iter().map(|c| c.ch).collect::<String>().trim_end().to_string()
}

fn scenario_recording() -> Recording {
    let mut recording = Recording::start(blank_snapshot(80, 24));
    recording.append(Event::Data(b"hello".to_vec()));
    recording.append(Event::Control(ControlAction::Resize { width: 100, height: 30 }));
    recording.append(Event::Data(b"world".to_vec()));
    recording
}

#[test]
fn example_scenario_position_one() {
    let bytes = scenario_recording().encode();
    let mut session = load_replay(&bytes).unwrap();
    session.seek(1);
    let snap = session.emulator().capture_snapshot();
    assert_eq!(snap.width, 80);
    assert_eq!(snap.height, 24);
    assert_eq!(row_text(&snap, 0), "hello");
    assert_eq!((snap.cursor_row, snap.cursor_col), (0, 5));
}

#[test]
fn example_scenario_position_three() {
    let bytes = scenario_recording().encode();
    let mut session = load_replay(&bytes).unwrap();
    session.seek(3);
    let snap = session.emulator().capture_snapshot();
    assert_eq!(snap.width, 100);
    assert_eq!(snap.height, 30);
    assert_eq!(row_text(&snap, 0), "helloworld");
}

#[test]
fn example_scenario_seek_back() {
    let bytes = scenario_recording().encode();
    let mut session = load_replay(&bytes).unwrap();
    session.seek(1);
    let at_one = session.emulator().capture_snapshot();
    session.seek(3);
    let outcome = session.seek(1);
    assert!(outcome.rebuilt);
    assert_eq!(outcome.advances, 1);
    let back_at_one = session.emulator().capture_snapshot();
    assert_eq!(at_one, back_at_one);
    assert_eq!(back_at_one.width, 80);
    assert_eq!(back_at_one.height, 24);
}

#[test]
fn forward_seek_counts_advances() {
    let bytes = scenario_recording().encode();
    let mut session = load_replay(&bytes).unwrap();
    let outcome = session.seek(2);
    assert!(!outcome.rebuilt);
    assert_eq!(outcome.advances, 2);
    let outcome = session.seek(2);
    assert!(!outcome.rebuilt);
    assert_eq!(outcome.advances, 0);
    let outcome = session.seek(3);
    assert!(!outcome.rebuilt);
    assert_eq!(outcome.advances, 1);
}

#[test]
fn step_replay_actions() {
    let mut session = ReplaySession::new(scenario_recording()).unwrap();
    assert_eq!(session.len(), 3);
    assert_eq!(session.current_pos(), 0);
    assert_eq!(session.step_replay(), ControlAction::Noop);
    assert_eq!(session.step_replay(), ControlAction::Resize { width: 100, height: 30 });
    assert_eq!(session.step_replay(), ControlAction::Noop);
    assert_eq!(session.current_pos(), 3);
    // at the end of the log stepping is a no-op
    assert_eq!(session.step_replay(), ControlAction::Noop);
    assert_eq!(session.current_pos(), 3);
}

#[test]
fn replay_is_deterministic() {
    let bytes = scenario_recording().encode();
    let mut first = load_replay(&bytes).unwrap();
    first.seek(3);
    let mut second = load_replay(&bytes).unwrap();
    second.seek(3);
    assert_eq!(
        first.emulator().capture_snapshot(),
        second.emulator().capture_snapshot()
    );
}

#[test]
fn seek_then_seek_matches_direct_seek() {
    let bytes = scenario_recording().encode();
    let mut wandering = load_replay(&bytes).unwrap();
    wandering.seek(3);
    wandering.seek(2);
    let mut direct = load_replay(&bytes).unwrap();
    direct.seek(2);
    assert_eq!(
        wandering.emulator().capture_snapshot(),
        direct.emulator().capture_snapshot()
    );
}

#[test]
fn noop_event_changes_nothing() {
    let mut recording = Recording::start(blank_snapshot(10, 5));
    recording.append(Event::Data(b"hi".to_vec()));
    recording.append(Event::Control(ControlAction::Noop));
    let mut session = ReplaySession::new(recording).unwrap();
    session.seek(1);
    let before = session.emulator().capture_snapshot();
    assert_eq!(session.step_replay(), ControlAction::Noop);
    assert_eq!(session.current_pos(), 2);
    assert_eq!(before, session.emulator().capture_snapshot());
}

#[test]
fn recording_a_live_session_replays_identically() {
    let mut emulator = TerminalEmulator::construct(20, 6);
    let mut recording = emulator.start_recording();
    // one serialization point: each chunk goes to both parser and log
    let chunks: [&[u8]; 3] = [b"fan", b" out\r\n", b"\x1b[33mcolor\x1b[0m"];
    for chunk in chunks {
        emulator.feed_bytes(chunk);
        recording.append(Event::Data(chunk.to_vec()));
    }
    let live = emulator.capture_snapshot();
    let mut session = ReplaySession::new(recording).unwrap();
    session.seek(3);
    assert_eq!(session.emulator().capture_snapshot(), live);
}

#[test]
fn invalid_resize_event_is_ignored() {
    let mut recording = Recording::start(blank_snapshot(10, 5));
    recording.append(Event::Control(ControlAction::Resize { width: 0, height: 30 }));
    recording.append(Event::Data(b"x".to_vec()));
    let mut session = ReplaySession::new(recording).unwrap();
    session.seek(2);
    let snap = session.emulator().capture_snapshot();
    assert_eq!(snap.width, 10);
    assert_eq!(snap.height, 5);
    assert_eq!(row_text(&snap, 0), "x");
}
