use termie::emulator::TerminalEmulator;
use termie::recording::{ControlAction, Event, LoadRecordingError, Recording};
use termie::replay::{load_replay, LoadReplayError};
use termie::screen::{Cell, Color, Snapshot};

fn sample_snapshot() -> Snapshot {
    let mut emulator = TerminalEmulator::construct(4, 3);
    emulator.feed_bytes(b"\x1b[31;1mab\x1b[0m\r\ncd");
    emulator.capture_snapshot()
}

fn sample_recording() -> Recording {
    let mut recording = Recording::start(sample_snapshot());
    recording.append(Event::Data(b"one".to_vec()));
    recording.append(Event::Control(ControlAction::Resize { width: 7, height: 9 }));
    recording.append(Event::Control(ControlAction::Noop));
    recording.append(Event::Data(Vec::new()));
    recording
}

#[test]
fn round_trip_preserves_everything() {
    let original = sample_recording();
    let decoded = Recording::decode(&original.encode()).unwrap();
    assert_eq!(decoded.initial_state(), original.initial_state());
    assert_eq!(decoded.len(), original.len());
    for i in 0..original.len() {
        assert_eq!(decoded.event_at(i), original.event_at(i));
    }
}

#[test]
fn round_trip_of_empty_log() {
    let mut recording = Recording::start(sample_snapshot());
    assert_eq!(recording.len(), 0);
    let decoded = Recording::decode(&recording.encode()).unwrap();
    assert_eq!(decoded.len(), 0);
    assert_eq!(decoded.initial_state(), recording.initial_state());
    recording.append(Event::Control(ControlAction::Noop));
    assert_eq!(recording.len(), 1);
}

#[test]
fn decode_rejects_empty_and_short_input() {
    assert_eq!(Recording::decode(&[]), Err(LoadRecordingError::Truncated));
    assert_eq!(Recording::decode(&[0x54]), Err(LoadRecordingError::Truncated));
    assert_eq!(
        Recording::decode(&[0x54, 0x52]),
        Err(LoadRecordingError::Truncated)
    );
}

#[test]
fn decode_rejects_bad_magic() {
    let mut bytes = sample_recording().encode();
    bytes[0] = 0x00;
    assert_eq!(Recording::decode(&bytes), Err(LoadRecordingError::BadMagic));
}

#[test]
fn decode_rejects_unsupported_version() {
    let mut bytes = sample_recording().encode();
    bytes[2] = 2;
    assert_eq!(
        Recording::decode(&bytes),
        Err(LoadRecordingError::UnsupportedVersion)
    );
}

#[test]
fn decode_rejects_truncation() {
    let bytes = sample_recording().encode();
    for cut in [3, 19, 25, bytes.len() - 1] {
        assert_eq!(
            Recording::decode(&bytes[..cut]),
            Err(LoadRecordingError::Truncated),
            "cut at {cut}"
        );
    }
}

#[test]
fn decode_rejects_corrupt_color() {
    let mut bytes = sample_recording().encode();
    // the first cell's foreground byte sits right after the 20-byte header
    bytes[21] = 99;
    assert_eq!(Recording::decode(&bytes), Err(LoadRecordingError::Invalid));
}

#[test]
fn decode_rejects_trailing_bytes() {
    let mut bytes = sample_recording().encode();
    bytes.push(0);
    assert_eq!(Recording::decode(&bytes), Err(LoadRecordingError::Invalid));
}

#[test]
fn decode_rejects_zero_dimensions() {
    let mut bytes = sample_recording().encode();
    // width is stored little endian at offset 3
    bytes[3] = 0;
    bytes[4] = 0;
    bytes[5] = 0;
    bytes[6] = 0;
    assert_eq!(Recording::decode(&bytes), Err(LoadRecordingError::Invalid));
}

#[test]
fn load_replay_surfaces_recording_errors() {
    match load_replay(&[0xff, 0xff, 0xff]) {
        Err(LoadReplayError::Recording(LoadRecordingError::BadMagic)) => {}
        other => panic!("unexpected result: {other:?}"),
    }
}

#[test]
fn load_replay_rejects_out_of_bounds_cursor() {
    let mut bytes = sample_recording().encode();
    // cursor row is stored little endian at offset 11; push it past the height
    bytes[11] = 200;
    assert!(Recording::decode(&bytes).is_ok());
    match load_replay(&bytes) {
        Err(LoadReplayError::CreateTerminalEmulator(_)) => {}
        other => panic!("unexpected result: {other:?}"),
    }
}

#[test]
fn encoded_attributes_survive() {
    let decoded = Recording::decode(&sample_recording().encode()).unwrap();
    let snap = decoded.initial_state();
    let a: Cell = snap.grid[0][0];
    assert_eq!(a.ch, 'a');
    assert_eq!(a.fg, Color::Red);
    assert!(a.bold);
    let c: Cell = snap.grid[1][0];
    assert_eq!(c.ch, 'c');
    assert_eq!(c.fg, Color::Base);
    assert!(!c.bold);
}
