use termie::emulator::{LoadSnapshotError, ResizeError, TerminalEmulator};
use termie::replay::ReplayIo;
use termie::screen::{Cell, Color, Snapshot};

fn row_text(snapshot: &Snapshot, row: usize) -> String {
    snapshot.grid[row].iter().map(|c| c.ch).collect::<String>().trim_end().to_string()
}

#[test]
fn fresh_terminal_is_blank() {
    let emulator = TerminalEmulator::construct(80, 24);
    let snap = emulator.capture_snapshot();
    assert_eq!(snap.width, 80);
    assert_eq!(snap.height, 24);
    assert_eq!((snap.cursor_row, snap.cursor_col), (0, 0));
    assert!(snap.cursor_visible);
    assert!(snap.grid.iter().all(|row| row.iter().all(|c| c.ch == ' ')));
}

#[test]
fn plain_text_and_line_controls() {
    let mut emulator = TerminalEmulator::construct(10, 4);
    emulator.feed_bytes(b"hi\r\nthere\x08!");
    let snap = emulator.capture_snapshot();
    assert_eq!(row_text(&snap, 0), "hi");
    assert_eq!(row_text(&snap, 1), "ther!");
    assert_eq!((snap.cursor_row, snap.cursor_col), (1, 5));
}

#[test]
fn wrap_and_scroll() {
    let mut emulator = TerminalEmulator::construct(2, 2);
    emulator.feed_bytes(b"abcd");
    let snap = emulator.capture_snapshot();
    // "ab" filled row 0, wrapping to row 1; "cd" filled row 1, and the
    // wrap off its end scrolled row 0 away
    assert_eq!(row_text(&snap, 0), "cd");
    assert_eq!(row_text(&snap, 1), "");
    assert_eq!((snap.cursor_row, snap.cursor_col), (1, 0));
}

#[test]
fn cursor_movement_sequences() {
    let mut emulator = TerminalEmulator::construct(20, 10);
    emulator.feed_bytes(b"\x1b[5;7H");
    assert_eq!(emulator.cursor_pos(), (4, 6));
    emulator.feed_bytes(b"\x1b[2A\x1b[3D");
    assert_eq!(emulator.cursor_pos(), (2, 3));
    emulator.feed_bytes(b"\x1b[B\x1b[2C");
    assert_eq!(emulator.cursor_pos(), (3, 5));
    // movement clamps at the edges
    emulator.feed_bytes(b"\x1b[99A\x1b[99D");
    assert_eq!(emulator.cursor_pos(), (0, 0));
    emulator.feed_bytes(b"\x1b[99B\x1b[99C");
    assert_eq!(emulator.cursor_pos(), (9, 19));
}

#[test]
fn colors_and_reset() {
    let mut emulator = TerminalEmulator::construct(10, 2);
    emulator.feed_bytes(b"\x1b[31;44;1mx\x1b[0my");
    let snap = emulator.capture_snapshot();
    let x: Cell = snap.grid[0][0];
    assert_eq!(x.fg, Color::Red);
    assert_eq!(x.bg, Color::Blue);
    assert!(x.bold);
    let y: Cell = snap.grid[0][1];
    assert_eq!(y.fg, Color::Base);
    assert_eq!(y.bg, Color::Base);
    assert!(!y.bold);
}

#[test]
fn erase_display_and_line() {
    let mut emulator = TerminalEmulator::construct(10, 3);
    emulator.feed_bytes(b"abcdef\r");
    emulator.feed_bytes(b"\x1b[2C\x1b[K");
    let snap = emulator.capture_snapshot();
    assert_eq!(row_text(&snap, 0), "ab");
    emulator.feed_bytes(b"\x1b[2J");
    let snap = emulator.capture_snapshot();
    assert_eq!(row_text(&snap, 0), "");
}

#[test]
fn cursor_visibility_sequences() {
    let mut emulator = TerminalEmulator::construct(5, 5);
    assert!(emulator.cursor_visible());
    emulator.feed_bytes(b"\x1b[?25l");
    assert!(!emulator.cursor_visible());
    emulator.feed_bytes(b"\x1b[?25h");
    assert!(emulator.cursor_visible());
}

#[test]
fn osc_strings_are_swallowed() {
    let mut emulator = TerminalEmulator::construct(10, 2);
    emulator.feed_bytes(b"\x1b]0;window title\x07ok");
    let snap = emulator.capture_snapshot();
    assert_eq!(row_text(&snap, 0), "ok");
}

#[test]
fn malformed_input_never_wedges_the_parser() {
    let mut emulator = TerminalEmulator::construct(12, 3);
    emulator.feed_bytes(b"\x1b[12;;\xff\x1bQ\x1b[999999999999m\xfe\x00\x1b[");
    emulator.feed_bytes(b"\x1b[1;1Hok");
    let snap = emulator.capture_snapshot();
    assert_eq!(snap.width, 12);
    assert_eq!(snap.height, 3);
    assert_eq!(row_text(&snap, 0), "ok");
}

#[test]
fn empty_poll_is_a_no_op() {
    let mut emulator = TerminalEmulator::construct(8, 4);
    emulator.feed_bytes(b"data");
    let before = emulator.capture_snapshot();
    emulator.feed_bytes(b"");
    assert_eq!(before, emulator.capture_snapshot());
}

#[test]
fn resize_truncates_pads_and_clamps() {
    let mut emulator = TerminalEmulator::construct(6, 3);
    emulator.feed_bytes(b"abcd\r\nxy");
    assert!(emulator.set_window_size(3, 2).is_ok());
    let snap = emulator.capture_snapshot();
    assert_eq!(snap.width, 3);
    assert_eq!(snap.height, 2);
    assert_eq!(row_text(&snap, 0), "abc");
    assert_eq!(row_text(&snap, 1), "xy");
    assert_eq!((snap.cursor_row, snap.cursor_col), (1, 2));
    assert!(emulator.set_window_size(10, 4).is_ok());
    let snap = emulator.capture_snapshot();
    assert_eq!(row_text(&snap, 0), "abc");
    assert_eq!(row_text(&snap, 2), "");
}

#[test]
fn resize_rejects_bad_dimensions() {
    let mut emulator = TerminalEmulator::construct(6, 3);
    emulator.feed_bytes(b"hello");
    let before = emulator.capture_snapshot();
    assert_eq!(emulator.set_window_size(0, 3), Err(ResizeError::ZeroDimension));
    assert_eq!(emulator.set_window_size(6, 0), Err(ResizeError::ZeroDimension));
    assert_eq!(emulator.set_window_size(5000, 3), Err(ResizeError::TooLarge));
    assert_eq!(emulator.set_window_size(6, 5000), Err(ResizeError::TooLarge));
    // a rejected resize retains the prior state unchanged
    assert_eq!(before, emulator.capture_snapshot());
}

#[test]
fn resize_twice_equals_resize_once() {
    let mut once = TerminalEmulator::construct(6, 3);
    once.feed_bytes(b"abcdef\r\nxy");
    let mut twice = TerminalEmulator::construct(6, 3);
    twice.feed_bytes(b"abcdef\r\nxy");
    assert!(once.set_window_size(4, 2).is_ok());
    assert!(twice.set_window_size(4, 2).is_ok());
    assert!(twice.set_window_size(4, 2).is_ok());
    assert_eq!(once.capture_snapshot(), twice.capture_snapshot());
}

#[test]
fn from_snapshot_round_trips_state() {
    let mut emulator = TerminalEmulator::construct(8, 4);
    emulator.feed_bytes(b"\x1b[32msome\r\ntext");
    let snap = emulator.capture_snapshot();
    let rebuilt = TerminalEmulator::from_snapshot(&snap).unwrap();
    assert_eq!(rebuilt.capture_snapshot(), snap);
}

#[test]
fn from_snapshot_validates() {
    let mut snap = TerminalEmulator::construct(8, 4).capture_snapshot();
    snap.width = 0;
    assert_eq!(
        TerminalEmulator::from_snapshot(&snap).unwrap_err(),
        LoadSnapshotError::BadDimensions
    );
    let mut snap = TerminalEmulator::construct(8, 4).capture_snapshot();
    snap.grid.pop();
    assert_eq!(
        TerminalEmulator::from_snapshot(&snap).unwrap_err(),
        LoadSnapshotError::GridMismatch
    );
    let mut snap = TerminalEmulator::construct(8, 4).capture_snapshot();
    snap.grid[1][2].ch = '\u{1b}';
    assert_eq!(
        TerminalEmulator::from_snapshot(&snap).unwrap_err(),
        LoadSnapshotError::GridMismatch
    );
    let mut snap = TerminalEmulator::construct(8, 4).capture_snapshot();
    snap.cursor_col = 8;
    assert_eq!(
        TerminalEmulator::from_snapshot(&snap).unwrap_err(),
        LoadSnapshotError::CursorOutOfBounds
    );
}

#[test]
fn poll_drains_the_source_and_is_idempotent() {
    let mut emulator = TerminalEmulator::construct(10, 3);
    let mut io = ReplayIo::new();
    io.push_data(&b"hey".to_vec());
    emulator.poll_io_and_update(&mut io);
    let after = emulator.capture_snapshot();
    assert_eq!(row_text(&after, 0), "hey");
    // no new bytes available: polling again is a no-op
    emulator.poll_io_and_update(&mut io);
    assert_eq!(after, emulator.capture_snapshot());
}

#[test]
fn replay_io_delivers_once() {
    let mut io = ReplayIo::new();
    io.push_data(&b"abc".to_vec());
    io.push_data(&b"de".to_vec());
    assert_eq!(io.read_available(), b"abcde".to_vec());
    assert_eq!(io.read_available(), Vec::<u8>::new());
    // writing back is a no-op during replay
    io.write(b"typed");
    assert_eq!(io.read_available(), Vec::<u8>::new());
}
