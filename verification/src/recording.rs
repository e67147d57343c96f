//! Recording a session: the event log, the persisted artifact's byte
//! format, and the proof that the format round-trips.
//!
//! A recording is one initial snapshot plus an ordered event log; replaying
//! the log from the snapshot reproduces the session.  The byte format is
//! specified twice — a pure encoder [`sp_encode`] and a pure decoder
//! [`sp_decode`] — and the executable `encode`/`decode` are each pinned to
//! their specification, with [`lemma_encode_decode`] proving that decoding
//! an encoding yields the original recording.

use vstd::prelude::*;
use crate::screen::{Cell, Color, Snapshot, SnapshotView, MAX_DIM, cell_ok, dims_ok, grid_wf};

verus! {

/// A host-visible side effect of a replayed event, applied outside the
/// byte-parsing path: a window resize, or nothing.
#[derive(Clone, Copy, Debug, PartialEq, Eq, Structural)]
pub enum ControlAction {
    Resize { width: usize, height: usize },
    Noop,
}

/// One unit of a recorded session's timeline: raw bytes destined for the
/// terminal parser, or a control event the host must apply out-of-band.
#[derive(Clone, Debug, PartialEq)]
pub enum Event {
    Data(Vec<u8>),
    Control(ControlAction),
}

/// The mathematical value of an [`Event`].
#[verifier::ext_equal]
pub ghost enum EventView {
    Data(Seq<u8>),
    Control(ControlAction),
}

impl View for Event {
    type V = EventView;

    open spec fn view(&self) -> EventView {
        match self {
            Event::Data(bytes) => EventView::Data(bytes@),
            Event::Control(action) => EventView::Control(*action),
        }
    }
}

/// The mathematical value of a [`Recording`].
#[verifier::ext_equal]
pub ghost struct RecordingView {
    pub snapshot: SnapshotView,
    pub events: Seq<EventView>,
}

/// Why persisted bytes could not be loaded as a recording.  Loading fails
/// closed: no partially constructed recording ever escapes.
#[derive(Clone, Copy, Debug, PartialEq, Eq, Structural)]
pub enum LoadRecordingError {
    /// The bytes do not start with the recording magic.
    BadMagic,
    /// The artifact's version is not one this implementation reads.
    UnsupportedVersion,
    /// The bytes end before the structure they announce is complete.
    Truncated,
    /// A field holds a value the format does not allow.
    Invalid,
}

// ---------------------------------------------------------------------------
// Encoding limits.
// ---------------------------------------------------------------------------

/// Counts and lengths are stored as 32-bit words.
pub const MAX_COUNT: usize = 0xffff_ffff;

/// Whether one event fits the on-disk format's 32-bit length fields.
pub open spec fn event_encodable(e: EventView) -> bool {
    match e {
        EventView::Data(bytes) => bytes.len() <= MAX_COUNT,
        EventView::Control(a) => match a {
            ControlAction::Resize { width, height } => width <= MAX_COUNT && height <= MAX_COUNT,
            ControlAction::Noop => true,
        },
    }
}

/// Whether a recording can be persisted: a consistent snapshot, and every
/// count within the format's 32-bit fields.
pub open spec fn encodable(r: RecordingView) -> bool {
    &&& r.snapshot.consistent()
    &&& r.events.len() <= MAX_COUNT
    &&& forall|i: int| 0 <= i < r.events.len() ==> event_encodable(#[trigger] r.events[i])
}

// ---------------------------------------------------------------------------
// The byte format, as a pure encoder.
// ---------------------------------------------------------------------------

/// A 32-bit value, little endian.
pub open spec fn enc_u32(n: int) -> Seq<u8> {
    seq![
        (n % 256) as u8,
        ((n / 256) % 256) as u8,
        ((n / 65536) % 256) as u8,
        ((n / 16777216) % 256) as u8,
    ]
}

/// The numeric code a color is stored as.
pub open spec fn color_code(c: Color) -> int {
    match c {
        Color::Base => 0,
        Color::Black => 1,
        Color::Red => 2,
        Color::Green => 3,
        Color::Yellow => 4,
        Color::Blue => 5,
        Color::Magenta => 6,
        Color::Cyan => 7,
        Color::White => 8,
    }
}

/// The color a stored code means, if any.
pub open spec fn sp_color_from(b: int) -> Option<Color> {
    if b == 0 { Some(Color::Base) }
    else if b == 1 { Some(Color::Black) }
    else if b == 2 { Some(Color::Red) }
    else if b == 3 { Some(Color::Green) }
    else if b == 4 { Some(Color::Yellow) }
    else if b == 5 { Some(Color::Blue) }
    else if b == 6 { Some(Color::Magenta) }
    else if b == 7 { Some(Color::Cyan) }
    else if b == 8 { Some(Color::White) }
    else { None }
}

/// One cell: character byte, foreground, background, bold flag.
pub open spec fn enc_cell(c: Cell) -> Seq<u8> {
    seq![
        c.ch as u8,
        color_code(c.fg) as u8,
        color_code(c.bg) as u8,
        if c.bold { 1u8 } else { 0u8 },
    ]
}

/// One grid row, cell by cell.
pub open spec fn enc_row(row: Seq<Cell>) -> Seq<u8>
    decreases row.len(),
{
    if row.len() == 0 {
        Seq::empty()
    } else {
        enc_cell(row[0]) + enc_row(row.drop_first())
    }
}

/// All grid rows, top to bottom.
pub open spec fn enc_rows(g: Seq<Seq<Cell>>) -> Seq<u8>
    decreases g.len(),
{
    if g.len() == 0 {
        Seq::empty()
    } else {
        enc_row(g[0]) + enc_rows(g.drop_first())
    }
}

/// One event: a tag byte, then the variant's payload.
pub open spec fn enc_event(e: EventView) -> Seq<u8> {
    match e {
        EventView::Data(bytes) => seq![0u8] + enc_u32(bytes.len() as int) + bytes,
        EventView::Control(a) => match a {
            ControlAction::Resize { width, height } =>
                seq![1u8] + enc_u32(width as int) + enc_u32(height as int),
            ControlAction::Noop => seq![2u8],
        },
    }
}

/// The event log, in replay order.
pub open spec fn enc_events(es: Seq<EventView>) -> Seq<u8>
    decreases es.len(),
{
    if es.len() == 0 {
        Seq::empty()
    } else {
        enc_event(es[0]) + enc_events(es.drop_first())
    }
}

/// The first magic byte of a persisted recording.
pub const MAGIC0: u8 = 0x54;

/// The second magic byte of a persisted recording.
pub const MAGIC1: u8 = 0x52;

/// The format version this implementation writes and reads.
pub const VERSION: u8 = 1;

/// The header of a snapshot: dimensions, cursor, visibility.
pub open spec fn enc_snapshot(s: SnapshotView) -> Seq<u8> {
    enc_u32(s.width) + enc_u32(s.height) + enc_u32(s.cursor_row) + enc_u32(s.cursor_col)
        + seq![if s.cursor_visible { 1u8 } else { 0u8 }] + enc_rows(s.grid)
}

/// The persisted artifact: magic, version, snapshot, event count, events.
pub open spec fn sp_encode(r: RecordingView) -> Seq<u8> {
    seq![MAGIC0, MAGIC1, VERSION] + enc_snapshot(r.snapshot) + enc_u32(r.events.len() as int)
        + enc_events(r.events)
}

// ---------------------------------------------------------------------------
// The byte format, as a pure decoder.
// ---------------------------------------------------------------------------

/// A 32-bit value read back, little endian.
pub open spec fn dec_u32(s: Seq<u8>, i: int) -> int {
    s[i] + 256 * s[i + 1] + 65536 * s[i + 2] + 16777216 * s[i + 3]
}

/// One cell at offset `i`, or why it cannot be read.
pub open spec fn sp_parse_cell(s: Seq<u8>, i: int) -> Result<(Cell, int), LoadRecordingError> {
    if i + 4 > s.len() {
        Err(LoadRecordingError::Truncated)
    } else if !(0x20 <= s[i] <= 0x7e) {
        Err(LoadRecordingError::Invalid)
    } else {
        match (sp_color_from(s[i + 1] as int), sp_color_from(s[i + 2] as int)) {
            (Some(fg), Some(bg)) => {
                if s[i + 3] == 0 || s[i + 3] == 1 {
                    Ok((Cell { ch: s[i] as char, fg: fg, bg: bg, bold: s[i + 3] == 1 }, i + 4))
                } else {
                    Err(LoadRecordingError::Invalid)
                }
            },
            _ => Err(LoadRecordingError::Invalid),
        }
    }
}

/// `w` more cells of one row, front to back.
pub open spec fn sp_parse_row(s: Seq<u8>, i: int, w: int, acc: Seq<Cell>) -> Result<
    (Seq<Cell>, int),
    LoadRecordingError,
>
    decreases w,
{
    if w <= 0 {
        Ok((acc, i))
    } else {
        match sp_parse_cell(s, i) {
            Err(e) => Err(e),
            Ok((c, j)) => sp_parse_row(s, j, w - 1, acc.push(c)),
        }
    }
}

/// `h` more rows of `w` cells each.
pub open spec fn sp_parse_rows(s: Seq<u8>, i: int, w: int, h: int, acc: Seq<Seq<Cell>>) -> Result<
    (Seq<Seq<Cell>>, int),
    LoadRecordingError,
>
    decreases h,
{
    if h <= 0 {
        Ok((acc, i))
    } else {
        match sp_parse_row(s, i, w, Seq::empty()) {
            Err(e) => Err(e),
            Ok((row, j)) => sp_parse_rows(s, j, w, h - 1, acc.push(row)),
        }
    }
}

/// One event at offset `i`, or why it cannot be read.
pub open spec fn sp_parse_event(s: Seq<u8>, i: int) -> Result<(EventView, int), LoadRecordingError> {
    if i >= s.len() {
        Err(LoadRecordingError::Truncated)
    } else if s[i] == 0 {
        if i + 5 > s.len() {
            Err(LoadRecordingError::Truncated)
        } else {
            let n = dec_u32(s, i + 1);
            if i + 5 + n > s.len() {
                Err(LoadRecordingError::Truncated)
            } else {
                Ok((EventView::Data(s.subrange(i + 5, i + 5 + n)), i + 5 + n))
            }
        }
    } else if s[i] == 1 {
        if i + 9 > s.len() {
            Err(LoadRecordingError::Truncated)
        } else {
            Ok((
                EventView::Control(ControlAction::Resize {
                    width: dec_u32(s, i + 1) as usize,
                    height: dec_u32(s, i + 5) as usize,
                }),
                i + 9,
            ))
        }
    } else if s[i] == 2 {
        Ok((EventView::Control(ControlAction::Noop), i + 1))
    } else {
        Err(LoadRecordingError::Invalid)
    }
}

/// `n` more events of the log.
pub open spec fn sp_parse_events(s: Seq<u8>, i: int, n: int, acc: Seq<EventView>) -> Result<
    (Seq<EventView>, int),
    LoadRecordingError,
>
    decreases n,
{
    if n <= 0 {
        Ok((acc, i))
    } else {
        match sp_parse_event(s, i) {
            Err(e) => Err(e),
            Ok((e, j)) => sp_parse_events(s, j, n - 1, acc.push(e)),
        }
    }
}

/// The whole artifact.  Succeeds only when the bytes carry the magic, a
/// supported version, a structurally valid snapshot and event log, and
/// nothing after them; each failure names its first cause.  The cursor
/// position is not validated here — rehydration checks it, so a load can
/// be told apart from an inconsistent snapshot.
pub open spec fn sp_decode(s: Seq<u8>) -> Result<RecordingView, LoadRecordingError> {
    if s.len() < 2 {
        Err(LoadRecordingError::Truncated)
    } else if !(s[0] == MAGIC0 && s[1] == MAGIC1) {
        Err(LoadRecordingError::BadMagic)
    } else if s.len() < 3 {
        Err(LoadRecordingError::Truncated)
    } else if s[2] != VERSION {
        Err(LoadRecordingError::UnsupportedVersion)
    } else if 20 > s.len() {
        Err(LoadRecordingError::Truncated)
    } else {
        let w = dec_u32(s, 3);
        let h = dec_u32(s, 7);
        let cr = dec_u32(s, 11);
        let cc = dec_u32(s, 15);
        let vb = s[19];
        if !(dims_ok(w, h) && (vb == 0 || vb == 1)) {
            Err(LoadRecordingError::Invalid)
        } else {
            match sp_parse_rows(s, 20, w, h, Seq::empty()) {
                Err(e) => Err(e),
                Ok((grid, j)) => {
                    if j + 4 > s.len() {
                        Err(LoadRecordingError::Truncated)
                    } else {
                        let n = dec_u32(s, j);
                        match sp_parse_events(s, j + 4, n, Seq::empty()) {
                            Err(e) => Err(e),
                            Ok((events, k)) => {
                                if k != s.len() {
                                    Err(LoadRecordingError::Invalid)
                                } else {
                                    Ok(RecordingView {
                                        snapshot: SnapshotView {
                                            grid: grid,
                                            cursor_row: cr,
                                            cursor_col: cc,
                                            cursor_visible: vb == 1,
                                            width: w,
                                            height: h,
                                        },
                                        events: events,
                                    })
                                }
                            },
                        }
                    }
                },
            }
        }
    }
}

// ---------------------------------------------------------------------------
// Round trip: decoding an encoding yields the original recording.
// ---------------------------------------------------------------------------

proof fn lemma_enc_row_len(row: Seq<Cell>)
    ensures
        enc_row(row).len() == 4 * row.len(),
    decreases row.len(),
{
    if row.len() > 0 {
        lemma_enc_row_len(row.drop_first());
    }
}

proof fn lemma_u32_round_trip(s: Seq<u8>, i: int, n: int)
    requires
        0 <= n <= MAX_COUNT,
        0 <= i,
        i + 4 <= s.len(),
        s.subrange(i, i + 4) =~= enc_u32(n),
    ensures
        dec_u32(s, i) == n,
{
    assert(s[i] == (n % 256) as u8);
    assert(s[i + 1] == ((n / 256) % 256) as u8);
    assert(s[i + 2] == ((n / 65536) % 256) as u8);
    assert(s[i + 3] == ((n / 16777216) % 256) as u8);
    assert(n % 256 + 256 * ((n / 256) % 256) + 65536 * ((n / 65536) % 256) + 16777216 * ((n
        / 16777216) % 256) == n) by {
        assert(n / 16777216 < 256);
        assert(n % 256 + 256 * ((n / 256) % 256) == n % 65536) by (nonlinear_arith)
            requires 0 <= n;
        assert(n % 65536 + 65536 * ((n / 65536) % 256) == n % 16777216) by (nonlinear_arith)
            requires 0 <= n;
        assert(n % 16777216 + 16777216 * ((n / 16777216) % 256) == n % 4294967296)
            by (nonlinear_arith)
            requires 0 <= n;
        assert(n % 4294967296 == n) by (nonlinear_arith)
            requires 0 <= n <= 0xffff_ffff;
    }
}

proof fn lemma_color_round_trip(c: Color)
    ensures
        sp_color_from(color_code(c)) == Some(c),
        0 <= color_code(c) <= 8,
{
}

proof fn lemma_cell_round_trip(s: Seq<u8>, i: int, c: Cell)
    requires
        cell_ok(c),
        0 <= i,
        i + 4 <= s.len(),
        s.subrange(i, i + 4) =~= enc_cell(c),
    ensures
        sp_parse_cell(s, i) == Ok::<(Cell, int), LoadRecordingError>((c, i + 4)),
{
    lemma_color_round_trip(c.fg);
    lemma_color_round_trip(c.bg);
    assert(s[i] == c.ch as u8);
    assert(c.ch as u32 <= 0x7e);
    assert(s[i] as char == c.ch);
    assert(s[i + 1] as int == color_code(c.fg));
    assert(s[i + 2] as int == color_code(c.bg));
}

proof fn lemma_row_round_trip(s: Seq<u8>, i: int, row: Seq<Cell>, acc: Seq<Cell>)
    requires
        forall|k: int| 0 <= k < row.len() ==> cell_ok(#[trigger] row[k]),
        0 <= i,
        i + 4 * row.len() <= s.len(),
        s.subrange(i, i + 4 * row.len()) =~= enc_row(row),
    ensures
        sp_parse_row(s, i, row.len() as int, acc)
            == Ok::<(Seq<Cell>, int), LoadRecordingError>((acc + row, i + 4 * row.len())),
    decreases row.len(),
{
    lemma_enc_row_len(row);
    if row.len() == 0 {
        assert(acc + row =~= acc);
    } else {
        let rest = row.drop_first();
        lemma_enc_row_len(rest);
        assert forall|k: int| 0 <= k < 4 implies s.subrange(i, i + 4)[k] == enc_cell(row[0])[k] by {
            assert(s.subrange(i, i + 4 * row.len())[k] == enc_row(row)[k]);
        }
        assert(s.subrange(i, i + 4) =~= enc_cell(row[0]));
        lemma_cell_round_trip(s, i, row[0]);
        assert forall|k: int| 0 <= k < 4 * rest.len() implies s.subrange(
            i + 4,
            i + 4 + 4 * rest.len(),
        )[k] == enc_row(rest)[k] by {
            assert(s.subrange(i, i + 4 * row.len())[4 + k] == enc_row(row)[4 + k]);
        }
        assert(s.subrange(i + 4, i + 4 + 4 * rest.len()) =~= enc_row(rest));
        lemma_row_round_trip(s, i + 4, rest, acc.push(row[0]));
        assert(acc.push(row[0]) + rest =~= acc + row);
    }
}

proof fn lemma_rows_round_trip(s: Seq<u8>, i: int, g: Seq<Seq<Cell>>, w: int, acc: Seq<Seq<Cell>>)
    requires
        forall|r: int| 0 <= r < g.len() ==> (#[trigger] g[r]).len() == w,
        forall|r: int, k: int| 0 <= r < g.len() && 0 <= k < w ==> cell_ok(#[trigger] g[r][k]),
        0 <= i,
        0 <= w,
        i + enc_rows(g).len() <= s.len(),
        s.subrange(i, i + enc_rows(g).len() as int) =~= enc_rows(g),
    ensures
        sp_parse_rows(s, i, w, g.len() as int, acc)
            == Ok::<(Seq<Seq<Cell>>, int), LoadRecordingError>(
            (acc + g, i + enc_rows(g).len() as int),
        ),
    decreases g.len(),
{
    if g.len() == 0 {
        assert(acc + g =~= acc);
    } else {
        let rest = g.drop_first();
        lemma_enc_row_len(g[0]);
        let rl = enc_row(g[0]).len() as int;
        let tl = enc_rows(g).len() as int;
        assert(enc_rows(g) == enc_row(g[0]) + enc_rows(rest));
        assert forall|k: int| 0 <= k < rl implies s.subrange(i, i + rl)[k] == enc_row(g[0])[k] by {
            assert(s.subrange(i, i + tl)[k] == enc_rows(g)[k]);
        }
        assert(s.subrange(i, i + rl) =~= enc_row(g[0]));
        lemma_row_round_trip(s, i, g[0], Seq::empty());
        assert(Seq::<Cell>::empty() + g[0] =~= g[0]);
        assert forall|k: int| 0 <= k < enc_rows(rest).len() implies s.subrange(
            i + rl,
            i + tl,
        )[k] == enc_rows(rest)[k] by {
            assert(s.subrange(i, i + tl)[rl + k] == enc_rows(g)[rl + k]);
        }
        assert(s.subrange(i + rl, i + rl + enc_rows(rest).len() as int) =~= enc_rows(rest));
        lemma_rows_round_trip(s, i + rl, rest, w, acc.push(g[0]));
        assert(acc.push(g[0]) + rest =~= acc + g);
    }
}

proof fn lemma_event_round_trip(s: Seq<u8>, i: int, e: EventView)
    requires
        event_encodable(e),
        0 <= i,
        i + enc_event(e).len() <= s.len(),
        s.subrange(i, i + enc_event(e).len() as int) =~= enc_event(e),
    ensures
        sp_parse_event(s, i)
            == Ok::<(EventView, int), LoadRecordingError>((e, i + enc_event(e).len() as int)),
{
    let el = enc_event(e).len() as int;
    assert(s[i] == s.subrange(i, i + el)[0]);
    match e {
        EventView::Data(bytes) => {
            let n = bytes.len() as int;
            assert(s[i] == 0u8);
            assert forall|k: int| 0 <= k < 4 implies s.subrange(i + 1, i + 5)[k] == enc_u32(n)[k] by {
                assert(s.subrange(i, i + el)[1 + k] == enc_event(e)[1 + k]);
            }
            assert(s.subrange(i + 1, i + 5) =~= enc_u32(n));
            lemma_u32_round_trip(s, i + 1, n);
            assert forall|k: int| 0 <= k < n implies s.subrange(i + 5, i + 5 + n)[k] == bytes[k] by {
                assert(s.subrange(i, i + el)[5 + k] == enc_event(e)[5 + k]);
            }
            assert(s.subrange(i + 5, i + 5 + n) =~= bytes);
        },
        EventView::Control(a) => match a {
            ControlAction::Resize { width, height } => {
                assert(s[i] == 1u8);
                assert forall|k: int| 0 <= k < 4 implies s.subrange(i + 1, i + 5)[k] == enc_u32(
                    width as int,
                )[k] by {
                    assert(s.subrange(i, i + el)[1 + k] == enc_event(e)[1 + k]);
                }
                assert(s.subrange(i + 1, i + 5) =~= enc_u32(width as int));
                lemma_u32_round_trip(s, i + 1, width as int);
                assert forall|k: int| 0 <= k < 4 implies s.subrange(i + 5, i + 9)[k] == enc_u32(
                    height as int,
                )[k] by {
                    assert(s.subrange(i, i + el)[5 + k] == enc_event(e)[5 + k]);
                }
                assert(s.subrange(i + 5, i + 9) =~= enc_u32(height as int));
                lemma_u32_round_trip(s, i + 5, height as int);
            },
            ControlAction::Noop => {
                assert(s[i] == 2u8);
            },
        },
    }
}

proof fn lemma_events_round_trip(s: Seq<u8>, i: int, es: Seq<EventView>, acc: Seq<EventView>)
    requires
        forall|k: int| 0 <= k < es.len() ==> event_encodable(#[trigger] es[k]),
        0 <= i,
        i + enc_events(es).len() <= s.len(),
        s.subrange(i, i + enc_events(es).len() as int) =~= enc_events(es),
    ensures
        sp_parse_events(s, i, es.len() as int, acc)
            == Ok::<(Seq<EventView>, int), LoadRecordingError>(
            (acc + es, i + enc_events(es).len() as int),
        ),
    decreases es.len(),
{
    if es.len() == 0 {
        assert(acc + es =~= acc);
    } else {
        let rest = es.drop_first();
        let el = enc_event(es[0]).len() as int;
        let tl = enc_events(es).len() as int;
        assert(enc_events(es) == enc_event(es[0]) + enc_events(rest));
        assert forall|k: int| 0 <= k < el implies s.subrange(i, i + el)[k] == enc_event(es[0])[k] by {
            assert(s.subrange(i, i + tl)[k] == enc_events(es)[k]);
        }
        assert(s.subrange(i, i + el) =~= enc_event(es[0]));
        lemma_event_round_trip(s, i, es[0]);
        assert forall|k: int| 0 <= k < enc_events(rest).len() implies s.subrange(
            i + el,
            i + tl,
        )[k] == enc_events(rest)[k] by {
            assert(s.subrange(i, i + tl)[el + k] == enc_events(es)[el + k]);
        }
        assert(s.subrange(i + el, i + el + enc_events(rest).len() as int) =~= enc_events(rest));
        lemma_events_round_trip(s, i + el, rest, acc.push(es[0]));
        assert(acc.push(es[0]) + rest =~= acc + es);
    }
}

/// Round trip: persisting an encodable recording and reading the bytes
/// back yields exactly the original — the event log element by element and
/// the initial snapshot field by field.
pub proof fn lemma_encode_decode(r: RecordingView)
    requires
        encodable(r),
    ensures
        sp_decode(sp_encode(r)) == Ok::<RecordingView, LoadRecordingError>(r),
{
    let snap = r.snapshot;
    let s = sp_encode(r);
    let head = seq![MAGIC0, MAGIC1, VERSION];
    let d1 = enc_u32(snap.width);
    let d2 = enc_u32(snap.height);
    let d3 = enc_u32(snap.cursor_row);
    let d4 = enc_u32(snap.cursor_col);
    let vis = seq![if snap.cursor_visible { 1u8 } else { 0u8 }];
    let grid_bytes = enc_rows(snap.grid);
    let cnt = enc_u32(r.events.len() as int);
    let ev_bytes = enc_events(r.events);
    let gl = grid_bytes.len() as int;
    let el = ev_bytes.len() as int;
    assert(s == head + (d1 + d2 + d3 + d4 + vis + grid_bytes) + cnt + ev_bytes);
    assert(s.len() == 24 + gl + el);
    assert(s[0] == MAGIC0 && s[1] == MAGIC1 && s[2] == VERSION);

    assert(s.subrange(3, 7) =~= d1);
    lemma_u32_round_trip(s, 3, snap.width);
    assert(s.subrange(7, 11) =~= d2);
    lemma_u32_round_trip(s, 7, snap.height);
    assert(s.subrange(11, 15) =~= d3);
    lemma_u32_round_trip(s, 11, snap.cursor_row);
    assert(s.subrange(15, 19) =~= d4);
    lemma_u32_round_trip(s, 15, snap.cursor_col);
    assert(s[19] == (if snap.cursor_visible { 1u8 } else { 0u8 }));

    assert(s.subrange(20, 20 + gl) =~= grid_bytes);
    lemma_rows_round_trip(s, 20, snap.grid, snap.width, Seq::empty());
    assert(Seq::<Seq<Cell>>::empty() + snap.grid =~= snap.grid);
    assert(sp_parse_rows(s, 20, snap.width, snap.height, Seq::empty())
        == Ok::<(Seq<Seq<Cell>>, int), LoadRecordingError>((snap.grid, 20 + gl)));

    assert(s.subrange(20 + gl, 24 + gl) =~= cnt);
    lemma_u32_round_trip(s, 20 + gl, r.events.len() as int);

    assert(s.subrange(24 + gl, 24 + gl + el) =~= ev_bytes);
    lemma_events_round_trip(s, 24 + gl, r.events, Seq::empty());
    assert(Seq::<EventView>::empty() + r.events =~= r.events);

    let decoded = sp_decode(s);
    assert(decoded is Ok);
    assert(decoded->Ok_0.snapshot =~= snap);
    assert(decoded->Ok_0 =~= r);
}

proof fn lemma_parse_row_shape(s: Seq<u8>, i: int, w: int, acc: Seq<Cell>)
    requires
        0 <= w,
        forall|k: int| 0 <= k < acc.len() ==> cell_ok(#[trigger] acc[k]),
    ensures
        sp_parse_row(s, i, w, acc) matches Ok(p) ==> p.0.len() == acc.len() + w
            && forall|k: int| 0 <= k < p.0.len() ==> cell_ok(#[trigger] p.0[k]),
    decreases w,
{
    if w > 0 {
        match sp_parse_cell(s, i) {
            Ok((c, j)) => {
                assert(cell_ok(c));
                lemma_parse_row_shape(s, j, w - 1, acc.push(c));
            },
            Err(_) => {},
        }
    }
}

proof fn lemma_parse_rows_shape(s: Seq<u8>, i: int, w: int, h: int, acc: Seq<Seq<Cell>>)
    requires
        0 <= w,
        0 <= h,
        forall|r: int| 0 <= r < acc.len() ==> (#[trigger] acc[r]).len() == w,
        forall|r: int, k: int| 0 <= r < acc.len() && 0 <= k < w ==> cell_ok(#[trigger] acc[r][k]),
    ensures
        sp_parse_rows(s, i, w, h, acc) matches Ok(p) ==> grid_wf(p.0, w, acc.len() + h),
    decreases h,
{
    if h > 0 {
        match sp_parse_row(s, i, w, Seq::empty()) {
            Ok((row, j)) => {
                lemma_parse_row_shape(s, i, w, Seq::empty());
                lemma_parse_rows_shape(s, j, w, h - 1, acc.push(row));
            },
            Err(_) => {},
        }
    }
}

/// A successfully decoded recording has valid dimensions and a grid of
/// exactly that shape, holding printable cells: of a loaded snapshot only
/// the cursor position can still be inconsistent.
pub proof fn lemma_decode_grid_wf(s: Seq<u8>)
    ensures
        sp_decode(s) matches Ok(r) ==> dims_ok(r.snapshot.width, r.snapshot.height)
            && grid_wf(r.snapshot.grid, r.snapshot.width, r.snapshot.height),
{
    if s.len() >= 20 && s[0] == MAGIC0 && s[1] == MAGIC1 && s[2] == VERSION {
        let w = dec_u32(s, 3);
        let h = dec_u32(s, 7);
        if dims_ok(w, h) {
            lemma_parse_rows_shape(s, 20, w, h, Seq::empty());
        }
    }
}

/// The encoding is injective: two encodable recordings with the same
/// bytes are the same recording.
pub proof fn lemma_encode_injective(r1: RecordingView, r2: RecordingView)
    requires
        encodable(r1),
        encodable(r2),
        sp_encode(r1) == sp_encode(r2),
    ensures
        r1 == r2,
{
    lemma_encode_decode(r1);
    lemma_encode_decode(r2);
}

// ---------------------------------------------------------------------------
// Snoc lemmas: appending one element to an encoded prefix.
// ---------------------------------------------------------------------------

proof fn lemma_enc_row_snoc(row: Seq<Cell>, c: Cell)
    ensures
        enc_row(row.push(c)) == enc_row(row) + enc_cell(c),
    decreases row.len(),
{
    let ext = row.push(c);
    assert(ext.len() == row.len() + 1);
    assert(enc_row(ext) == enc_cell(ext[0]) + enc_row(ext.drop_first()));
    if row.len() == 0 {
        assert(ext[0] == c);
        assert(ext.drop_first() =~= Seq::<Cell>::empty());
        assert(enc_row(row.push(c)) =~= enc_row(row) + enc_cell(c));
    } else {
        assert(ext[0] == row[0]);
        assert(ext.drop_first() =~= row.drop_first().push(c));
        lemma_enc_row_snoc(row.drop_first(), c);
        assert(enc_row(row.push(c)) =~= enc_row(row) + enc_cell(c));
    }
}

proof fn lemma_enc_rows_snoc(g: Seq<Seq<Cell>>, row: Seq<Cell>)
    ensures
        enc_rows(g.push(row)) == enc_rows(g) + enc_row(row),
    decreases g.len(),
{
    let ext = g.push(row);
    assert(ext.len() == g.len() + 1);
    assert(enc_rows(ext) == enc_row(ext[0]) + enc_rows(ext.drop_first()));
    if g.len() == 0 {
        assert(ext[0] == row);
        assert(ext.drop_first() =~= Seq::<Seq<Cell>>::empty());
        assert(enc_rows(g.push(row)) =~= enc_rows(g) + enc_row(row));
    } else {
        assert(ext[0] == g[0]);
        assert(ext.drop_first() =~= g.drop_first().push(row));
        lemma_enc_rows_snoc(g.drop_first(), row);
        assert(enc_rows(g.push(row)) =~= enc_rows(g) + enc_row(row));
    }
}

proof fn lemma_enc_events_snoc(es: Seq<EventView>, e: EventView)
    ensures
        enc_events(es.push(e)) == enc_events(es) + enc_event(e),
    decreases es.len(),
{
    let ext = es.push(e);
    assert(ext.len() == es.len() + 1);
    assert(enc_events(ext) == enc_event(ext[0]) + enc_events(ext.drop_first()));
    if es.len() == 0 {
        assert(ext[0] == e);
        assert(ext.drop_first() =~= Seq::<EventView>::empty());
        assert(enc_events(es.push(e)) =~= enc_events(es) + enc_event(e));
    } else {
        assert(ext[0] == es[0]);
        assert(ext.drop_first() =~= es.drop_first().push(e));
        lemma_enc_events_snoc(es.drop_first(), e);
        assert(enc_events(es.push(e)) =~= enc_events(es) + enc_event(e));
    }
}

// ---------------------------------------------------------------------------
// The executable recording.
// ---------------------------------------------------------------------------

/// The view of a vector of events.
pub open spec fn events_view(es: Seq<Event>) -> Seq<EventView> {
    es.map_values(|e: Event| e@)
}

/// A persisted unit: one initial snapshot and the event log that follows
/// it.  Created at recording start, appended to during the session, and
/// read-only once loaded for replay.
#[derive(Debug, PartialEq)]
pub struct Recording {
    initial_snapshot: Snapshot,
    events: Vec<Event>,
}

impl View for Recording {
    type V = RecordingView;

    closed spec fn view(&self) -> RecordingView {
        RecordingView { snapshot: self.initial_snapshot@, events: events_view(self.events@) }
    }
}

fn push_u32(out: &mut Vec<u8>, n: u32)
    ensures
        final(out)@ == old(out)@ + enc_u32(n as int),
{
    out.push((n % 256) as u8);
    out.push(((n / 256) % 256) as u8);
    out.push(((n / 65536) % 256) as u8);
    out.push(((n / 16777216) % 256) as u8);
    proof {
        assert(out@ =~= old(out)@ + enc_u32(n as int));
    }
}

fn read_u32(bytes: &[u8], i: usize) -> (r: u32)
    requires
        i + 4 <= bytes@.len(),
    ensures
        r as int == dec_u32(bytes@, i as int),
{
    bytes[i] as u32 + 256 * (bytes[i + 1] as u32) + 65536 * (bytes[i + 2] as u32) + 16777216 * (
    bytes[i + 3] as u32)
}

fn color_from(b: u8) -> (r: Option<Color>)
    ensures
        r == sp_color_from(b as int),
{
    match b {
        0 => Some(Color::Base),
        1 => Some(Color::Black),
        2 => Some(Color::Red),
        3 => Some(Color::Green),
        4 => Some(Color::Yellow),
        5 => Some(Color::Blue),
        6 => Some(Color::Magenta),
        7 => Some(Color::Cyan),
        8 => Some(Color::White),
        _ => None,
    }
}

fn parse_cell(bytes: &[u8], i: usize) -> (r: Result<(Cell, usize), LoadRecordingError>)
    requires
        i <= bytes@.len(),
    ensures
        match r {
            Ok(p) => sp_parse_cell(bytes@, i as int)
                == Ok::<(Cell, int), LoadRecordingError>((p.0, p.1 as int)) && p.1 == i + 4,
            Err(e) => sp_parse_cell(bytes@, i as int)
                == Err::<(Cell, int), LoadRecordingError>(e),
        },
{
    if bytes.len() - i < 4 {
        return Err(LoadRecordingError::Truncated);
    }
    let chb = bytes[i];
    if chb < 0x20 || chb > 0x7e {
        return Err(LoadRecordingError::Invalid);
    }
    let fg = match color_from(bytes[i + 1]) {
        Some(c) => c,
        None => {
            return Err(LoadRecordingError::Invalid);
        },
    };
    let bg = match color_from(bytes[i + 2]) {
        Some(c) => c,
        None => {
            return Err(LoadRecordingError::Invalid);
        },
    };
    let flag = bytes[i + 3];
    if flag != 0 && flag != 1 {
        return Err(LoadRecordingError::Invalid);
    }
    Ok((Cell { ch: chb as char, fg: fg, bg: bg, bold: flag == 1 }, i + 4))
}

fn parse_row(bytes: &[u8], i: usize, w: usize) -> (r: Result<(Vec<Cell>, usize), LoadRecordingError>)
    requires
        i <= bytes@.len(),
    ensures
        match r {
            Ok(p) => sp_parse_row(bytes@, i as int, w as int, Seq::empty())
                == Ok::<(Seq<Cell>, int), LoadRecordingError>((p.0@, p.1 as int))
                && i <= p.1 <= bytes@.len(),
            Err(e) => sp_parse_row(bytes@, i as int, w as int, Seq::empty())
                == Err::<(Seq<Cell>, int), LoadRecordingError>(e),
        },
{
    let mut acc: Vec<Cell> = Vec::new();
    let mut pos = i;
    let mut k: usize = 0;
    while k < w
        invariant
            k <= w,
            i <= pos <= bytes@.len(),
            sp_parse_row(bytes@, i as int, w as int, Seq::empty())
                == sp_parse_row(bytes@, pos as int, (w - k) as int, acc@),
        decreases w - k,
    {
        match parse_cell(bytes, pos) {
            Err(e) => {
                return Err(e);
            },
            Ok(p) => {
                acc.push(p.0);
                pos = p.1;
                k += 1;
            },
        }
    }
    Ok((acc, pos))
}

fn parse_grid(bytes: &[u8], i: usize, w: usize, h: usize) -> (r: Result<
    (Vec<Vec<Cell>>, usize),
    LoadRecordingError,
>)
    requires
        i <= bytes@.len(),
    ensures
        match r {
            Ok(p) => sp_parse_rows(bytes@, i as int, w as int, h as int, Seq::empty())
                == Ok::<(Seq<Seq<Cell>>, int), LoadRecordingError>(
                (p.0@.map_values(|row: Vec<Cell>| row@), p.1 as int),
            ) && i <= p.1 <= bytes@.len(),
            Err(e) => sp_parse_rows(bytes@, i as int, w as int, h as int, Seq::empty())
                == Err::<(Seq<Seq<Cell>>, int), LoadRecordingError>(e),
        },
{
    let mut acc: Vec<Vec<Cell>> = Vec::new();
    let mut pos = i;
    let mut k: usize = 0;
    proof {
        assert(acc@.map_values(|row: Vec<Cell>| row@) =~= Seq::<Seq<Cell>>::empty());
    }
    while k < h
        invariant
            k <= h,
            i <= pos <= bytes@.len(),
            sp_parse_rows(bytes@, i as int, w as int, h as int, Seq::empty())
                == sp_parse_rows(
                bytes@,
                pos as int,
                w as int,
                (h - k) as int,
                acc@.map_values(|row: Vec<Cell>| row@),
            ),
        decreases h - k,
    {
        match parse_row(bytes, pos, w) {
            Err(e) => {
                return Err(e);
            },
            Ok(p) => {
                let ghost prev = acc@;
                acc.push(p.0);
                pos = p.1;
                k += 1;
                proof {
                    assert(acc@.map_values(|row: Vec<Cell>| row@)
                        =~= prev.map_values(|row: Vec<Cell>| row@).push(p.0@));
                }
            },
        }
    }
    Ok((acc, pos))
}

fn parse_event(bytes: &[u8], i: usize) -> (r: Result<(Event, usize), LoadRecordingError>)
    requires
        i <= bytes@.len(),
    ensures
        match r {
            Ok(p) => sp_parse_event(bytes@, i as int)
                == Ok::<(EventView, int), LoadRecordingError>((p.0@, p.1 as int))
                && i < p.1 <= bytes@.len(),
            Err(e) => sp_parse_event(bytes@, i as int)
                == Err::<(EventView, int), LoadRecordingError>(e),
        },
{
    if i >= bytes.len() {
        return Err(LoadRecordingError::Truncated);
    }
    let tag = bytes[i];
    if tag == 0 {
        if bytes.len() - i < 5 {
            return Err(LoadRecordingError::Truncated);
        }
        let n = read_u32(bytes, i + 1) as usize;
        if bytes.len() - i - 5 < n {
            return Err(LoadRecordingError::Truncated);
        }
        let payload = vstd::slice::slice_to_vec(vstd::slice::slice_subrange(bytes, i + 5, i + 5 + n));
        proof {
            assert(payload@ =~= bytes@.subrange(i + 5, i + 5 + n as int));
        }
        Ok((Event::Data(payload), i + 5 + n))
    } else if tag == 1 {
        if bytes.len() - i < 9 {
            return Err(LoadRecordingError::Truncated);
        }
        let w = read_u32(bytes, i + 1) as usize;
        let h = read_u32(bytes, i + 5) as usize;
        Ok((Event::Control(ControlAction::Resize { width: w, height: h }), i + 9))
    } else if tag == 2 {
        Ok((Event::Control(ControlAction::Noop), i + 1))
    } else {
        Err(LoadRecordingError::Invalid)
    }
}

fn parse_event_log(bytes: &[u8], i: usize, n: u32) -> (r: Result<
    (Vec<Event>, usize),
    LoadRecordingError,
>)
    requires
        i <= bytes@.len(),
    ensures
        match r {
            Ok(p) => sp_parse_events(bytes@, i as int, n as int, Seq::empty())
                == Ok::<(Seq<EventView>, int), LoadRecordingError>(
                (events_view(p.0@), p.1 as int),
            ) && i <= p.1 <= bytes@.len(),
            Err(e) => sp_parse_events(bytes@, i as int, n as int, Seq::empty())
                == Err::<(Seq<EventView>, int), LoadRecordingError>(e),
        },
{
    let mut acc: Vec<Event> = Vec::new();
    let mut pos = i;
    let mut k: u32 = 0;
    proof {
        assert(events_view(acc@) =~= Seq::<EventView>::empty());
    }
    while k < n
        invariant
            k <= n,
            i <= pos <= bytes@.len(),
            sp_parse_events(bytes@, i as int, n as int, Seq::empty())
                == sp_parse_events(bytes@, pos as int, (n - k) as int, events_view(acc@)),
        decreases n - k,
    {
        match parse_event(bytes, pos) {
            Err(e) => {
                return Err(e);
            },
            Ok(p) => {
                let ghost prev = acc@;
                acc.push(p.0);
                proof {
                    assert(events_view(acc@) =~= events_view(prev).push(p.0@));
                }
                pos = p.1;
                k += 1;
            },
        }
    }
    Ok((acc, pos))
}

impl Recording {
    /// Begin a recording from the given initial snapshot, with zero
    /// events.
    pub fn start(initial_snapshot: Snapshot) -> (r: Recording)
        ensures
            r@.snapshot == initial_snapshot@,
            r@.events.len() == 0,
    {
        let r = Recording { initial_snapshot: initial_snapshot, events: Vec::new() };
        proof {
            assert(r@.events =~= Seq::<EventView>::empty());
        }
        r
    }

    /// Append one event to the tail of the log; insertion order is the
    /// replay order.
    pub fn append(&mut self, event: Event)
        ensures
            final(self)@.snapshot == old(self)@.snapshot,
            final(self)@.events == old(self)@.events.push(event@),
    {
        let ghost prev = self.events@;
        self.events.push(event);
        proof {
            assert(events_view(self.events@) =~= events_view(prev).push(self.events@.last()@));
        }
    }

    /// The number of events in the log.
    pub fn len(&self) -> (n: usize)
        ensures
            n == self@.events.len(),
    {
        self.events.len()
    }

    /// The snapshot replay starts from.
    pub fn initial_state(&self) -> (s: &Snapshot)
        ensures
            s@ == self@.snapshot,
    {
        &self.initial_snapshot
    }

    /// The event at one position of the log.
    pub fn event_at(&self, i: usize) -> (e: &Event)
        requires
            i < self@.events.len(),
        ensures
            e@ == self@.events[i as int],
    {
        &self.events[i]
    }

    /// Serialize the recording into the persisted byte format.
    pub fn encode(&self) -> (out: Vec<u8>)
        requires
            encodable(self@),
        ensures
            out@ == sp_encode(self@),
    {
        let snap = &self.initial_snapshot;
        let mut out: Vec<u8> = Vec::new();
        out.push(MAGIC0);
        out.push(MAGIC1);
        out.push(VERSION);
        push_u32(&mut out, snap.width as u32);
        push_u32(&mut out, snap.height as u32);
        push_u32(&mut out, snap.cursor_row as u32);
        push_u32(&mut out, snap.cursor_col as u32);
        out.push(if snap.cursor_visible { 1 } else { 0 });
        let ghost head = out@;
        proof {
            assert(head =~= seq![MAGIC0, MAGIC1, VERSION] + enc_u32(self@.snapshot.width)
                + enc_u32(self@.snapshot.height) + enc_u32(self@.snapshot.cursor_row)
                + enc_u32(self@.snapshot.cursor_col)
                + seq![if self@.snapshot.cursor_visible { 1u8 } else { 0u8 }]);
        }
        let mut r: usize = 0;
        proof {
            assert(self@.snapshot.grid.take(0) =~= Seq::<Seq<Cell>>::empty());
            assert(out@ =~= head + enc_rows(self@.snapshot.grid.take(0)));
        }
        while r < snap.grid.len()
            invariant
                r <= snap.grid@.len(),
                snap == &self.initial_snapshot,
                encodable(self@),
                out@ == head + enc_rows(self@.snapshot.grid.take(r as int)),
            decreases snap.grid@.len() - r,
        {
            let row = &snap.grid[r];
            let ghost row_start = out@;
            let mut c: usize = 0;
            proof {
                assert(self@.snapshot.grid[r as int].take(0) =~= Seq::<Cell>::empty());
                assert(out@ =~= row_start + enc_row(self@.snapshot.grid[r as int].take(0)));
            }
            while c < row.len()
                invariant
                    c <= row@.len(),
                    snap == &self.initial_snapshot,
                    encodable(self@),
                    r < self@.snapshot.grid.len(),
                    row == &snap.grid[r as int],
                    row@ == self@.snapshot.grid[r as int],
                    out@ == row_start + enc_row(self@.snapshot.grid[r as int].take(c as int)),
                decreases row@.len() - c,
            {
                let cell = row[c];
                proof {
                    assert(grid_wf(self@.snapshot.grid, self@.snapshot.width, self@.snapshot.height));
                    assert(cell_ok(self@.snapshot.grid[r as int][c as int]));
                }
                out.push(cell.ch as u8);
                out.push(color_to_byte(cell.fg));
                out.push(color_to_byte(cell.bg));
                out.push(if cell.bold { 1 } else { 0 });
                proof {
                    let prefix = self@.snapshot.grid[r as int].take(c as int);
                    lemma_enc_row_snoc(prefix, cell);
                    assert(prefix.push(cell) =~= self@.snapshot.grid[r as int].take(c as int + 1));
                    assert(out@ =~= row_start + enc_row(
                        self@.snapshot.grid[r as int].take(c as int + 1),
                    ));
                }
                c += 1;
            }
            proof {
                let g = self@.snapshot.grid;
                assert(g[r as int].take(row@.len() as int) =~= g[r as int]);
                lemma_enc_rows_snoc(g.take(r as int), g[r as int]);
                assert(g.take(r as int).push(g[r as int]) =~= g.take(r as int + 1));
                assert(out@ =~= head + enc_rows(g.take(r as int + 1)));
            }
            r += 1;
        }
        proof {
            assert(self@.snapshot.grid.take(self@.snapshot.grid.len() as int)
                =~= self@.snapshot.grid);
        }
        push_u32(&mut out, self.events.len() as u32);
        let ghost mid = out@;
        let mut k: usize = 0;
        proof {
            assert(self@.events.take(0) =~= Seq::<EventView>::empty());
            assert(out@ =~= mid + enc_events(self@.events.take(0)));
        }
        while k < self.events.len()
            invariant
                k <= self@.events.len(),
                encodable(self@),
                out@ == mid + enc_events(self@.events.take(k as int)),
            decreases self@.events.len() - k,
        {
            let ghost prev_events = self@.events.take(k as int);
            let ghost ev = self@.events[k as int];
            proof {
                assert(event_encodable(self@.events[k as int]));
            }
            match &self.events[k] {
                Event::Data(bytes) => {
                    out.push(0);
                    push_u32(&mut out, bytes.len() as u32);
                    let mut p: usize = 0;
                    let ghost data_start = out@;
                    while p < bytes.len()
                        invariant
                            p <= bytes@.len(),
                            out@ == data_start + bytes@.take(p as int),
                        decreases bytes@.len() - p,
                    {
                        let b = bytes[p];
                        out.push(b);
                        proof {
                            assert(out@ =~= data_start + bytes@.take(p as int + 1));
                        }
                        p += 1;
                    }
                    proof {
                        assert(bytes@.take(bytes@.len() as int) =~= bytes@);
                        assert(out@ =~= mid + enc_events(prev_events) + enc_event(ev));
                    }
                },
                Event::Control(action) => match action {
                    ControlAction::Resize { width, height } => {
                        out.push(1);
                        push_u32(&mut out, *width as u32);
                        push_u32(&mut out, *height as u32);
                        proof {
                            assert(out@ =~= mid + enc_events(prev_events) + enc_event(ev));
                        }
                    },
                    ControlAction::Noop => {
                        out.push(2);
                        proof {
                            assert(out@ =~= mid + enc_events(prev_events) + enc_event(ev));
                        }
                    },
                },
            }
            proof {
                lemma_enc_events_snoc(prev_events, ev);
                assert(prev_events.push(ev) =~= self@.events.take(k as int + 1));
                assert(out@ =~= mid + enc_events(self@.events.take(k as int + 1)));
            }
            k += 1;
        }
        proof {
            assert(self@.events.take(self@.events.len() as int) =~= self@.events);
            assert(out@ =~= sp_encode(self@));
        }
        out
    }

    /// Deserialize persisted bytes, failing closed on anything malformed,
    /// truncated or version-incompatible; the result is exactly what the
    /// format specification [`sp_decode`] reads from the bytes.
    pub fn decode(bytes: &[u8]) -> (r: Result<Recording, LoadRecordingError>)
        ensures
            match r {
                Ok(rec) => sp_decode(bytes@) == Ok::<RecordingView, LoadRecordingError>(rec@),
                Err(e) => sp_decode(bytes@) == Err::<RecordingView, LoadRecordingError>(e),
            },
    {
        if bytes.len() < 2 {
            return Err(LoadRecordingError::Truncated);
        }
        if !(bytes[0] == MAGIC0 && bytes[1] == MAGIC1) {
            return Err(LoadRecordingError::BadMagic);
        }
        if bytes.len() < 3 {
            return Err(LoadRecordingError::Truncated);
        }
        if bytes[2] != VERSION {
            return Err(LoadRecordingError::UnsupportedVersion);
        }
        if bytes.len() < 20 {
            return Err(LoadRecordingError::Truncated);
        }
        let w32 = read_u32(bytes, 3);
        let h32 = read_u32(bytes, 7);
        let cr32 = read_u32(bytes, 11);
        let cc32 = read_u32(bytes, 15);
        let vb = bytes[19];
        let w = w32 as usize;
        let h = h32 as usize;
        if !(1 <= w && w <= MAX_DIM && 1 <= h && h <= MAX_DIM && (vb == 0 || vb == 1)) {
            return Err(LoadRecordingError::Invalid);
        }
        let grid_parse = match parse_grid(bytes, 20, w, h) {
            Err(e) => {
                return Err(e);
            },
            Ok(p) => p,
        };
        let grid = grid_parse.0;
        let j = grid_parse.1;
        if bytes.len() - j < 4 {
            return Err(LoadRecordingError::Truncated);
        }
        let n = read_u32(bytes, j);
        let events_parse = match parse_event_log(bytes, j + 4, n) {
            Err(e) => {
                return Err(e);
            },
            Ok(p) => p,
        };
        let events = events_parse.0;
        let k = events_parse.1;
        if k != bytes.len() {
            return Err(LoadRecordingError::Invalid);
        }
        let rec = Recording {
            initial_snapshot: Snapshot {
                grid: grid,
                cursor_row: cr32 as usize,
                cursor_col: cc32 as usize,
                cursor_visible: vb == 1,
                width: w,
                height: h,
            },
            events: events,
        };
        proof {
            assert(sp_decode(bytes@) == Ok::<RecordingView, LoadRecordingError>(rec@));
        }
        Ok(rec)
    }
}

impl crate::emulator::TerminalEmulator {
    /// Begin recording the live session: the recording opens with a
    /// snapshot of the terminal as it stands now and an empty log.
    pub fn start_recording(&self) -> (r: Recording)
        requires
            self@.wf(),
        ensures
            r@.snapshot == crate::emulator::sp_snapshot_of(self@),
            r@.snapshot.consistent(),
            r@.events.len() == 0,
    {
        Recording::start(self.capture_snapshot())
    }
}

/// The byte a color is stored as.
fn color_to_byte(c: Color) -> (r: u8)
    ensures
        r as int == color_code(c),
{
    match c {
        Color::Base => 0,
        Color::Black => 1,
        Color::Red => 2,
        Color::Green => 3,
        Color::Yellow => 4,
        Color::Blue => 5,
        Color::Magenta => 6,
        Color::Cyan => 7,
        Color::White => 8,
    }
}

} // verus!
