//! The terminal state machine: consumes a byte stream, interprets plain text
//! and escape sequences, and maintains the authoritative grid and cursor.
//!
//! The whole machine is specified by the pure transition function
//! [`sp_step`]: feeding bytes to a [`TerminalEmulator`] is proved equal to
//! folding `sp_step` over them, so replay of a byte stream is deterministic
//! by construction.

use vstd::prelude::*;
use crate::screen::{Cell, Color, Snapshot, SnapshotView, MAX_DIM, blank_grid, cell_ok, dims_ok, grid_wf, spec_blank_cell};

verus! {

/// Largest numeric argument an escape sequence may carry; larger values
/// saturate here, so argument parsing can never overflow.
pub const MAX_PARAM: usize = 0xffff;

/// The escape-sequence parser's state: plain text, just after an escape
/// byte, collecting a control-sequence's parameter bytes, or skipping an
/// operating-system-command string.
#[derive(Debug)]
pub enum ParserState {
    Ground,
    Escape,
    Csi { params: Vec<u8> },
    Osc,
}

/// The mathematical value of a [`ParserState`].
#[verifier::ext_equal]
pub ghost enum ParserView {
    Ground,
    Escape,
    Csi(Seq<u8>),
    Osc,
}

impl View for ParserState {
    type V = ParserView;

    open spec fn view(&self) -> ParserView {
        match self {
            ParserState::Ground => ParserView::Ground,
            ParserState::Escape => ParserView::Escape,
            ParserState::Csi { params } => ParserView::Csi(params@),
            ParserState::Osc => ParserView::Osc,
        }
    }
}

/// The mathematical value of a [`TerminalEmulator`]: the full observable
/// terminal state plus the parser's progress.
#[verifier::ext_equal]
pub ghost struct EmulatorView {
    pub grid: Seq<Seq<Cell>>,
    pub cursor_row: int,
    pub cursor_col: int,
    pub cursor_visible: bool,
    pub width: int,
    pub height: int,
    pub fg: Color,
    pub bg: Color,
    pub bold: bool,
    pub parser: ParserView,
}

impl EmulatorView {
    /// Well-formedness: valid dimensions, a grid of exactly those
    /// dimensions holding printable cells, and a cursor inside them.
    pub open spec fn wf(self) -> bool {
        &&& dims_ok(self.width, self.height)
        &&& grid_wf(self.grid, self.width, self.height)
        &&& 0 <= self.cursor_row < self.height
        &&& 0 <= self.cursor_col < self.width
    }
}

/// A fresh terminal: blank grid, default attributes, cursor at the origin,
/// parser at ground.
pub open spec fn sp_fresh(width: int, height: int) -> EmulatorView {
    EmulatorView {
        grid: blank_grid(width, height),
        cursor_row: 0,
        cursor_col: 0,
        cursor_visible: true,
        width: width,
        height: height,
        fg: Color::Base,
        bg: Color::Base,
        bold: false,
        parser: ParserView::Ground,
    }
}

/// The state a snapshot rehydrates to: the captured grid, cursor and size,
/// with default pen attributes and the parser at ground.
pub open spec fn sp_from_snapshot(s: SnapshotView) -> EmulatorView {
    EmulatorView {
        grid: s.grid,
        cursor_row: s.cursor_row,
        cursor_col: s.cursor_col,
        cursor_visible: s.cursor_visible,
        width: s.width,
        height: s.height,
        fg: Color::Base,
        bg: Color::Base,
        bold: false,
        parser: ParserView::Ground,
    }
}

/// The snapshot [`TerminalEmulator::capture_snapshot`] produces.
pub open spec fn sp_snapshot_of(v: EmulatorView) -> SnapshotView {
    SnapshotView {
        grid: v.grid,
        cursor_row: v.cursor_row,
        cursor_col: v.cursor_col,
        cursor_visible: v.cursor_visible,
        width: v.width,
        height: v.height,
    }
}

/// One blank row of the given width.
pub open spec fn blank_row(width: int) -> Seq<Cell> {
    Seq::new(width as nat, |c: int| spec_blank_cell())
}

/// A line feed: move the cursor down one row, scrolling the grid up by one
/// row (discarding the top, appending a blank bottom row) when the cursor
/// is already on the last row.
pub open spec fn sp_line_feed(v: EmulatorView) -> EmulatorView {
    if v.cursor_row + 1 < v.height {
        EmulatorView { cursor_row: v.cursor_row + 1, ..v }
    } else if v.grid.len() >= 1 {
        EmulatorView {
            grid: v.grid.subrange(1, v.grid.len() as int).push(blank_row(v.width)),
            ..v
        }
    } else {
        v
    }
}

/// Write one printable character at the cursor with the current pen
/// attributes, then advance the cursor, wrapping to the next line (and
/// scrolling) past the right edge.
pub open spec fn sp_put_char(v: EmulatorView, ch: char) -> EmulatorView {
    if 0 <= v.cursor_row < v.grid.len() {
        let cell = Cell { ch: ch, fg: v.fg, bg: v.bg, bold: v.bold };
        let written = EmulatorView {
            grid: v.grid.update(
                v.cursor_row,
                v.grid[v.cursor_row].update(v.cursor_col, cell),
            ),
            ..v
        };
        if v.cursor_col + 1 < v.width {
            EmulatorView { cursor_col: v.cursor_col + 1, ..written }
        } else {
            sp_line_feed(EmulatorView { cursor_col: 0, ..written })
        }
    } else {
        v
    }
}

/// Saturating accumulation of one decimal digit into a parsed argument.
pub open spec fn sp_acc_digit(acc: int, digit: int) -> int {
    if acc * 10 + digit > MAX_PARAM { MAX_PARAM as int } else { acc * 10 + digit }
}

/// Parse a control sequence's parameter bytes into numeric arguments:
/// arguments are separated by `;`, digits accumulate (saturating at
/// [`MAX_PARAM`]), and any other collected byte is ignored.  The result is
/// never empty: an empty byte string parses as the single argument 0.
pub open spec fn sp_parse_params(s: Seq<u8>, acc: int) -> Seq<int>
    decreases s.len(),
{
    if s.len() == 0 {
        seq![acc]
    } else if s[0] == 0x3b {
        seq![acc] + sp_parse_params(s.drop_first(), 0)
    } else if 0x30 <= s[0] <= 0x39 {
        sp_parse_params(s.drop_first(), sp_acc_digit(acc, s[0] - 0x30))
    } else {
        sp_parse_params(s.drop_first(), acc)
    }
}

/// The `i`th parsed argument, taking 0 where the sequence gave none.
pub open spec fn sp_arg(ps: Seq<int>, i: int) -> int {
    if 0 <= i < ps.len() { ps[i] } else { 0 }
}

/// The `i`th parsed argument with 0 (absent or explicit) meaning 1, as
/// cursor-movement sequences read their counts.
pub open spec fn sp_arg1(ps: Seq<int>, i: int) -> int {
    vstd::math::max(sp_arg(ps, i), 1)
}

/// Whether the collected parameter bytes start with a `?` marker (private
/// sequences such as cursor visibility).
pub open spec fn sp_private(params: Seq<u8>) -> bool {
    params.len() > 0 && params[0] == 0x3f
}

/// The color selected by a numeric code 0 through 7.
pub open spec fn sp_color_of(code: int) -> Color {
    if code == 0 { Color::Black }
    else if code == 1 { Color::Red }
    else if code == 2 { Color::Green }
    else if code == 3 { Color::Yellow }
    else if code == 4 { Color::Blue }
    else if code == 5 { Color::Magenta }
    else if code == 6 { Color::Cyan }
    else { Color::White }
}

/// Fold a select-graphic-rendition argument list over the pen: 0 resets,
/// 1 sets bold, 30-37/40-47 pick colors, 39/49 restore defaults; anything
/// else is ignored.
pub open spec fn sp_sgr(fg: Color, bg: Color, bold: bool, ps: Seq<int>) -> (Color, Color, bool)
    decreases ps.len(),
{
    if ps.len() == 0 {
        (fg, bg, bold)
    } else {
        let p = ps[0];
        let rest = ps.drop_first();
        if p == 0 { sp_sgr(Color::Base, Color::Base, false, rest) }
        else if p == 1 { sp_sgr(fg, bg, true, rest) }
        else if 30 <= p <= 37 { sp_sgr(sp_color_of(p - 30), bg, bold, rest) }
        else if p == 39 { sp_sgr(Color::Base, bg, bold, rest) }
        else if 40 <= p <= 47 { sp_sgr(fg, sp_color_of(p - 40), bold, rest) }
        else if p == 49 { sp_sgr(fg, Color::Base, bold, rest) }
        else { sp_sgr(fg, bg, bold, rest) }
    }
}

/// Clear the cursor's row from the cursor column to the right edge.
pub open spec fn sp_clear_line_tail(v: EmulatorView) -> EmulatorView {
    if 0 <= v.cursor_row < v.grid.len() {
        EmulatorView {
            grid: v.grid.update(
                v.cursor_row,
                Seq::new(v.grid[v.cursor_row].len(), |c: int|
                    if c < v.cursor_col { v.grid[v.cursor_row][c] } else { spec_blank_cell() }),
            ),
            ..v
        }
    } else {
        v
    }
}

/// Execute one complete control sequence: collected parameter bytes plus
/// its final byte, applied to a state whose parser is already back at
/// ground.  Unrecognized final bytes change nothing: the sequence is
/// consumed and discarded.
pub open spec fn sp_csi_apply(v: EmulatorView, params: Seq<u8>, fin: u8) -> EmulatorView {
    let ps = sp_parse_params(params, 0);
    if fin == 0x41 {  // cursor up
        EmulatorView { cursor_row: vstd::math::max(v.cursor_row - sp_arg1(ps, 0), 0), ..v }
    } else if fin == 0x42 {  // cursor down
        EmulatorView { cursor_row: vstd::math::min(v.cursor_row + sp_arg1(ps, 0), v.height - 1), ..v }
    } else if fin == 0x43 {  // cursor right
        EmulatorView { cursor_col: vstd::math::min(v.cursor_col + sp_arg1(ps, 0), v.width - 1), ..v }
    } else if fin == 0x44 {  // cursor left
        EmulatorView { cursor_col: vstd::math::max(v.cursor_col - sp_arg1(ps, 0), 0), ..v }
    } else if fin == 0x48 || fin == 0x66 {  // cursor position, 1-based
        EmulatorView {
            cursor_row: vstd::math::min(sp_arg1(ps, 0) - 1, v.height - 1),
            cursor_col: vstd::math::min(sp_arg1(ps, 1) - 1, v.width - 1),
            ..v
        }
    } else if fin == 0x4a {  // erase display
        EmulatorView { grid: blank_grid(v.width, v.height), ..v }
    } else if fin == 0x4b {  // erase to end of line
        sp_clear_line_tail(v)
    } else if fin == 0x6d {  // select graphic rendition
        let pen = sp_sgr(v.fg, v.bg, v.bold, ps);
        EmulatorView { fg: pen.0, bg: pen.1, bold: pen.2, ..v }
    } else if fin == 0x68 && sp_private(params) && sp_arg(ps, 0) == 25 {  // show cursor
        EmulatorView { cursor_visible: true, ..v }
    } else if fin == 0x6c && sp_private(params) && sp_arg(ps, 0) == 25 {  // hide cursor
        EmulatorView { cursor_visible: false, ..v }
    } else {
        v
    }
}

/// One byte in ground state: printable bytes are written at the cursor,
/// the few recognized control bytes move the cursor, an escape byte opens
/// a sequence, and every other byte is dropped.
pub open spec fn sp_ground(v: EmulatorView, b: u8) -> EmulatorView {
    if b == 0x1b {
        EmulatorView { parser: ParserView::Escape, ..v }
    } else if b == 0x0a {
        sp_line_feed(v)
    } else if b == 0x0d {
        EmulatorView { cursor_col: 0, ..v }
    } else if b == 0x08 {
        if v.cursor_col > 0 { EmulatorView { cursor_col: v.cursor_col - 1, ..v } } else { v }
    } else if 0x20 <= b <= 0x7e {
        sp_put_char(v, b as char)
    } else {
        v
    }
}

/// The complete transition function: one input byte against the current
/// parser state.  Malformed bytes inside a sequence consistently drop the
/// sequence (and the byte) and return the parser to ground, so no input
/// can wedge the parser; a fresh escape byte always restarts a sequence.
pub open spec fn sp_step(v: EmulatorView, b: u8) -> EmulatorView {
    match v.parser {
        ParserView::Ground => sp_ground(v, b),
        ParserView::Escape => {
            if b == 0x5b {
                EmulatorView { parser: ParserView::Csi(Seq::empty()), ..v }
            } else if b == 0x5d {
                EmulatorView { parser: ParserView::Osc, ..v }
            } else if b == 0x1b {
                EmulatorView { parser: ParserView::Escape, ..v }
            } else {
                EmulatorView { parser: ParserView::Ground, ..v }
            }
        },
        ParserView::Csi(params) => {
            if 0x20 <= b <= 0x3f {
                EmulatorView { parser: ParserView::Csi(params.push(b)), ..v }
            } else if 0x40 <= b <= 0x7e {
                sp_csi_apply(EmulatorView { parser: ParserView::Ground, ..v }, params, b)
            } else if b == 0x1b {
                EmulatorView { parser: ParserView::Escape, ..v }
            } else {
                EmulatorView { parser: ParserView::Ground, ..v }
            }
        },
        ParserView::Osc => {
            if b == 0x07 {
                EmulatorView { parser: ParserView::Ground, ..v }
            } else if b == 0x1b {
                EmulatorView { parser: ParserView::Escape, ..v }
            } else {
                v
            }
        },
    }
}

/// Folding [`sp_step`] over a whole byte sequence: the specification of
/// feeding `s` to the terminal.  Replay is deterministic because terminal
/// state after any input is this pure function of the prior state and the
/// bytes.
pub open spec fn sp_apply_bytes(v: EmulatorView, s: Seq<u8>) -> EmulatorView
    decreases s.len(),
{
    if s.len() == 0 {
        v
    } else {
        sp_step(sp_apply_bytes(v, s.drop_last()), s.last())
    }
}

/// The state after a successful resize: the grid truncated or padded with
/// blanks to the new dimensions, the cursor clamped into bounds, pen and
/// parser untouched.
pub open spec fn sp_resize(v: EmulatorView, width: int, height: int) -> EmulatorView {
    EmulatorView {
        grid: Seq::new(height as nat, |r: int| Seq::new(width as nat, |c: int|
            if 0 <= r < v.grid.len() && 0 <= c < v.grid[r].len() {
                v.grid[r][c]
            } else {
                spec_blank_cell()
            })),
        cursor_row: vstd::math::min(v.cursor_row, height - 1),
        cursor_col: vstd::math::min(v.cursor_col, width - 1),
        width: width,
        height: height,
        ..v
    }
}

/// The view of a vector of grid rows.
pub open spec fn rows_view(g: Seq<Vec<Cell>>) -> Seq<Seq<Cell>> {
    g.map_values(|row: Vec<Cell>| row@)
}

// ---------------------------------------------------------------------------
// Preservation lemmas: every transition keeps the terminal well formed and
// never changes the window dimensions.
// ---------------------------------------------------------------------------

proof fn lemma_line_feed_wf(v: EmulatorView)
    requires
        v.wf(),
    ensures
        sp_line_feed(v).wf(),
        sp_line_feed(v).width == v.width,
        sp_line_feed(v).height == v.height,
        sp_line_feed(v).parser == v.parser,
{
    if !(v.cursor_row + 1 < v.height) {
        let g = v.grid.subrange(1, v.grid.len() as int).push(blank_row(v.width));
        assert forall|r: int| 0 <= r < v.height implies (#[trigger] g[r]).len() == v.width by {
            if r < v.height - 1 {
                assert(g[r] == v.grid[r + 1]);
            }
        }
        assert forall|r: int, c: int|
            0 <= r < v.height && 0 <= c < v.width implies cell_ok(#[trigger] g[r][c]) by {
            if r < v.height - 1 {
                assert(g[r] == v.grid[r + 1]);
            }
        }
    }
}

proof fn lemma_put_char_wf(v: EmulatorView, ch: char)
    requires
        v.wf(),
        0x20 <= ch as u32 <= 0x7e,
    ensures
        sp_put_char(v, ch).wf(),
        sp_put_char(v, ch).width == v.width,
        sp_put_char(v, ch).height == v.height,
        sp_put_char(v, ch).parser == v.parser,
{
    let cell = Cell { ch: ch, fg: v.fg, bg: v.bg, bold: v.bold };
    let written = EmulatorView {
        grid: v.grid.update(v.cursor_row, v.grid[v.cursor_row].update(v.cursor_col, cell)),
        ..v
    };
    assert(written.wf());
    if !(v.cursor_col + 1 < v.width) {
        lemma_line_feed_wf(EmulatorView { cursor_col: 0, ..written });
    }
}

proof fn lemma_csi_apply_wf(v: EmulatorView, params: Seq<u8>, fin: u8)
    requires
        v.wf(),
    ensures
        sp_csi_apply(v, params, fin).wf(),
        sp_csi_apply(v, params, fin).width == v.width,
        sp_csi_apply(v, params, fin).height == v.height,
        sp_csi_apply(v, params, fin).parser == v.parser,
{
    if fin == 0x4a {
        crate::screen::lemma_blank_grid_wf(v.width, v.height);
    }
}

/// One byte never breaks well-formedness and never changes the window size:
/// the parser consumes anything, recognized or not.
pub proof fn lemma_step_preserves_wf(v: EmulatorView, b: u8)
    requires
        v.wf(),
    ensures
        sp_step(v, b).wf(),
        sp_step(v, b).width == v.width,
        sp_step(v, b).height == v.height,
{
    match v.parser {
        ParserView::Ground => {
            if b == 0x0a {
                lemma_line_feed_wf(v);
            } else if 0x20 <= b <= 0x7e && b != 0x1b && b != 0x0a && b != 0x0d && b != 0x08 {
                lemma_put_char_wf(v, b as char);
            }
        },
        ParserView::Csi(params) => {
            if 0x40 <= b <= 0x7e && !(0x20 <= b <= 0x3f) {
                lemma_csi_apply_wf(EmulatorView { parser: ParserView::Ground, ..v }, params, b);
            }
        },
        _ => {},
    }
}

/// Parser resilience: an arbitrary byte stream — malformed or truncated
/// escape sequences included — leaves the terminal well formed, with its
/// window dimensions unchanged, and the parser ready for any further input.
pub proof fn lemma_parser_resilience(v: EmulatorView, s: Seq<u8>)
    requires
        v.wf(),
    ensures
        sp_apply_bytes(v, s).wf(),
        sp_apply_bytes(v, s).width == v.width,
        sp_apply_bytes(v, s).height == v.height,
    decreases s.len(),
{
    if s.len() > 0 {
        lemma_parser_resilience(v, s.drop_last());
        lemma_step_preserves_wf(sp_apply_bytes(v, s.drop_last()), s.last());
    }
}

/// The parser can always be brought back to ground by a single byte: a
/// bell byte ends or discards whatever sequence is in progress, so no
/// input can leave the machine rejecting subsequent valid sequences.
pub proof fn lemma_parser_recovers(v: EmulatorView)
    ensures
        sp_step(v, 0x07).parser == ParserView::Ground,
{
}

/// Rehydrating a captured snapshot restores the exact terminal state,
/// provided the capture was taken with default pen attributes and the
/// parser at ground — the state a recording starts from.  (A snapshot
/// carries grid, cursor and size, not the transient pen or parser.)
pub proof fn lemma_capture_rehydrate(v: EmulatorView)
    requires
        v.fg == Color::Base,
        v.bg == Color::Base,
        !v.bold,
        v.parser == ParserView::Ground,
    ensures
        sp_from_snapshot(sp_snapshot_of(v)) == v,
{
}

/// A resize to valid dimensions leaves the terminal well formed, at those
/// dimensions.
pub proof fn lemma_resize_wf(v: EmulatorView, width: int, height: int)
    requires
        v.wf(),
        dims_ok(width, height),
    ensures
        sp_resize(v, width, height).wf(),
        sp_resize(v, width, height).width == width,
        sp_resize(v, width, height).height == height,
{
}

/// Resize idempotence: resizing to given dimensions a second time changes
/// nothing.
pub proof fn lemma_resize_idempotent(v: EmulatorView, width: int, height: int)
    requires
        v.wf(),
        dims_ok(width, height),
    ensures
        sp_resize(sp_resize(v, width, height), width, height) == sp_resize(v, width, height),
{
    let a = sp_resize(v, width, height);
    let b = sp_resize(a, width, height);
    assert forall|r: int| 0 <= r < height implies #[trigger] b.grid[r] =~= a.grid[r] by {
        assert(a.grid[r].len() == width);
    }
    assert(b.grid =~~= a.grid);
    assert(b =~~= a);
}

// ---------------------------------------------------------------------------
// The executable terminal.
// ---------------------------------------------------------------------------

fn blank_row_exec(width: usize) -> (r: Vec<Cell>)
    ensures
        r@ == blank_row(width as int),
{
    let mut row: Vec<Cell> = Vec::new();
    let mut c: usize = 0;
    while c < width
        invariant
            c <= width,
            row@.len() == c,
            forall|j: int| 0 <= j < c ==> row@[j] == spec_blank_cell(),
        decreases width - c,
    {
        row.push(Cell::blank());
        c += 1;
    }
    proof {
        assert(row@ =~= blank_row(width as int));
    }
    row
}

fn blank_grid_exec(width: usize, height: usize) -> (g: Vec<Vec<Cell>>)
    ensures
        rows_view(g@) == blank_grid(width as int, height as int),
{
    let mut grid: Vec<Vec<Cell>> = Vec::new();
    let mut r: usize = 0;
    while r < height
        invariant
            r <= height,
            grid@.len() == r,
            forall|j: int| 0 <= j < r ==> (#[trigger] grid@[j])@ == blank_row(width as int),
        decreases height - r,
    {
        grid.push(blank_row_exec(width));
        r += 1;
    }
    proof {
        assert(rows_view(grid@) =~~= blank_grid(width as int, height as int));
    }
    grid
}

fn copy_row(src: &Vec<Cell>) -> (r: Vec<Cell>)
    ensures
        r@ == src@,
{
    let mut row: Vec<Cell> = Vec::new();
    let mut c: usize = 0;
    while c < src.len()
        invariant
            c <= src@.len(),
            row@.len() == c,
            forall|j: int| 0 <= j < c ==> row@[j] == src@[j],
        decreases src@.len() - c,
    {
        row.push(src[c]);
        c += 1;
    }
    proof {
        assert(row@ =~= src@);
    }
    row
}

fn copy_grid(src: &Vec<Vec<Cell>>) -> (g: Vec<Vec<Cell>>)
    ensures
        rows_view(g@) == rows_view(src@),
{
    let mut grid: Vec<Vec<Cell>> = Vec::new();
    let mut r: usize = 0;
    while r < src.len()
        invariant
            r <= src@.len(),
            grid@.len() == r,
            forall|j: int| 0 <= j < r ==> (#[trigger] grid@[j])@ == src@[j]@,
        decreases src@.len() - r,
    {
        grid.push(copy_row(&src[r]));
        r += 1;
    }
    proof {
        assert(rows_view(grid@) =~= rows_view(src@));
    }
    grid
}

/// Why a snapshot cannot be turned back into a terminal: its declared
/// dimensions are invalid, its grid does not have the declared shape (or
/// holds a non-printable cell), or its cursor lies outside the grid.
#[derive(Clone, Copy, Debug, PartialEq, Eq, Structural)]
pub enum LoadSnapshotError {
    BadDimensions,
    GridMismatch,
    CursorOutOfBounds,
}

/// Why a resize request was rejected: a zero dimension, or one above
/// [`MAX_DIM`].  The prior state is retained unchanged.
#[derive(Clone, Copy, Debug, PartialEq, Eq, Structural)]
pub enum ResizeError {
    ZeroDimension,
    TooLarge,
}

/// The error rehydrating a snapshot gives, if any: the first of invalid
/// dimensions, a grid that does not match them, and a cursor outside them.
pub open spec fn sp_snapshot_error(s: SnapshotView) -> Option<LoadSnapshotError> {
    if !dims_ok(s.width, s.height) {
        Some(LoadSnapshotError::BadDimensions)
    } else if !grid_wf(s.grid, s.width, s.height) {
        Some(LoadSnapshotError::GridMismatch)
    } else if !(0 <= s.cursor_row < s.height && 0 <= s.cursor_col < s.width) {
        Some(LoadSnapshotError::CursorOutOfBounds)
    } else {
        None
    }
}

/// The terminal state machine.  It owns the grid, cursor, pen attributes
/// and escape-sequence parser; bytes enter through [`Self::feed_bytes`],
/// and every mutation is pinned to the pure transition function
/// [`sp_step`].
#[derive(Debug)]
pub struct TerminalEmulator {
    grid: Vec<Vec<Cell>>,
    cursor_row: usize,
    cursor_col: usize,
    cursor_visible: bool,
    width: usize,
    height: usize,
    fg: Color,
    bg: Color,
    bold: bool,
    parser: ParserState,
}

impl View for TerminalEmulator {
    type V = EmulatorView;

    closed spec fn view(&self) -> EmulatorView {
        EmulatorView {
            grid: rows_view(self.grid@),
            cursor_row: self.cursor_row as int,
            cursor_col: self.cursor_col as int,
            cursor_visible: self.cursor_visible,
            width: self.width as int,
            height: self.height as int,
            fg: self.fg,
            bg: self.bg,
            bold: self.bold,
            parser: self.parser@,
        }
    }
}

impl TerminalEmulator {
    /// A fresh terminal of the given window size: blank grid, default
    /// attributes, cursor at the origin.
    pub fn construct(width: usize, height: usize) -> (r: TerminalEmulator)
        requires
            dims_ok(width as int, height as int),
        ensures
            r@ == sp_fresh(width as int, height as int),
            r@.wf(),
    {
        let r = TerminalEmulator {
            grid: blank_grid_exec(width, height),
            cursor_row: 0,
            cursor_col: 0,
            cursor_visible: true,
            width: width,
            height: height,
            fg: Color::Base,
            bg: Color::Base,
            bold: false,
            parser: ParserState::Ground,
        };
        proof {
            crate::screen::lemma_blank_grid_wf(width as int, height as int);
            assert(r@ =~~= sp_fresh(width as int, height as int));
        }
        r
    }

    /// Rehydrate a terminal from a snapshot, validating — not assuming —
    /// that the snapshot is internally consistent.  Succeeds exactly on
    /// consistent snapshots; each error variant names what was wrong, and
    /// nothing is constructed on failure.
    pub fn from_snapshot(snapshot: &Snapshot) -> (r: Result<TerminalEmulator, LoadSnapshotError>)
        ensures
            r is Ok <==> snapshot@.consistent(),
            match r {
                Ok(e) => e@ == sp_from_snapshot(snapshot@) && e@.wf(),
                Err(err) => sp_snapshot_error(snapshot@) == Some(err),
            },
    {
        let width = snapshot.width;
        let height = snapshot.height;
        if width < 1 || width > MAX_DIM || height < 1 || height > MAX_DIM {
            return Err(LoadSnapshotError::BadDimensions);
        }
        if snapshot.grid.len() != height {
            return Err(LoadSnapshotError::GridMismatch);
        }
        let mut r: usize = 0;
        while r < height
            invariant
                r <= height,
                dims_ok(width as int, height as int),
                snapshot@.grid.len() == height,
                snapshot@.width == width,
                snapshot@.height == height,
                forall|j: int| 0 <= j < r ==> (#[trigger] snapshot@.grid[j]).len() == width,
                forall|j: int, c: int|
                    0 <= j < r && 0 <= c < width ==> cell_ok(#[trigger] snapshot@.grid[j][c]),
            decreases height - r,
        {
            if snapshot.grid[r].len() != width {
                proof {
                    assert(snapshot@.grid[r as int] == snapshot.grid@[r as int]@);
                    assert(!grid_wf(snapshot@.grid, snapshot@.width, snapshot@.height));
                }
                return Err(LoadSnapshotError::GridMismatch);
            }
            proof {
                assert(snapshot@.grid[r as int] == snapshot.grid@[r as int]@);
            }
            let mut c: usize = 0;
            while c < width
                invariant
                    c <= width,
                    r < height,
                    dims_ok(width as int, height as int),
                    snapshot@.grid.len() == height,
                    snapshot@.width == width,
                    snapshot@.height == height,
                    snapshot@.grid[r as int] == snapshot.grid@[r as int]@,
                    snapshot@.grid[r as int].len() == width,
                    forall|k: int| 0 <= k < c ==> cell_ok(#[trigger] snapshot@.grid[r as int][k]),
                decreases width - c,
            {
                let ch = snapshot.grid[r][c].ch;
                let code = ch as u32;
                if code < 0x20 || code > 0x7e {
                    proof {
                        assert(!cell_ok(snapshot@.grid[r as int][c as int]));
                        assert(!grid_wf(snapshot@.grid, snapshot@.width, snapshot@.height));
                    }
                    return Err(LoadSnapshotError::GridMismatch);
                }
                c += 1;
            }
            r += 1;
        }
        if snapshot.cursor_row >= height || snapshot.cursor_col >= width {
            return Err(LoadSnapshotError::CursorOutOfBounds);
        }
        let e = TerminalEmulator {
            grid: copy_grid(&snapshot.grid),
            cursor_row: snapshot.cursor_row,
            cursor_col: snapshot.cursor_col,
            cursor_visible: snapshot.cursor_visible,
            width: width,
            height: height,
            fg: Color::Base,
            bg: Color::Base,
            bold: false,
            parser: ParserState::Ground,
        };
        proof {
            assert(e@ =~~= sp_from_snapshot(snapshot@));
        }
        Ok(e)
    }

    /// The window width in character cells.
    pub fn width(&self) -> (w: usize)
        ensures
            w == self@.width,
    {
        self.width
    }

    /// The window height in character cells.
    pub fn height(&self) -> (h: usize)
        ensures
            h == self@.height,
    {
        self.height
    }

    /// The cursor's position, row then column.
    pub fn cursor_pos(&self) -> (p: (usize, usize))
        ensures
            p.0 == self@.cursor_row,
            p.1 == self@.cursor_col,
    {
        (self.cursor_row, self.cursor_col)
    }

    /// Whether the cursor is shown.
    pub fn cursor_visible(&self) -> (v: bool)
        ensures
            v == self@.cursor_visible,
    {
        self.cursor_visible
    }

    /// Capture the current state as an immutable snapshot: a pure function
    /// of the terminal's observable state.
    pub fn capture_snapshot(&self) -> (s: Snapshot)
        requires
            self@.wf(),
        ensures
            s@ == sp_snapshot_of(self@),
            s@.consistent(),
    {
        let s = Snapshot {
            grid: copy_grid(&self.grid),
            cursor_row: self.cursor_row,
            cursor_col: self.cursor_col,
            cursor_visible: self.cursor_visible,
            width: self.width,
            height: self.height,
        };
        proof {
            assert(s@ =~~= sp_snapshot_of(self@));
        }
        s
    }
}

/// The numeric arguments a vector of parsed parameters stands for.
pub open spec fn params_view(ps: Seq<usize>) -> Seq<int> {
    ps.map_values(|x: usize| x as int)
}

/// Parse collected parameter bytes into their numeric arguments, exactly as
/// [`sp_parse_params`] reads them.
fn parse_params(params: &Vec<u8>) -> (r: Vec<usize>)
    ensures
        params_view(r@) == sp_parse_params(params@, 0),
        forall|j: int| 0 <= j < r@.len() ==> #[trigger] r@[j] <= MAX_PARAM,
{
    let mut out: Vec<usize> = Vec::new();
    let mut acc: usize = 0;
    let mut i: usize = 0;
    proof {
        assert(params@.skip(0) =~= params@);
        assert(params_view(out@) + sp_parse_params(params@, 0) =~= sp_parse_params(params@, 0));
    }
    while i < params.len()
        invariant
            i <= params@.len(),
            acc <= MAX_PARAM,
            forall|j: int| 0 <= j < out@.len() ==> #[trigger] out@[j] <= MAX_PARAM,
            sp_parse_params(params@, 0)
                == params_view(out@) + sp_parse_params(params@.skip(i as int), acc as int),
        decreases params@.len() - i,
    {
        let b = params[i];
        proof {
            assert(params@.skip(i as int)[0] == params@[i as int]);
            assert(params@.skip(i as int).drop_first() =~= params@.skip(i as int + 1));
        }
        if b == 0x3b {
            let ghost prev_out = out@;
            out.push(acc);
            proof {
                assert(params_view(out@) =~= params_view(prev_out) + seq![acc as int]);
                assert(params_view(prev_out) + (seq![acc as int]
                    + sp_parse_params(params@.skip(i as int + 1), 0))
                    =~= (params_view(prev_out) + seq![acc as int])
                        + sp_parse_params(params@.skip(i as int + 1), 0));
            }
            acc = 0;
        } else if 0x30 <= b && b <= 0x39 {
            let d = (b - 0x30) as usize;
            let v = acc * 10 + d;
            acc = if v > MAX_PARAM { MAX_PARAM } else { v };
        }
        i += 1;
    }
    proof {
        assert(params@.skip(params@.len() as int) =~= Seq::<u8>::empty());
    }
    let ghost prev_out = out@;
    out.push(acc);
    proof {
        assert(params_view(out@) =~= params_view(prev_out) + seq![acc as int]);
    }
    out
}

/// The `i`th argument, 0 where none was given.
fn arg(ps: &Vec<usize>, i: usize) -> (r: usize)
    requires
        forall|j: int| 0 <= j < ps@.len() ==> #[trigger] ps@[j] <= MAX_PARAM,
    ensures
        r as int == sp_arg(params_view(ps@), i as int),
        r <= MAX_PARAM,
{
    if i < ps.len() { ps[i] } else { 0 }
}

/// The `i`th argument read as a count: absent or zero means 1.
fn arg1(ps: &Vec<usize>, i: usize) -> (r: usize)
    requires
        forall|j: int| 0 <= j < ps@.len() ==> #[trigger] ps@[j] <= MAX_PARAM,
    ensures
        r as int == sp_arg1(params_view(ps@), i as int),
        1 <= r <= MAX_PARAM,
{
    let a = arg(ps, i);
    if a == 0 { 1 } else { a }
}

/// Fold a graphic-rendition argument list over a pen, exactly as
/// [`sp_sgr`] does.
fn sgr_fold(fg: Color, bg: Color, bold: bool, ps: &Vec<usize>) -> (r: (Color, Color, bool))
    ensures
        r == sp_sgr(fg, bg, bold, params_view(ps@)),
{
    let mut cfg = fg;
    let mut cbg = bg;
    let mut cbold = bold;
    let mut i: usize = 0;
    proof {
        assert(params_view(ps@).skip(0) =~= params_view(ps@));
    }
    while i < ps.len()
        invariant
            i <= ps@.len(),
            sp_sgr(fg, bg, bold, params_view(ps@))
                == sp_sgr(cfg, cbg, cbold, params_view(ps@).skip(i as int)),
        decreases ps@.len() - i,
    {
        let p = ps[i];
        proof {
            assert(params_view(ps@).skip(i as int)[0] == ps@[i as int] as int);
            assert(params_view(ps@).skip(i as int).drop_first()
                =~= params_view(ps@).skip(i as int + 1));
        }
        if p == 0 {
            cfg = Color::Base;
            cbg = Color::Base;
            cbold = false;
        } else if p == 1 {
            cbold = true;
        } else if 30 <= p && p <= 37 {
            cfg = color_of((p - 30) as u8);
        } else if p == 39 {
            cfg = Color::Base;
        } else if 40 <= p && p <= 47 {
            cbg = color_of((p - 40) as u8);
        } else if p == 49 {
            cbg = Color::Base;
        }
        i += 1;
    }
    proof {
        assert(params_view(ps@).skip(ps@.len() as int) =~= Seq::<int>::empty());
    }
    (cfg, cbg, cbold)
}

/// The color a numeric code 0 through 7 selects.
fn color_of(code: u8) -> (r: Color)
    ensures
        r == sp_color_of(code as int),
{
    match code {
        0 => Color::Black,
        1 => Color::Red,
        2 => Color::Green,
        3 => Color::Yellow,
        4 => Color::Blue,
        5 => Color::Magenta,
        6 => Color::Cyan,
        _ => Color::White,
    }
}

impl TerminalEmulator {
    fn line_feed(&mut self)
        requires
            old(self)@.wf(),
        ensures
            final(self)@ == sp_line_feed(old(self)@),
            final(self)@.wf(),
    {
        proof {
            lemma_line_feed_wf(self@);
        }
        if self.cursor_row + 1 < self.height {
            self.cursor_row = self.cursor_row + 1;
        } else {
            self.grid.remove(0);
            let row = blank_row_exec(self.width);
            self.grid.push(row);
            proof {
                assert(rows_view(self.grid@)
                    =~~= old(self)@.grid.subrange(1, old(self)@.grid.len() as int)
                        .push(blank_row(old(self)@.width)));
                assert(self@ =~~= sp_line_feed(old(self)@));
            }
        }
    }

    fn put_char(&mut self, ch: char)
        requires
            old(self)@.wf(),
            0x20 <= ch as u32 <= 0x7e,
        ensures
            final(self)@ == sp_put_char(old(self)@, ch),
            final(self)@.wf(),
    {
        proof {
            lemma_put_char_wf(self@, ch);
        }
        let r = self.cursor_row;
        let c = self.cursor_col;
        let cell = Cell { ch: ch, fg: self.fg, bg: self.bg, bold: self.bold };
        self.grid[r][c] = cell;
        proof {
            assert(rows_view(self.grid@) =~~= old(self)@.grid.update(
                r as int,
                old(self)@.grid[r as int].update(c as int, cell),
            ));
        }
        if self.cursor_col + 1 < self.width {
            self.cursor_col = self.cursor_col + 1;
            proof {
                assert(self@ =~~= sp_put_char(old(self)@, ch));
            }
        } else {
            self.cursor_col = 0;
            self.line_feed();
            proof {
                assert(self@ =~~= sp_put_char(old(self)@, ch));
            }
        }
    }

    fn clear_line_tail(&mut self)
        requires
            old(self)@.wf(),
        ensures
            final(self)@ == sp_clear_line_tail(old(self)@),
            final(self)@.wf(),
    {
        let r = self.cursor_row;
        let mut row: Vec<Cell> = Vec::new();
        let mut c: usize = 0;
        let w = self.width;
        while c < w
            invariant
                c <= w,
                old(self)@.wf(),
                self == old(self),
                r == old(self)@.cursor_row,
                w == old(self)@.width,
                row@.len() == c,
                forall|j: int| 0 <= j < c ==> #[trigger] row@[j]
                    == if j < old(self)@.cursor_col {
                        old(self)@.grid[r as int][j]
                    } else {
                        spec_blank_cell()
                    },
            decreases w - c,
        {
            if c < self.cursor_col {
                let cell = self.grid[r][c];
                row.push(cell);
            } else {
                row.push(Cell::blank());
            }
            c += 1;
        }
        self.grid[r] = row;
        proof {
            assert(rows_view(self.grid@) =~~= sp_clear_line_tail(old(self)@).grid);
            assert(self@ =~~= sp_clear_line_tail(old(self)@));
        }
    }

    fn csi_apply(&mut self, params: &Vec<u8>, fin: u8)
        requires
            old(self)@.wf(),
            old(self)@.parser == ParserView::Ground,
        ensures
            final(self)@ == sp_csi_apply(old(self)@, params@, fin),
            final(self)@.wf(),
    {
        proof {
            lemma_csi_apply_wf(self@, params@, fin);
        }
        let ps = parse_params(params);
        if fin == 0x41 {
            let n = arg1(&ps, 0);
            self.cursor_row = if self.cursor_row > n { self.cursor_row - n } else { 0 };
        } else if fin == 0x42 {
            let n = arg1(&ps, 0);
            let target = self.cursor_row + n;
            self.cursor_row = if target < self.height { target } else { self.height - 1 };
        } else if fin == 0x43 {
            let n = arg1(&ps, 0);
            let target = self.cursor_col + n;
            self.cursor_col = if target < self.width { target } else { self.width - 1 };
        } else if fin == 0x44 {
            let n = arg1(&ps, 0);
            self.cursor_col = if self.cursor_col > n { self.cursor_col - n } else { 0 };
        } else if fin == 0x48 || fin == 0x66 {
            let p0 = arg1(&ps, 0);
            let p1 = arg1(&ps, 1);
            self.cursor_row = if p0 - 1 < self.height { p0 - 1 } else { self.height - 1 };
            self.cursor_col = if p1 - 1 < self.width { p1 - 1 } else { self.width - 1 };
        } else if fin == 0x4a {
            self.grid = blank_grid_exec(self.width, self.height);
        } else if fin == 0x4b {
            self.clear_line_tail();
        } else if fin == 0x6d {
            let pen = sgr_fold(self.fg, self.bg, self.bold, &ps);
            self.fg = pen.0;
            self.bg = pen.1;
            self.bold = pen.2;
        } else if fin == 0x68 || fin == 0x6c {
            let marked = params.len() > 0 && params[0] == 0x3f;
            let a = arg(&ps, 0);
            if marked && a == 25 {
                self.cursor_visible = fin == 0x68;
            }
        }
        proof {
            assert(self@ =~~= sp_csi_apply(old(self)@, params@, fin));
        }
    }

    fn ground_byte(&mut self, b: u8)
        requires
            old(self)@.wf(),
            old(self)@.parser == ParserView::Ground,
        ensures
            final(self)@ == sp_ground(old(self)@, b),
            final(self)@.wf(),
    {
        if b == 0x1b {
            self.parser = ParserState::Escape;
        } else if b == 0x0a {
            self.line_feed();
        } else if b == 0x0d {
            self.cursor_col = 0;
        } else if b == 0x08 {
            if self.cursor_col > 0 {
                self.cursor_col = self.cursor_col - 1;
            }
        } else if 0x20 <= b && b <= 0x7e {
            self.put_char(b as char);
        }
        proof {
            lemma_step_preserves_wf(old(self)@, b);
            assert(self@ =~~= sp_ground(old(self)@, b));
        }
    }

    fn step_byte(&mut self, b: u8)
        requires
            old(self)@.wf(),
        ensures
            final(self)@ == sp_step(old(self)@, b),
            final(self)@.wf(),
    {
        proof {
            lemma_step_preserves_wf(self@, b);
        }
        let mut st = ParserState::Ground;
        core::mem::swap(&mut st, &mut self.parser);
        match st {
            ParserState::Ground => {
                self.ground_byte(b);
            },
            ParserState::Escape => {
                if b == 0x5b {
                    self.parser = ParserState::Csi { params: Vec::new() };
                    proof {
                        assert(self@.parser =~~= ParserView::Csi(Seq::empty()));
                    }
                } else if b == 0x5d {
                    self.parser = ParserState::Osc;
                } else if b == 0x1b {
                    self.parser = ParserState::Escape;
                }
                proof {
                    assert(self@ =~~= sp_step(old(self)@, b));
                }
            },
            ParserState::Csi { mut params } => {
                if 0x20 <= b && b <= 0x3f {
                    params.push(b);
                    self.parser = ParserState::Csi { params };
                } else if 0x40 <= b && b <= 0x7e {
                    self.csi_apply(&params, b);
                } else if b == 0x1b {
                    self.parser = ParserState::Escape;
                }
                proof {
                    assert(self@ =~~= sp_step(old(self)@, b));
                }
            },
            ParserState::Osc => {
                if b == 0x07 {
                    // parser is already at ground
                } else if b == 0x1b {
                    self.parser = ParserState::Escape;
                } else {
                    self.parser = ParserState::Osc;
                }
                proof {
                    assert(self@ =~~= sp_step(old(self)@, b));
                }
            },
        }
    }

    /// Feed a chunk of input bytes through the parser, updating grid,
    /// cursor and attributes.  The result is exactly the fold of the
    /// transition function over the bytes; feeding an empty chunk is a
    /// no-op.
    pub fn feed_bytes(&mut self, bytes: &[u8])
        requires
            old(self)@.wf(),
        ensures
            final(self)@ == sp_apply_bytes(old(self)@, bytes@),
            final(self)@.wf(),
    {
        let mut i: usize = 0;
        proof {
            assert(bytes@.take(0) =~= Seq::<u8>::empty());
        }
        while i < bytes.len()
            invariant
                i <= bytes@.len(),
                self@ == sp_apply_bytes(old(self)@, bytes@.take(i as int)),
                self@.wf(),
            decreases bytes@.len() - i,
        {
            let b = bytes[i];
            self.step_byte(b);
            proof {
                assert(bytes@.take(i as int + 1).drop_last() =~= bytes@.take(i as int));
                assert(bytes@.take(i as int + 1).last() == bytes@[i as int]);
            }
            i += 1;
        }
        proof {
            assert(bytes@.take(bytes@.len() as int) =~= bytes@);
        }
    }

    /// Resize the terminal to the given dimensions, truncating or padding
    /// the grid and clamping the cursor into bounds.  Zero or excessive
    /// dimensions are rejected and the prior state retained unchanged.
    pub fn set_window_size(&mut self, width: usize, height: usize) -> (r: Result<(), ResizeError>)
        requires
            old(self)@.wf(),
        ensures
            final(self)@.wf(),
            dims_ok(width as int, height as int) ==> r is Ok
                && final(self)@ == sp_resize(old(self)@, width as int, height as int),
            r == Err::<(), ResizeError>(ResizeError::ZeroDimension) <==> width == 0 || height == 0,
            r == Err::<(), ResizeError>(ResizeError::TooLarge)
                <==> (width >= 1 && height >= 1 && (width > MAX_DIM || height > MAX_DIM)),
            !dims_ok(width as int, height as int) ==> *final(self) == *old(self),
    {
        if width == 0 || height == 0 {
            return Err(ResizeError::ZeroDimension);
        }
        if width > MAX_DIM || height > MAX_DIM {
            return Err(ResizeError::TooLarge);
        }
        let ghost target = sp_resize(old(self)@, width as int, height as int);
        let mut grid: Vec<Vec<Cell>> = Vec::new();
        let mut r: usize = 0;
        while r < height
            invariant
                r <= height,
                old(self)@.wf(),
                self == old(self),
                dims_ok(width as int, height as int),
                target == sp_resize(old(self)@, width as int, height as int),
                grid@.len() == r,
                forall|j: int| 0 <= j < r ==> (#[trigger] grid@[j])@ == target.grid[j],
            decreases height - r,
        {
            let mut row: Vec<Cell> = Vec::new();
            let mut c: usize = 0;
            while c < width
                invariant
                    c <= width,
                    r < height,
                    old(self)@.wf(),
                    self == old(self),
                    dims_ok(width as int, height as int),
                    target == sp_resize(old(self)@, width as int, height as int),
                    row@.len() == c,
                    forall|j: int| 0 <= j < c ==> #[trigger] row@[j] == target.grid[r as int][j],
                decreases width - c,
            {
                if r < self.grid.len() && c < self.grid[r].len() {
                    let cell = self.grid[r][c];
                    row.push(cell);
                } else {
                    row.push(Cell::blank());
                }
                c += 1;
            }
            proof {
                assert(row@ =~= target.grid[r as int]);
            }
            grid.push(row);
            r += 1;
        }
        self.grid = grid;
        if self.cursor_row >= height {
            self.cursor_row = height - 1;
        }
        if self.cursor_col >= width {
            self.cursor_col = width - 1;
        }
        self.width = width;
        self.height = height;
        proof {
            assert(self@ =~~= target);
        }
        Ok(())
    }
}

} // verus!
