//! Deterministic replay of a recording, with arbitrary-position seeking
//! over a forward-only event log.
//!
//! The replayed terminal state is specified by the pure function
//! [`sp_replay_state`]: the state after `t` events is a function of the
//! recording and `t` alone, so replay is deterministic, and every seek —
//! forward by advancing, backward by full reconstruction from the initial
//! snapshot — is proved to land in exactly that state.

use vstd::prelude::*;
use crate::emulator::{
    EmulatorView, LoadSnapshotError, TerminalEmulator, lemma_parser_resilience, lemma_resize_wf,
    sp_apply_bytes, sp_from_snapshot, sp_resize, sp_snapshot_error,
};
use crate::recording::{
    ControlAction, Event, EventView, LoadRecordingError, Recording, RecordingView, sp_decode,
};
use crate::screen::{dims_ok, grid_wf};

verus! {

// ---------------------------------------------------------------------------
// The replay model.
// ---------------------------------------------------------------------------

/// The effect of one replayed event on the terminal: data flows through
/// the parser; a resize with valid dimensions is applied (an invalid one
/// is ignored, as a live host would refuse it); a no-op changes nothing.
pub open spec fn sp_apply_event(v: EmulatorView, e: EventView) -> EmulatorView {
    match e {
        EventView::Data(bytes) => sp_apply_bytes(v, bytes),
        EventView::Control(a) => match a {
            ControlAction::Resize { width, height } => {
                if dims_ok(width as int, height as int) {
                    sp_resize(v, width as int, height as int)
                } else {
                    v
                }
            },
            ControlAction::Noop => v,
        },
    }
}

/// The host-visible action one event carries: data is invisible to the
/// host, a control event surfaces as itself.
pub open spec fn sp_action_of(e: EventView) -> ControlAction {
    match e {
        EventView::Data(_) => ControlAction::Noop,
        EventView::Control(a) => a,
    }
}

/// The terminal state after replaying the first `t` events of a recording
/// from its initial snapshot.  Replay determinism is this function's
/// existence: the state depends on the recording and `t` alone, however
/// many times it is recomputed.
pub open spec fn sp_replay_state(r: RecordingView, t: int) -> EmulatorView
    decreases t,
{
    if t <= 0 {
        sp_from_snapshot(r.snapshot)
    } else {
        sp_apply_event(sp_replay_state(r, t - 1), r.events[t - 1])
    }
}

/// One replayed event keeps the terminal well formed.
pub proof fn lemma_apply_event_wf(v: EmulatorView, e: EventView)
    requires
        v.wf(),
    ensures
        sp_apply_event(v, e).wf(),
{
    match e {
        EventView::Data(bytes) => {
            lemma_parser_resilience(v, bytes);
        },
        EventView::Control(a) => match a {
            ControlAction::Resize { width, height } => {
                if dims_ok(width as int, height as int) {
                    lemma_resize_wf(v, width as int, height as int);
                }
            },
            ControlAction::Noop => {},
        },
    }
}

/// Replay of any prefix of a consistent recording is well formed.
pub proof fn lemma_replay_state_wf(r: RecordingView, t: int)
    requires
        r.snapshot.consistent(),
    ensures
        sp_replay_state(r, t).wf(),
    decreases t,
{
    if t <= 0 {
        assert(grid_wf(r.snapshot.grid, r.snapshot.width, r.snapshot.height));
    } else {
        lemma_replay_state_wf(r, t - 1);
        lemma_apply_event_wf(sp_replay_state(r, t - 1), r.events[t - 1]);
    }
}

/// Replay determinism: the state after `t` events is a pure function of
/// the initial snapshot and the first `t` events alone.  Two recordings
/// agreeing on those replay to identical grid, cursor and attribute
/// state, however the replays are interleaved or repeated.
pub proof fn lemma_replay_deterministic(r1: RecordingView, r2: RecordingView, t: int)
    requires
        r1.snapshot == r2.snapshot,
        0 <= t <= r1.events.len(),
        t <= r2.events.len(),
        r1.events.take(t) == r2.events.take(t),
    ensures
        sp_replay_state(r1, t) == sp_replay_state(r2, t),
    decreases t,
{
    if t > 0 {
        assert(r1.events.take(t - 1) =~= r1.events.take(t).take(t - 1));
        assert(r2.events.take(t - 1) =~= r2.events.take(t).take(t - 1));
        lemma_replay_deterministic(r1, r2, t - 1);
        assert(r1.events[t - 1] == r1.events.take(t)[t - 1]);
        assert(r2.events[t - 1] == r2.events.take(t)[t - 1]);
    }
}

/// Replaying events `from` through `to` (exclusive) on top of a given
/// state: the model of a forward seek.
pub open spec fn sp_advance_range(
    v: EmulatorView,
    events: Seq<EventView>,
    from: int,
    to: int,
) -> EmulatorView
    decreases to - from,
{
    if to <= from {
        v
    } else {
        sp_apply_event(sp_advance_range(v, events, from, to - 1), events[to - 1])
    }
}

/// Seek correctness: advancing from the state at position `t1` up to `t2`
/// lands in exactly the state a from-scratch replay to `t2` reaches.  So
/// seeking to `t1` and then to `t2` — forward, or backward via full
/// reconstruction and forward replay — ends in the same state as seeking
/// straight to `t2`.
pub proof fn lemma_seek_correctness(r: RecordingView, t1: int, t2: int)
    requires
        0 <= t1 <= t2 <= r.events.len(),
    ensures
        sp_advance_range(sp_replay_state(r, t1), r.events, t1, t2) == sp_replay_state(r, t2),
    decreases t2 - t1,
{
    if t1 < t2 {
        lemma_seek_correctness(r, t1, t2 - 1);
    }
}

// ---------------------------------------------------------------------------
// The replay input source.
// ---------------------------------------------------------------------------

/// The log-backed input source: holds exactly the bytes the replay cursor
/// has delivered and the terminal has not yet read.  Reading drains it —
/// a chunk is delivered once — and writing is a no-op, since replay is
/// not interactive.
#[derive(Debug)]
pub struct ReplayIo {
    pending: Vec<u8>,
}

impl View for ReplayIo {
    type V = Seq<u8>;

    closed spec fn view(&self) -> Seq<u8> {
        self.pending@
    }
}

impl ReplayIo {
    /// An empty source: nothing pending.
    pub fn new() -> (r: ReplayIo)
        ensures
            r@ == Seq::<u8>::empty(),
    {
        let r = ReplayIo { pending: Vec::new() };
        proof {
            assert(r@ =~= Seq::<u8>::empty());
        }
        r
    }

    /// Deliver the next data chunk, appending to anything not yet read.
    pub fn push_data(&mut self, bytes: &Vec<u8>)
        ensures
            final(self)@ == old(self)@ + bytes@,
    {
        let mut i: usize = 0;
        proof {
            assert(self@ =~= old(self)@ + bytes@.take(0));
        }
        while i < bytes.len()
            invariant
                i <= bytes@.len(),
                self@ == old(self)@ + bytes@.take(i as int),
            decreases bytes@.len() - i,
        {
            let b = bytes[i];
            self.pending.push(b);
            proof {
                assert(self@ =~= old(self)@ + bytes@.take(i as int + 1));
            }
            i += 1;
        }
        proof {
            assert(bytes@.take(bytes@.len() as int) =~= bytes@);
        }
    }

    /// Take everything currently pending; the source is empty afterwards.
    pub fn read_available(&mut self) -> (out: Vec<u8>)
        ensures
            out@ == old(self)@,
            final(self)@ == Seq::<u8>::empty(),
    {
        let mut out: Vec<u8> = Vec::new();
        core::mem::swap(&mut out, &mut self.pending);
        proof {
            assert(self@ =~= Seq::<u8>::empty());
        }
        out
    }

    /// Writing back is a no-op: replay input is not interactive.
    pub fn write(&mut self, _bytes: &[u8])
        ensures
            final(self)@ == old(self)@,
    {
    }
}

impl TerminalEmulator {
    /// Pull every currently available byte from the bound input source and
    /// feed it through the parser: the single mutation entry point of a
    /// replay tick.  With nothing pending this is a no-op.
    pub fn poll_io_and_update(&mut self, io: &mut ReplayIo)
        requires
            old(self)@.wf(),
        ensures
            final(self)@ == sp_apply_bytes(old(self)@, old(io)@),
            final(self)@.wf(),
            final(io)@ == Seq::<u8>::empty(),
    {
        let chunk = io.read_available();
        self.feed_bytes(chunk.as_slice());
    }
}

// ---------------------------------------------------------------------------
// The replay session.
// ---------------------------------------------------------------------------

/// Why replay could not be set up from persisted bytes: the recording
/// itself failed to load, or its snapshot could not be turned into a
/// terminal.
#[derive(Clone, Copy, Debug, PartialEq, Eq, Structural)]
pub enum LoadReplayError {
    Recording(LoadRecordingError),
    CreateTerminalEmulator(LoadSnapshotError),
}

/// What one seek did: how many forward advances it performed, and whether
/// it had to rebuild the terminal from the initial snapshot.
#[derive(Clone, Copy, Debug, PartialEq, Eq, Structural)]
pub struct SeekOutcome {
    pub advances: usize,
    pub rebuilt: bool,
}

/// The mathematical value of a [`ReplaySession`]: the recording and the
/// replay position.  The terminal state carries no separate freedom — it
/// is always [`sp_replay_state`] of these two.
#[verifier::ext_equal]
pub ghost struct ReplaySessionView {
    pub recording: RecordingView,
    pub position: int,
}

/// A replay session: a recording, a forward-only cursor over its event
/// log, the log-backed input source, and the terminal being driven.
#[derive(Debug)]
pub struct ReplaySession {
    emulator: TerminalEmulator,
    io: ReplayIo,
    recording: Recording,
    position: usize,
}

impl View for ReplaySession {
    type V = ReplaySessionView;

    closed spec fn view(&self) -> ReplaySessionView {
        ReplaySessionView { recording: self.recording@, position: self.position as int }
    }
}

impl ReplaySession {
    /// The session invariant: the cursor is within the log, nothing is
    /// left unread in the source between steps, and the terminal holds
    /// exactly the replayed state at the cursor's position.
    pub closed spec fn wf(self) -> bool {
        &&& self.recording@.snapshot.consistent()
        &&& 0 <= self.position <= self.recording@.events.len()
        &&& self.io@ == Seq::<u8>::empty()
        &&& self.emulator@ == sp_replay_state(self.recording@, self.position as int)
    }

    /// Begin replay of a recording at position 0.  Succeeds exactly when
    /// the recording's snapshot is consistent; the error otherwise is the
    /// snapshot validation's own.
    pub fn new(recording: Recording) -> (r: Result<ReplaySession, LoadSnapshotError>)
        ensures
            r is Ok <==> recording@.snapshot.consistent(),
            match r {
                Ok(s) => s.wf() && s@.recording == recording@ && s@.position == 0,
                Err(e) => sp_snapshot_error(recording@.snapshot) == Some(e),
            },
    {
        let emulator = match TerminalEmulator::from_snapshot(recording.initial_state()) {
            Ok(e) => e,
            Err(e) => {
                return Err(e);
            },
        };
        let s = ReplaySession { emulator: emulator, io: ReplayIo::new(), recording: recording, position: 0 };
        Ok(s)
    }

    /// How many events the recording holds.
    pub fn len(&self) -> (n: usize)
        ensures
            n == self@.recording.events.len(),
    {
        self.recording.len()
    }

    /// The cursor's current position in the event log.
    pub fn current_pos(&self) -> (p: usize)
        ensures
            p == self@.position,
    {
        self.position
    }

    /// The terminal being driven: its state is exactly the replayed state
    /// at the current position.
    pub fn emulator(&self) -> (e: &TerminalEmulator)
        requires
            self.wf(),
        ensures
            e@ == sp_replay_state(self@.recording, self@.position),
    {
        &self.emulator
    }

    /// The recording under replay.
    pub fn recording(&self) -> (r: &Recording)
        ensures
            r@ == self@.recording,
    {
        &self.recording
    }

    /// Advance one event: deliver a data event's bytes through the input
    /// source into the terminal, or apply a control event and return it to
    /// the host.  At the end of the log this is a no-op returning no
    /// action.
    pub fn step_replay(&mut self) -> (action: ControlAction)
        requires
            old(self).wf(),
        ensures
            final(self).wf(),
            final(self)@.recording == old(self)@.recording,
            old(self)@.position < old(self)@.recording.events.len() ==> {
                &&& final(self)@.position == old(self)@.position + 1
                &&& action == sp_action_of(old(self)@.recording.events[old(self)@.position])
            },
            old(self)@.position == old(self)@.recording.events.len() ==> {
                &&& final(self)@.position == old(self)@.position
                &&& action == ControlAction::Noop
            },
    {
        let len = self.recording.len();
        if self.position >= len {
            return ControlAction::Noop;
        }
        let ghost pre = self.emulator@;
        let ghost ev = self.recording@.events[self.position as int];
        proof {
            lemma_replay_state_wf(self.recording@, self.position as int);
        }
        let action: ControlAction;
        match self.recording.event_at(self.position) {
            Event::Data(bytes) => {
                self.io.push_data(bytes);
                action = ControlAction::Noop;
            },
            Event::Control(a) => {
                action = *a;
            },
        }
        self.emulator.poll_io_and_update(&mut self.io);
        proof {
            lemma_apply_event_wf(pre, ev);
            match ev {
                EventView::Data(b) => {
                    assert(Seq::<u8>::empty() + b =~= b);
                },
                EventView::Control(_) => {
                    assert(sp_apply_bytes(pre, Seq::<u8>::empty()) == pre);
                },
            }
        }
        match action {
            ControlAction::Resize { width, height } => {
                if 1 <= width && width <= crate::screen::MAX_DIM && 1 <= height && height
                    <= crate::screen::MAX_DIM {
                    let resize_result = self.emulator.set_window_size(width, height);
                    proof {
                        assert(resize_result is Ok);
                    }
                }
            },
            ControlAction::Noop => {},
        }
        self.position = self.position + 1;
        proof {
            assert(self.emulator@ == sp_apply_event(pre, ev));
            assert(sp_replay_state(self.recording@, self.position as int)
                == sp_apply_event(sp_replay_state(self.recording@, self.position as int - 1), ev));
        }
        action
    }

    /// Seek to an arbitrary position.  Forward (or in place), the cursor
    /// advances exactly `target - position` times with no reconstruction;
    /// backward, the terminal is rebuilt from the initial snapshot and
    /// replayed forward `target` times, since the log is forward-only.
    /// Either way the terminal afterwards holds exactly the replayed state
    /// at `target`, whatever the position before.
    pub fn seek(&mut self, target: usize) -> (outcome: SeekOutcome)
        requires
            old(self).wf(),
            target <= old(self)@.recording.events.len(),
        ensures
            final(self).wf(),
            final(self)@.recording == old(self)@.recording,
            final(self)@.position == target,
            target >= old(self)@.position ==> outcome
                == (SeekOutcome { advances: (target - old(self)@.position) as usize, rebuilt: false }),
            target < old(self)@.position ==> outcome
                == (SeekOutcome { advances: target, rebuilt: true }),
    {
        let mut rebuilt = false;
        if target < self.position {
            let emulator = match TerminalEmulator::from_snapshot(self.recording.initial_state()) {
                Ok(e) => e,
                Err(_) => {
                    proof {
                        assert(false);
                    }
                    return SeekOutcome { advances: 0, rebuilt: true };
                },
            };
            self.emulator = emulator;
            self.io = ReplayIo::new();
            self.position = 0;
            rebuilt = true;
        }
        let ghost start = self@.position;
        let mut advances: usize = 0;
        while self.position < target
            invariant
                self.wf(),
                self@.recording == old(self)@.recording,
                0 <= start <= self@.position <= target,
                target <= self@.recording.events.len(),
                advances == self@.position - start,
            decreases target - self@.position,
        {
            self.step_replay();
            advances += 1;
        }
        SeekOutcome { advances: advances, rebuilt: rebuilt }
    }
}

/// Set up replay straight from persisted bytes: load the recording, then
/// build the terminal from its initial snapshot and a cursor at position
/// 0.  Each stage's failure is surfaced as its own error, and nothing is
/// partially constructed.
pub fn load_replay(bytes: &[u8]) -> (r: Result<ReplaySession, LoadReplayError>)
    ensures
        match r {
            Ok(s) => {
                &&& s.wf()
                &&& sp_decode(bytes@) matches Ok(rec) && s@.recording == rec
                    && rec.snapshot.consistent()
                &&& s@.position == 0
            },
            Err(e) => match e {
                LoadReplayError::Recording(le) => sp_decode(bytes@)
                    == Err::<RecordingView, LoadRecordingError>(le),
                LoadReplayError::CreateTerminalEmulator(se) => sp_decode(bytes@) matches Ok(rec)
                    && sp_snapshot_error(rec.snapshot) == Some(se)
                    && se == LoadSnapshotError::CursorOutOfBounds,
            },
        },
{
    proof {
        crate::recording::lemma_decode_grid_wf(bytes@);
    }
    let recording = match Recording::decode(bytes) {
        Ok(rec) => rec,
        Err(e) => {
            return Err(LoadReplayError::Recording(e));
        },
    };
    match ReplaySession::new(recording) {
        Ok(s) => Ok(s),
        Err(e) => Err(LoadReplayError::CreateTerminalEmulator(e)),
    }
}

} // verus!
