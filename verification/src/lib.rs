//! A terminal emulator core with session recording and deterministic replay.
//!
//! The crate models a character-cell terminal as a state machine over a byte
//! stream, records a live session as an initial [`screen::Snapshot`] followed
//! by an ordered event log, and replays such a recording deterministically,
//! including arbitrary-position seeking over the forward-only event log.

pub mod screen;
pub mod emulator;
pub mod recording;
pub mod replay;
