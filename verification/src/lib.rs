//! A metronome core: a beat clock that emits every beat whose nominal time
//! has passed (catch-up, never skip), and a judge that classifies a key
//! press against the nearest beat on the grid.
//!
//! Time is measured in integer time units; the caller picks the resolution
//! (for a metronome driven by a float seconds clock, milliseconds are exact
//! enough for any practical margin).

pub mod clock;
pub mod judge;
