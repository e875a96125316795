//! Analysis and manipulation of Standard MIDI File sequences.
//!
//! The centre of the crate is the loop finder in [`loop_find`], which looks
//! for the longest exact repetition of a range of events inside one track:
//! once as a player of the events would loop it, and once as a recording of
//! the events can be cut. Around it stand the state of a synthesizer in
//! [`state`], timekeeping in pulses, beats, time and samples in [`time`], the
//! pulses and beats that a user writes in [`beat`], the report on a loop in
//! [`report`], the dump of a sequence in [`dump`], and simple manipulations
//! of sequences in [`manip`] and [`smf`].
//!
//! The crate is verified with Verus. Its contracts are stated over the
//! sequences of events themselves; the laws that hold between its functions
//! are proof functions beside them. One function is taken on trust: the one
//! that hands the search for the best loop to the threads of rayon.

pub mod beat;
pub mod dump;
pub mod error;
pub mod event;
pub mod loop_find;
pub mod manip;
pub mod report;
pub mod smf;
pub mod state;
pub mod text;
pub mod time;
