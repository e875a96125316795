//! What can go wrong.

use vstd::prelude::*;
use vstd::string::StringExecFns;
use crate::text::{decimal, decimal_string};
use crate::time::PulseOutOfRange;

verus! {

/// What this crate refuses.
#[derive(Clone, Debug)]
pub enum Error {
    /// The timing of the sequence is in pulses per second.
    UnsupportedTiming,
    /// The sequence has this number of tracks, where exactly one is called
    /// for.
    TrackCount(usize),
    /// A pulse lies behind the end of the sequence.
    PulseOutOfRange(PulseOutOfRange),
    /// A range of pulses starts behind its end.
    RangeOrder { start: String, start_pulse: u64, end: String, end_pulse: u64 },
    /// The track of this number does not end with an end-of-track event.
    MissingEndOfTrack(usize),
    /// A text is neither a pulse nor a beat.
    BadPulseOrBeat,
}

impl Error {
    /// What is wrong, in words.
    pub open spec fn text(&self) -> Seq<char> {
        match self {
            Error::UnsupportedTiming => "timing not supported"@,
            Error::TrackCount(tracks) => "only implemented for single-track sequences (sequence has "@
                + decimal(*tracks as nat) + " tracks); try flattening with the `smf0` command"@,
            Error::PulseOutOfRange(e) => e.text(),
            Error::RangeOrder { start, start_pulse, end, end_pulse } => "`"@ + start@ + "` (→ "@
                + decimal(*start_pulse as nat) + ") is bigger than `"@ + end@ + "` (→ "@ + decimal(
                *end_pulse as nat,
            ) + ")"@,
            Error::MissingEndOfTrack(track) => "track #"@ + decimal(*track as nat)
                + " does not end with an end-of-track event"@,
            Error::BadPulseOrBeat => "neither a pulse nor a beat with pulses that fit into 15 bits"@,
        }
    }

    /// What is wrong, in words.
    pub fn to_string(&self) -> (text: String)
        ensures
            text@ == self.text(),
    {
        match self {
            Error::UnsupportedTiming => String::from_str("timing not supported"),
            Error::TrackCount(tracks) => {
                let mut out = String::from_str(
                    "only implemented for single-track sequences (sequence has ",
                );
                out.append(decimal_string(*tracks as u128).as_str());
                out.append(" tracks); try flattening with the `smf0` command");
                out
            },
            Error::PulseOutOfRange(e) => e.to_string(),
            Error::RangeOrder { start, start_pulse, end, end_pulse } => {
                let mut out = String::from_str("`");
                out.append(start.as_str());
                out.append("` (→ ");
                out.append(decimal_string(*start_pulse as u128).as_str());
                out.append(") is bigger than `");
                out.append(end.as_str());
                out.append("` (→ ");
                out.append(decimal_string(*end_pulse as u128).as_str());
                out.append(")");
                out
            },
            Error::MissingEndOfTrack(track) => {
                let mut out = String::from_str("track #");
                out.append(decimal_string(*track as u128).as_str());
                out.append(" does not end with an end-of-track event");
                out
            },
            Error::BadPulseOrBeat => String::from_str(
                "neither a pulse nor a beat with pulses that fit into 15 bits",
            ),
        }
    }
}

} // verus!
