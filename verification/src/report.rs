//! The report on the loops of a track.

use vstd::prelude::*;
use vstd::string::StringExecFns;
use crate::event::{note_on, spec_note_on, TrackEvent};
use crate::loop_find::{Loop, Loops};
use crate::smf::Timing;
use crate::text::{
    decimal, decimal_string, decimal_width, digits, lemma_concat_associates,
    lemma_digits_between_powers, pad_left, padded, pow10,
};
use crate::time::{
    max_delta, time_text, total_delta, widths_for, MidiTimeDisplay, TimeModel, UnitWidths,
};

verus! {

/// The width of the column in which the numbers of the events of a track of
/// `len` events are written: the logarithm of `len` to base ten, rounded up,
/// and one more.
pub open spec fn spec_index_width(len: nat) -> nat {
    if len <= 1 {
        1
    } else {
        digits((len - 1) as nat) + 1
    }
}

/// One less than the width of the column for the numbers of the events is
/// the least exponent with which ten is not below the number of events.
pub proof fn lemma_index_width_is_logarithm(len: nat)
    requires
        len >= 1,
    ensures
        spec_index_width(len) >= 1,
        len <= pow10((spec_index_width(len) - 1) as nat),
        spec_index_width(len) >= 2 ==> pow10((spec_index_width(len) - 2) as nat) < len,
{
    reveal_with_fuel(pow10, 2);
    if len >= 2 {
        lemma_digits_between_powers((len - 1) as nat);
    }
}

/// The width of the column for the numbers of the events of a track.
pub fn index_width(len: usize) -> (width: usize)
    ensures
        width == spec_index_width(len as nat),
{
    if len <= 1 {
        1
    } else {
        decimal_width((len - 1) as u128) + 1
    }
}

/// Event `index` is the first of its track that starts a note.
pub open spec fn is_first_note(track: Seq<TrackEvent>, index: int) -> bool {
    &&& 0 <= index < track.len()
    &&& spec_note_on(track[index]) is Some
    &&& forall|earlier: int| 0 <= earlier < index ==> spec_note_on(#[trigger] track[earlier]) is None
}

/// The first line of the report on a loop.
pub open spec fn head_line(found: Loop, prefix: Seq<char>) -> Seq<char> {
    prefix + " "@ + decimal(found.len as nat) + " events (between event #["@ + decimal(
        found.start as nat,
    ) + ", "@ + decimal((found.start + found.len) as nat) + "[ and ["@ + decimal(
        (found.start + found.len) as nat,
    ) + ", "@ + decimal((found.start + 2 * found.len) as nat) + "[)\n"@
}

/// A line of the report that marks an event: what the event is, its number
/// and its time.
pub open spec fn marked_line(
    label: Seq<char>,
    index: int,
    index_width: nat,
    time: TimeModel,
    widths: UnitWidths,
) -> Seq<char> {
    label + pad_left(decimal(index as nat), index_width, ' ') + " / "@ + time_text(time, widths)
        + "\n"@
}

/// The lines of the report that mark an event at a given time: one if it
/// is the first note of the track, and one if it is the start or the end of
/// the loop.
pub open spec fn marks(
    found: Loop,
    first_note: bool,
    index: int,
    index_width: nat,
    time: TimeModel,
    widths: UnitWidths,
) -> Seq<char> {
    (if first_note {
        marked_line("First note: event "@, index, index_width, time, widths)
    } else {
        Seq::empty()
    }) + (if index == found.start {
        marked_line("Loop start: event "@, index, index_width, time, widths)
    } else if index == found.start + found.len {
        marked_line("  Loop end: event "@, index, index_width, time, widths)
    } else {
        Seq::empty()
    })
}

/// The lines of the report that mark event `index` of a track, with the
/// time that the events up to it lead to.
pub open spec fn event_lines(
    found: Loop,
    track: Seq<TrackEvent>,
    start: TimeModel,
    widths: UnitWidths,
    index: int,
) -> Seq<char> {
    marks(
        found,
        is_first_note(track, index),
        index,
        spec_index_width(track.len()),
        start.after(track.take(index + 1)),
        widths,
    )
}

/// The lines of the report that mark one of the first `n` events.
pub open spec fn lines_before(
    found: Loop,
    track: Seq<TrackEvent>,
    start: TimeModel,
    widths: UnitWidths,
    n: int,
) -> Seq<char>
    decreases n,
{
    if n <= 0 {
        Seq::empty()
    } else {
        lines_before(found, track, start, widths, n - 1) + event_lines(
            found,
            track,
            start,
            widths,
            n - 1,
        )
    }
}

/// The report on a loop of a track: a first line with the length of the loop
/// and the events between which it lies and is found again, and then a line
/// each for the first note of the track, the start of the loop and its end,
/// in the order of the events, up to the end of the loop.
pub open spec fn report_text(
    found: Loop,
    prefix: Seq<char>,
    ppqn: nat,
    track: Seq<TrackEvent>,
    samplerate: Option<u32>,
) -> Seq<char> {
    if found.len == 0 {
        "No loop found.\n"@
    } else {
        let start = TimeModel::start(ppqn, samplerate);
        let widths = widths_for(start.after(track), max_delta(track));
        let end = found.start + found.len;
        head_line(found, prefix) + lines_before(
            found,
            track,
            start,
            widths,
            if end < track.len() {
                end + 1
            } else {
                track.len() as int
            },
        )
    }
}

/// A line of the report that marks an event.
fn marked_line_string(label: &str, index: usize, index_width: usize, time: &MidiTimeDisplay) -> (text:
    String)
    ensures
        text@ == marked_line(label@, index as int, index_width as nat, time.time@, time.widths),
{
    let mut text = String::from_str(label);
    text.append(padded(index as u128, index_width, false).as_str());
    text.append(" / ");
    text.append(time.to_string().as_str());
    text.append("\n");
    text
}

/// The lines of the report that mark an event.
fn marks_string(
    found: &Loop,
    first_note: bool,
    index: usize,
    index_width: usize,
    time: &MidiTimeDisplay,
) -> (text: String)
    requires
        found.start + found.len <= usize::MAX,
    ensures
        text@ == marks(*found, first_note, index as int, index_width as nat, time.time@, time.widths),
{
    let mut text = if first_note {
        marked_line_string("First note: event ", index, index_width, time)
    } else {
        String::new()
    };
    if index == found.start {
        text.append(marked_line_string("Loop start: event ", index, index_width, time).as_str());
    } else if index == found.start + found.len {
        text.append(marked_line_string("  Loop end: event ", index, index_width, time).as_str());
    } else {
        assert(text@ + Seq::<char>::empty() =~= text@);
    }
    text
}

/// The first line of the report on a loop.
fn head_line_string(found: &Loop, prefix: &str) -> (text: String)
    requires
        found.start + 2 * found.len <= usize::MAX,
    ensures
        text@ == head_line(*found, prefix@),
{
    let end_1 = found.start + found.len;
    let end_2 = end_1 + found.len;
    let mut text = String::from_str(prefix);
    text.append(" ");
    text.append(decimal_string(found.len as u128).as_str());
    text.append(" events (between event #[");
    text.append(decimal_string(found.start as u128).as_str());
    text.append(", ");
    text.append(decimal_string(end_1 as u128).as_str());
    text.append("[ and [");
    text.append(decimal_string(end_1 as u128).as_str());
    text.append(", ");
    text.append(decimal_string(end_2 as u128).as_str());
    text.append("[)\n");
    text
}

impl Loop {
    /// The report on a loop of a track.
    pub fn report(
        &self,
        prefix: &str,
        timing: &Timing,
        track: &[TrackEvent],
        samplerate: Option<u32>,
    ) -> (text: String)
        requires
            self.len != 0 ==> {
                &&& timing.spec_ppqn() is Some
                &&& total_delta(track@) <= u64::MAX
                &&& self.start + 2 * self.len <= usize::MAX
            },
        ensures
            text@ == report_text(
                *self,
                prefix@,
                if self.len != 0 {
                    timing.spec_ppqn().unwrap() as nat
                } else {
                    0
                },
                track@,
                samplerate,
            ),
    {
        if self.len == 0 {
            return String::from_str("No loop found.\n");
        }
        let end_1 = self.start + self.len;
        let mut out = head_line_string(self, prefix);
        let event_width = index_width(track.len());
        let mut first_note_seen = false;
        let mut time = MidiTimeDisplay::new(timing, track, samplerate);
        let ghost start_time = time.time@;
        let ghost widths = time.widths;
        let mut ev_i: usize = 0;
        proof {
            assert(out@ + lines_before(*self, track@, start_time, widths, 0) =~= out@);
        }
        while ev_i < track.len()
            invariant
                ev_i <= track.len(),
                ev_i <= end_1,
                self.len != 0,
                end_1 == self.start + self.len,
                event_width == spec_index_width(track.len() as nat),
                timing.spec_ppqn() is Some,
                start_time == TimeModel::start(timing.spec_ppqn().unwrap() as nat, samplerate),
                widths == widths_for(start_time.after(track@), max_delta(track@)),
                total_delta(track@) <= u64::MAX,
                time.time@ == start_time.after(track@.take(ev_i as int)),
                time.widths == widths,
                first_note_seen <==> exists|earlier: int|
                    0 <= earlier < ev_i && spec_note_on(#[trigger] track@[earlier]) is Some,
                out@ == head_line(*self, prefix@) + lines_before(
                    *self,
                    track@,
                    start_time,
                    widths,
                    ev_i as int,
                ),
            decreases track.len() - ev_i,
        {
            let ev = &track[ev_i];
            proof {
                assert(track@.take(ev_i + 1).drop_last() =~= track@.take(ev_i as int));
                crate::time::lemma_pulse_is_total_delta(start_time, track@.take(ev_i as int));
                crate::time::lemma_pulse_is_total_delta(start_time, track@.take(ev_i + 1));
                crate::time::lemma_total_delta_grows(track@, ev_i + 1);
            }
            time.time = time.time.advance(ev);
            let first_note = !first_note_seen && note_on(ev).is_some();
            assert(first_note == is_first_note(track@, ev_i as int));
            out.append(marks_string(self, first_note, ev_i, event_width, &time).as_str());
            proof {
                lemma_concat_associates(
                    head_line(*self, prefix@),
                    lines_before(*self, track@, start_time, widths, ev_i as int),
                    event_lines(*self, track@, start_time, widths, ev_i as int),
                );
            }
            if first_note {
                first_note_seen = true;
            }
            if ev_i == end_1 {
                return out;
            }
            ev_i += 1;
        }
        out
    }
}

/// The report on the loops of a track: the report on the loop in note
/// space, and behind it, where there is one, the report on the loop in
/// recording space.
pub open spec fn loops_text(
    loops: Loops,
    ppqn: nat,
    track: Seq<TrackEvent>,
    samplerate: Option<u32>,
) -> Seq<char> {
    report_text(loops.note_loop, "Best loop in note space:"@, ppqn, track, None) + (
    match loops.recording_loop {
        Some(recording_loop) => "\nBest loop in recording space: "@ + report_text(
            recording_loop,
            ""@,
            ppqn,
            track,
            samplerate,
        ),
        None => Seq::empty(),
    })
}

impl Loops {
    /// The report on the loops of a track.
    pub fn report(&self, timing: &Timing, track: &[TrackEvent], samplerate: Option<u32>) -> (text:
        String)
        requires
            timing.spec_ppqn() is Some,
            total_delta(track@) <= u64::MAX,
            self.note_loop.start + 2 * self.note_loop.len <= usize::MAX,
            self.recording_loop matches Some(recording_loop) ==> recording_loop.start + 2
                * recording_loop.len <= usize::MAX,
        ensures
            text@ == loops_text(*self, timing.spec_ppqn().unwrap() as nat, track@, samplerate),
    {
        let ghost ppqn = timing.spec_ppqn().unwrap() as nat;
        let mut out = self.note_loop.report("Best loop in note space:", timing, track, None);
        assert(out@ == report_text(self.note_loop, "Best loop in note space:"@, ppqn, track@, None));
        let second = match self.recording_loop {
            Some(recording_loop) => {
                let mut second = String::from_str("\nBest loop in recording space: ");
                let report = recording_loop.report("", timing, track, samplerate);
                assert(report@ == report_text(recording_loop, ""@, ppqn, track@, samplerate));
                second.append(report.as_str());
                second
            },
            None => String::new(),
        };
        out.append(second.as_str());
        out
    }
}

} // verus!
