//! Loop detection.

use rayon::iter::{IntoParallelIterator, ParallelIterator};
use vstd::prelude::*;
use crate::event::{
    same_event, spec_controller, spec_note, MidiMessage, TrackEvent, TrackEventKind,
};
use crate::error::Error;
use crate::smf::{Smf, Timing};
use crate::state::{MidiState, StateModel};

verus! {

/// A range of `len` events from event `start` on that is found again right
/// behind itself. A length of 0 stands for no loop at all.
#[derive(Clone, Copy, Debug, PartialEq, Eq, Structural)]
pub struct Loop {
    pub start: usize,
    pub len: usize,
}

impl Default for Loop {
    fn default() -> (none: Loop)
        ensures
            none == Loop::none(),
    {
        Loop { start: 0, len: 0 }
    }
}

impl Loop {
    /// No loop.
    pub open spec fn none() -> Loop {
        Loop { start: 0, len: 0 }
    }

    /// The order by which one of two loops is kept: the longer one, and of
    /// two of the same length the one that starts first.
    pub open spec fn spec_better_than(&self, other: &Loop) -> bool {
        self.len > other.len || (self.len == other.len && self.start < other.start)
    }

    /// Whether this loop is kept before another one.
    #[verifier::when_used_as_spec(spec_better_than)]
    pub fn better_than(&self, other: &Loop) -> (better: bool)
        ensures
            better == self.spec_better_than(other),
    {
        (self.len > other.len) || ((self.len == other.len) && (self.start < other.start))
    }
}

/// The better of two loops, and the second one where neither is better.
pub open spec fn spec_pick(a: Loop, b: Loop) -> Loop {
    if a.spec_better_than(&b) {
        a
    } else {
        b
    }
}

/// Combines the results of two searches.
#[verifier::when_used_as_spec(spec_pick)]
pub fn pick(a: Loop, b: Loop) -> (best: Loop)
    ensures
        best == spec_pick(a, b),
{
    if a.better_than(&b) {
        a
    } else {
        b
    }
}

/// The `len` events from event `start` on.
pub open spec fn body(track: Seq<TrackEvent>, start: int, len: int) -> Seq<TrackEvent> {
    track.subrange(start, start + len)
}

/// The `len` events from `start` on are followed by the same `len` events
/// once more.
pub open spec fn repeats(track: Seq<TrackEvent>, start: int, len: int) -> bool {
    &&& 0 <= start
    &&& 0 < len
    &&& start + 2 * len <= track.len()
    &&& body(track, start, len) == body(track, start + len, len)
}

/// Section number `index` of a range cut into sections of `section_len`
/// events, counted from 0.
pub open spec fn section(
    track: Seq<TrackEvent>,
    start: int,
    section_len: int,
    index: int,
) -> Seq<TrackEvent> {
    body(track, start + index * section_len, section_len)
}

/// Each of the first `k` sections equals the first one.
pub open spec fn sections_equal(
    track: Seq<TrackEvent>,
    start: int,
    section_len: int,
    k: int,
) -> bool {
    forall|index: int|
        1 <= index < k ==> #[trigger] section(track, start, section_len, index) == section(
            track,
            start,
            section_len,
            0,
        )
}

/// The `len` events from `start` on are `k` equal sections in a row, each of
/// at least two events.
pub open spec fn periodic(track: Seq<TrackEvent>, start: int, len: int, k: int) -> bool {
    &&& 2 <= k <= len / 2
    &&& len % k == 0
    &&& sections_equal(track, start, len / k, k)
}

/// The `len` events from `start` on are themselves a repetition of a shorter
/// range of at least two events.
pub open spec fn self_similar(track: Seq<TrackEvent>, start: int, len: int) -> bool {
    exists|k: int| periodic(track, start, len, k)
}

/// Whether `len` events from `a` on equal the `len` events from `b` on.
fn ranges_equal(track: &[TrackEvent], a: usize, b: usize, len: usize) -> (same: bool)
    requires
        a + len <= track.len(),
        b + len <= track.len(),
    ensures
        same == (body(track@, a as int, len as int) == body(track@, b as int, len as int)),
{
    let mut i: usize = 0;
    while i < len
        invariant
            i <= len,
            a + len <= track.len(),
            b + len <= track.len(),
            body(track@, a as int, i as int) =~= body(track@, b as int, i as int),
        decreases len - i,
    {
        if !same_event(&track[a + i], &track[b + i]) {
            assert(body(track@, a as int, len as int)[i as int] == track@[a + i]);
            assert(body(track@, b as int, len as int)[i as int] == track@[b + i]);
            return false;
        }
        proof {
            let before_a = body(track@, a as int, i as int);
            let before_b = body(track@, b as int, i as int);
            let with_a = body(track@, a as int, i + 1);
            let with_b = body(track@, b as int, i + 1);
            assert forall|j: int| 0 <= j < i + 1 implies with_a[j] == with_b[j] by {
                if j < i {
                    assert(before_a[j] == before_b[j]);
                }
            }
        }
        i += 1;
    }
    true
}

/// Whether a loop is itself made of a shorter range of at least two events,
/// repeated.
pub fn loop_contains_itself(track: &[TrackEvent], found_loop: &Loop) -> (contains: bool)
    requires
        found_loop.start + found_loop.len <= track.len(),
    ensures
        contains == self_similar(track@, found_loop.start as int, found_loop.len as int),
{
    let start = found_loop.start;
    let len = found_loop.len;
    let mut factor: usize = 2;
    while factor <= len / 2
        invariant
            2 <= factor,
            start == found_loop.start,
            len == found_loop.len,
            start + len <= track.len(),
            forall|k: int| 2 <= k < factor ==> !periodic(track@, start as int, len as int, k),
        decreases len - factor,
    {
        if len % factor == 0 {
            let section_len = len / factor;
            assert(section_len * factor == len) by (nonlinear_arith)
                requires
                    len % factor == 0,
                    section_len == len / factor,
                    factor > 0,
            ;
            let mut section_i: usize = 1;
            let mut section_is_repeated = true;
            while section_i < factor && section_is_repeated
                invariant
                    1 <= section_i <= factor,
                    section_len * factor == len,
                    start + len <= track.len(),
                    section_is_repeated ==> sections_equal(
                        track@,
                        start as int,
                        section_len as int,
                        section_i as int,
                    ),
                    !section_is_repeated ==> !sections_equal(
                        track@,
                        start as int,
                        section_len as int,
                        factor as int,
                    ),
                decreases 2 * (factor - section_i) + (if section_is_repeated { 1int } else { 0int }),
            {
                assert(section_i * section_len + section_len <= len) by (nonlinear_arith)
                    requires
                        section_i < factor,
                        section_len * factor == len,
                ;
                if ranges_equal(track, start, start + section_i * section_len, section_len) {
                    assert(section(track@, start as int, section_len as int, section_i as int)
                        == section(track@, start as int, section_len as int, 0));
                    section_i += 1;
                } else {
                    assert(section(track@, start as int, section_len as int, section_i as int)
                        != section(track@, start as int, section_len as int, 0));
                    section_is_repeated = false;
                }
            }
            if section_is_repeated {
                assert(periodic(track@, start as int, len as int, factor as int));
                return true;
            }
        }
        factor += 1;
    }
    false
}

/// Whether an event changes the program of a channel.
pub open spec fn is_program_change(ev: TrackEvent) -> bool {
    ev.kind matches TrackEventKind::Midi { message: MidiMessage::ProgramChange { .. }, .. }
}

/// Whether an event is a *Note On*, of any velocity, on `channel`.
pub open spec fn is_note_on_channel(ev: TrackEvent, channel: int) -> bool {
    spec_note(ev) matches Some(n) && n.channel == channel
}

/// Whether an event sets controller `cc` of `channel`.
pub open spec fn changes_controller(ev: TrackEvent, channel: int, cc: int) -> bool {
    spec_controller(ev) matches Some(c) && c.channel == channel && c.controller == cc
}

/// Whether `channel` has played a note among the events from `from` up to,
/// but without, `to`.
pub open spec fn note_played(track: Seq<TrackEvent>, from: int, to: int, channel: int) -> bool {
    exists|i: int| from <= i < to && #[trigger] is_note_on_channel(track[i], channel)
}

/// Whether controller `cc` of `channel` is changed between `start` and `end`
/// at a point up to which the channel has not played a note since `start`.
/// Such a change cannot be heard, and does not count when two states are
/// compared.
pub open spec fn controller_is_redundant(
    track: Seq<TrackEvent>,
    start: int,
    end: int,
    channel: int,
    cc: int,
) -> bool {
    exists|i: int|
        start <= i < end && #[trigger] changes_controller(track[i], channel, cc) && !note_played(
            track,
            start,
            i,
            channel,
        )
}

/// The number of notes that sound on `channel` after one more event, where
/// `before` were sounding: a *Note On* adds one, a *Note Off* or a *Note On*
/// of velocity 0 takes one away where there is one.
pub open spec fn notes_active_after(before: nat, ev: TrackEvent, channel: int) -> nat {
    match ev.kind {
        TrackEventKind::Midi { channel: c, message: MidiMessage::NoteOn { vel, .. } } => if c
            != channel {
            before
        } else if vel > 0 {
            before + 1
        } else if before > 0 {
            (before - 1) as nat
        } else {
            0
        },
        TrackEventKind::Midi { channel: c, message: MidiMessage::NoteOff { .. } } => if c
            == channel && before > 0 {
            (before - 1) as nat
        } else {
            before
        },
        _ => before,
    }
}

/// The number of notes that sound on `channel` after the events from `from`
/// up to, but without, `to`, counted from none at `from`.
pub open spec fn notes_active(track: Seq<TrackEvent>, from: int, to: int, channel: int) -> nat
    decreases to - from,
{
    if to <= from {
        0
    } else {
        notes_active_after(notes_active(track, from, to - 1, channel), track[to - 1], channel)
    }
}

/// Controller `cc` of `channel` has the same value before event `start` and
/// before event `cursor`, or its changes in between cannot be heard.
pub open spec fn controller_matches(
    track: Seq<TrackEvent>,
    start: int,
    cursor: int,
    channel: int,
    cc: int,
) -> bool {
    ||| StateModel::after(track, start).ch[channel].cc[cc] == StateModel::after(
        track,
        cursor,
    ).ch[channel].cc[cc]
    ||| controller_is_redundant(track, start, cursor, channel, cc)
}

/// The state of `channel` before event `start` can stand for its state
/// before event `cursor`: wholly the same where a note is still sounding at
/// `cursor`, and else the same but for controller changes that cannot be
/// heard.
pub open spec fn channel_matches(
    track: Seq<TrackEvent>,
    start: int,
    cursor: int,
    channel: int,
) -> bool {
    let before = StateModel::after(track, start).ch[channel];
    let past = StateModel::after(track, cursor).ch[channel];
    &&& notes_active(track, start, cursor, channel) > 0 ==> before == past
    &&& before.program == past.program
    &&& before.bend == past.bend
    &&& forall|cc: int| 0 <= cc < 128 ==> #[trigger] controller_matches(track, start, cursor, channel, cc)
}

/// A recording can jump from `cursor` back to `start` without a difference
/// that can be heard: tempo and every channel match.
pub open spec fn state_matches(track: Seq<TrackEvent>, start: int, cursor: int) -> bool {
    &&& StateModel::after(track, start).tempo == StateModel::after(track, cursor).tempo
    &&& forall|channel: int| 0 <= channel < 16 ==> #[trigger] channel_matches(track, start, cursor, channel)
}

/// The events from `start` up to `cursor` are a loop: both ends stand on a
/// pulse of their own, no program change stands at the start, the range is
/// found again from `cursor` on and is not itself a repetition, and, in
/// recording space, the state matches at both ends.
pub open spec fn loop_at(
    track: Seq<TrackEvent>,
    start: int,
    cursor: int,
    in_recording_space: bool,
) -> bool {
    &&& 0 <= start < cursor < track.len()
    &&& track[start].delta != 0
    &&& track[cursor].delta != 0
    &&& !is_program_change(track[start])
    &&& repeats(track, start, cursor - start)
    &&& !self_similar(track, start, cursor - start)
    &&& in_recording_space ==> state_matches(track, start, cursor)
}

/// A channel has played a note up to and with an event if it has played
/// one before the event, or the event is a note of the channel.
proof fn lemma_note_played_step(track: Seq<TrackEvent>, from: int, to: int, channel: int)
    requires
        from <= to,
    ensures
        note_played(track, from, to + 1, channel) == (note_played(track, from, to, channel)
            || is_note_on_channel(track[to], channel)),
{
    if note_played(track, from, to + 1, channel) {
        let i = choose|i: int| from <= i < to + 1 && #[trigger] is_note_on_channel(track[i], channel);
        if i < to {
            assert(note_played(track, from, to, channel));
        }
    }
    if note_played(track, from, to, channel) {
        let i = choose|i: int| from <= i < to && #[trigger] is_note_on_channel(track[i], channel);
        assert(from <= i < to + 1 && is_note_on_channel(track[i], channel));
    }
}

/// A change of a controller cannot be heard up to and with an event if it
/// cannot be heard before the event, or the event is such a change and the
/// channel has not played a note before it.
proof fn lemma_redundant_step(track: Seq<TrackEvent>, start: int, end: int, channel: int, cc: int)
    requires
        start <= end,
    ensures
        controller_is_redundant(track, start, end + 1, channel, cc) == (controller_is_redundant(
            track,
            start,
            end,
            channel,
            cc,
        ) || (changes_controller(track[end], channel, cc) && !note_played(
            track,
            start,
            end,
            channel,
        ))),
{
    if controller_is_redundant(track, start, end + 1, channel, cc) {
        let i = choose|i: int|
            start <= i < end + 1 && #[trigger] changes_controller(track[i], channel, cc)
                && !note_played(track, start, i, channel);
        if i < end {
            assert(controller_is_redundant(track, start, end, channel, cc));
        }
    }
    if controller_is_redundant(track, start, end, channel, cc) {
        let i = choose|i: int|
            start <= i < end && #[trigger] changes_controller(track[i], channel, cc)
                && !note_played(track, start, i, channel);
        assert(start <= i < end + 1 && changes_controller(track[i], channel, cc));
    }
}

/// Whether the state before event `start`, given as `state_before`, matches
/// the state before event `cursor`.
fn state_matches_at(
    track: &[TrackEvent],
    start: usize,
    cursor: usize,
    state_before: &MidiState,
) -> (matches: bool)
    requires
        start <= cursor <= track.len(),
        state_before@ == StateModel::after(track@, start as int),
    ensures
        matches == state_matches(track@, start as int, cursor as int),
{
    let mut state_past = *state_before;
    let mut played_a_note = [false;16];
    let mut notes_active_on = [0u64;16];
    let mut redundant_ccs = [[false;128];16];
    let mut i = start;
    while i < cursor
        invariant
            start <= i <= cursor <= track.len(),
            state_past@ == StateModel::after(track@, i as int),
            forall|c: int|
                0 <= c < 16 ==> #[trigger] played_a_note[c] == note_played(
                    track@,
                    start as int,
                    i as int,
                    c,
                ),
            forall|c: int|
                0 <= c < 16 ==> #[trigger] notes_active_on[c] == notes_active(
                    track@,
                    start as int,
                    i as int,
                    c,
                ),
            forall|c: int| 0 <= c < 16 ==> #[trigger] notes_active_on[c] <= i - start,
            forall|c: int, cc: int|
                0 <= c < 16 && 0 <= cc < 128 ==> #[trigger] redundant_ccs[c][cc]
                    == controller_is_redundant(track@, start as int, i as int, c, cc),
        decreases cursor - i,
    {
        let ev = &track[i];
        let ghost played_before = played_a_note;
        let ghost active_before = notes_active_on;
        let ghost redundant_before = redundant_ccs;
        state_past.update(ev);
        if let TrackEventKind::Midi { channel, message } = ev.kind {
            if channel < 16 {
                let ch = channel as usize;
                match message {
                    MidiMessage::NoteOn { key: _, vel } => {
                        played_a_note[ch] = true;
                        if vel > 0 {
                            notes_active_on[ch] = notes_active_on[ch] + 1;
                        } else if notes_active_on[ch] > 0 {
                            notes_active_on[ch] = notes_active_on[ch] - 1;
                        }
                    },
                    MidiMessage::NoteOff { key: _, vel: _ } => {
                        if notes_active_on[ch] > 0 {
                            notes_active_on[ch] = notes_active_on[ch] - 1;
                        }
                    },
                    MidiMessage::Controller { controller, value: _ } => {
                        if controller < 128 && !played_a_note[ch] {
                            let mut of_channel = redundant_ccs[ch];
                            of_channel[controller as usize] = true;
                            redundant_ccs[ch] = of_channel;
                        }
                    },
                    _ => {},
                }
            }
        }
        proof {
            assert forall|c: int| 0 <= c < 16 implies #[trigger] played_a_note[c] == note_played(
                track@,
                start as int,
                i + 1,
                c,
            ) by {
                lemma_note_played_step(track@, start as int, i as int, c);
                assert(played_before[c] == note_played(track@, start as int, i as int, c));
            }
            assert forall|c: int| 0 <= c < 16 implies #[trigger] notes_active_on[c] == notes_active(
                track@,
                start as int,
                i + 1,
                c,
            ) && notes_active_on[c] <= i + 1 - start by {
                assert(active_before[c] == notes_active(track@, start as int, i as int, c));
                assert(active_before[c] <= i - start);
            }
            assert forall|c: int, cc: int| 0 <= c < 16 && 0 <= cc < 128 implies #[trigger] redundant_ccs[c][cc]
                == controller_is_redundant(track@, start as int, i + 1, c, cc) by {
                lemma_redundant_step(track@, start as int, i as int, c, cc);
                assert(redundant_before[c][cc] == controller_is_redundant(
                    track@,
                    start as int,
                    i as int,
                    c,
                    cc,
                ));
                assert(played_before[c] == note_played(track@, start as int, i as int, c));
            }
        }
        i += 1;
    }
    if state_before.tempo != state_past.tempo {
        return false;
    }
    let mut ch: usize = 0;
    while ch < 16
        invariant
            ch <= 16,
            start <= cursor,
            state_before@ == StateModel::after(track@, start as int),
            state_past@ == StateModel::after(track@, cursor as int),
            forall|c: int|
                0 <= c < 16 ==> #[trigger] notes_active_on[c] == notes_active(
                    track@,
                    start as int,
                    cursor as int,
                    c,
                ),
            forall|c: int, cc: int|
                0 <= c < 16 && 0 <= cc < 128 ==> #[trigger] redundant_ccs[c][cc]
                    == controller_is_redundant(track@, start as int, cursor as int, c, cc),
            forall|c: int| 0 <= c < ch ==> #[trigger] channel_matches(track@, start as int, cursor as int, c),
        decreases 16 - ch,
    {
        let before = &state_before.ch[ch];
        let past = &state_past.ch[ch];
        assert(before@ == StateModel::after(track@, start as int).ch[ch as int]);
        assert(past@ == StateModel::after(track@, cursor as int).ch[ch as int]);
        if notes_active_on[ch] > 0 && !before.same(past) {
            assert(!channel_matches(track@, start as int, cursor as int, ch as int));
            return false;
        }
        if before.program != past.program || before.bend != past.bend {
            assert(!channel_matches(track@, start as int, cursor as int, ch as int));
            return false;
        }
        let mut cc: usize = 0;
        while cc < 128
            invariant
                cc <= 128,
                ch < 16,
                before@ == StateModel::after(track@, start as int).ch[ch as int],
                past@ == StateModel::after(track@, cursor as int).ch[ch as int],
                forall|c: int, k: int|
                    0 <= c < 16 && 0 <= k < 128 ==> #[trigger] redundant_ccs[c][k]
                        == controller_is_redundant(track@, start as int, cursor as int, c, k),
                forall|k: int|
                    0 <= k < cc ==> #[trigger] controller_matches(
                        track@,
                        start as int,
                        cursor as int,
                        ch as int,
                        k,
                    ),
            decreases 128 - cc,
        {
            if before.cc[cc] != past.cc[cc] && !redundant_ccs[ch][cc] {
                assert(!controller_matches(track@, start as int, cursor as int, ch as int, cc as int));
                assert(!channel_matches(track@, start as int, cursor as int, ch as int));
                return false;
            }
            assert(controller_matches(track@, start as int, cursor as int, ch as int, cc as int));
            cc += 1;
        }
        ch += 1;
    }
    true
}

/// Whether an event changes the program of a channel.
fn changes_program(ev: &TrackEvent) -> (changes: bool)
    ensures
        changes == is_program_change(*ev),
{
    match ev.kind {
        TrackEventKind::Midi { channel: _, message: MidiMessage::ProgramChange { program: _ } } => true,
        _ => false,
    }
}

/// `found` is the loop up to `cursor` with the earliest start from
/// `earliest_start` on that is longer than `min_len`, or nothing where no
/// start in that reach gives a loop.
pub open spec fn is_first_loop(
    track: Seq<TrackEvent>,
    cursor: int,
    earliest_start: int,
    min_len: int,
    in_recording_space: bool,
    found: Option<Loop>,
) -> bool {
    match found {
        Some(found) => {
            &&& earliest_start <= found.start < cursor - min_len
            &&& found.len == cursor - found.start
            &&& loop_at(track, found.start as int, cursor, in_recording_space)
            &&& forall|start: int|
                earliest_start <= start < found.start ==> !loop_at(
                    track,
                    start,
                    cursor,
                    in_recording_space,
                )
        },
        None => forall|start: int|
            earliest_start <= start < cursor - min_len ==> !loop_at(
                track,
                start,
                cursor,
                in_recording_space,
            ),
    }
}

/// Looks for the loop that ends right before event `cursor`, trying each
/// start from `earliest_start` on for which the loop is longer than `min_len`.
pub fn find_loop_ending_at(
    cursor: usize,
    earliest_start: usize,
    min_len: usize,
    track: &[TrackEvent],
    in_recording_space: bool,
) -> (found: Option<Loop>)
    requires
        cursor < track.len(),
    ensures
        is_first_loop(
            track@,
            cursor as int,
            earliest_start as int,
            min_len as int,
            in_recording_space,
            found,
        ),
{
    if min_len >= cursor || earliest_start >= cursor - min_len {
        return None;
    }
    let end = cursor - min_len;
    let cursor_ev = &track[cursor];
    let mut state_before = MidiState::new();
    if in_recording_space {
        let mut i: usize = 0;
        while i < earliest_start
            invariant
                i <= earliest_start < track.len(),
                state_before@ == StateModel::after(track@, i as int),
            decreases earliest_start - i,
        {
            state_before.update(&track[i]);
            i += 1;
        }
    }
    let mut start = earliest_start;
    while start < end
        invariant
            earliest_start <= start <= end,
            end == cursor - min_len,
            cursor < track.len(),
            *cursor_ev == track@[cursor as int],
            in_recording_space ==> state_before@ == StateModel::after(track@, start as int),
            forall|s: int|
                earliest_start <= s < start ==> !loop_at(track@, s, cursor as int, in_recording_space),
        decreases end - start,
    {
        let start_ev = &track[start];
        let len = cursor - start;
        if start_ev.delta != 0 && cursor_ev.delta != 0 && !changes_program(start_ev) {
            if !same_event(start_ev, cursor_ev) {
                assert(len <= track.len() - cursor ==> body(track@, start as int, len as int)[0]
                    != body(track@, cursor as int, len as int)[0]);
            } else if len <= track.len() - cursor && ranges_equal(track, start, cursor, len) {
                if !in_recording_space || state_matches_at(track, start, cursor, &state_before) {
                    let new = Loop { start, len };
                    if !loop_contains_itself(track, &new) {
                        return Some(new);
                    }
                }
            }
        }
        if in_recording_space {
            state_before.update(start_ev);
        }
        start += 1;
    }
    None
}

/// `best` is the best of the note-space loops that end right before one of
/// `cursors`: such a loop itself, with none better among them, or no loop
/// where there is none.
pub open spec fn best_among(track: Seq<TrackEvent>, cursors: Set<int>, best: Loop) -> bool {
    &&& best.len == 0 ==> best == Loop::none()
    &&& best.len > 0 ==> cursors.contains(best.start + best.len) && loop_at(
        track,
        best.start as int,
        best.start + best.len,
        false,
    )
    &&& forall|start: int, cursor: int|
        cursors.contains(cursor) && #[trigger] loop_at(track, start, cursor, false) ==> {
            ||| cursor - start < best.len
            ||| cursor - start == best.len && best.start <= start
        }
}

/// The cursors from `from` up to, but without, `to`.
pub open spec fn cursors_between(from: int, to: int) -> Set<int> {
    Set::new(|cursor: int| from <= cursor < to)
}

/// `best` is the best note-space loop of a track: the longest one, and of
/// several the one that starts first, or no loop where the track has none.
pub open spec fn best_note_loop(track: Seq<TrackEvent>, best: Loop) -> bool {
    best_among(track, cursors_between(0, track.len() as int), best)
}

/// `next` is what a search that holds `longest` keeps after it has looked at
/// `cursor`: the loop up to `cursor` with the earliest start, where that one
/// is longer, and else `longest`.
pub open spec fn keeps_longer(
    track: Seq<TrackEvent>,
    longest: Loop,
    cursor: int,
    next: Loop,
) -> bool {
    exists|found: Option<Loop>|
        #[trigger] is_first_loop(track, cursor, 0, longest.len as int, false, found) && next == (
        match found {
            Some(found) => found,
            None => longest,
        })
}

/// One step of the search for the best note-space loop: looks at `cursor`
/// for a loop that is longer than `longest`.
pub fn longer_loop_at(longest: Loop, cursor: usize, track: &[TrackEvent]) -> (next: Loop)
    requires
        cursor < track.len(),
    ensures
        keeps_longer(track@, longest, cursor as int, next),
{
    let found = find_loop_ending_at(cursor, 0, longest.len, track, false);
    match found {
        Some(found) => found,
        None => longest,
    }
}

/// A step from the best loop among `cursors` gives the best loop among
/// `cursors` and `cursor`, where `cursor` lies behind all of them.
pub proof fn lemma_step_keeps_best(
    track: Seq<TrackEvent>,
    cursors: Set<int>,
    longest: Loop,
    cursor: int,
    next: Loop,
)
    requires
        best_among(track, cursors, longest),
        forall|c: int| cursors.contains(c) ==> c < cursor,
        keeps_longer(track, longest, cursor, next),
    ensures
        best_among(track, cursors.insert(cursor), next),
{
    let found = choose|found: Option<Loop>|
        #[trigger] is_first_loop(track, cursor, 0, longest.len as int, false, found) && next == (
        match found {
            Some(found) => found,
            None => longest,
        });
    assert forall|s: int, c: int|
        cursors.insert(cursor).contains(c) && #[trigger] loop_at(track, s, c, false) implies {
        ||| c - s < next.len
        ||| c - s == next.len && next.start <= s
    } by {
        if c != cursor {
            assert(cursors.contains(c));
        }
    }
}

/// `found` is the recording-space loop that belongs to a note-space loop:
/// it starts at the start of the note-space loop or behind it, it ends at
/// the end of the first repetition of the note-space loop or behind it, at
/// the first cursor for which there is such a loop at all, and of the loops
/// up to that cursor it is the one that starts first. Where no cursor has
/// such a loop, `found` is no loop.
pub open spec fn is_recording_loop(track: Seq<TrackEvent>, note_loop: Loop, found: Loop) -> bool {
    let earliest_start = note_loop.start as int;
    let first_cursor = note_loop.start + note_loop.len;
    let cursor = found.start + found.len;
    &&& found.len == 0 ==> found == Loop::none() && forall|start: int, cursor: int|
        first_cursor <= cursor && earliest_start <= start ==> !#[trigger] loop_at(
            track,
            start,
            cursor,
            true,
        )
    &&& found.len > 0 ==> {
        &&& first_cursor <= cursor
        &&& is_first_loop(track, cursor, earliest_start, 0, true, Some(found))
        &&& forall|start: int, earlier: int|
            first_cursor <= earlier < cursor && earliest_start <= start ==> !#[trigger] loop_at(
                track,
                start,
                earlier,
                true,
            )
    }
}

/// The recording-space loop that belongs to a note-space loop.
pub fn find_recording_loop(track: &[TrackEvent], note_loop: Loop) -> (found: Loop)
    ensures
        is_recording_loop(track@, note_loop, found),
        found.len > 0 ==> loop_at(track@, found.start as int, found.start + found.len, true),
{
    let first_cursor = match note_loop.start.checked_add(note_loop.len) {
        Some(first_cursor) => first_cursor,
        None => {
            assert(track@.len() == track.len());
            return Loop::default();
        },
    };
    let mut cursor = first_cursor;
    while cursor < track.len()
        invariant
            first_cursor == note_loop.start + note_loop.len,
            first_cursor <= cursor,
            forall|start: int, earlier: int|
                first_cursor <= earlier < cursor && note_loop.start <= start ==> !#[trigger] loop_at(
                    track@,
                    start,
                    earlier,
                    true,
                ),
        decreases track.len() - cursor,
    {
        if let Some(found) = find_loop_ending_at(cursor, note_loop.start, 0, track, true) {
            return found;
        }
        cursor += 1;
    }
    Loop::default()
}

/// What the search for loops is given besides the sequence.
#[derive(Clone, Copy, Debug)]
pub struct Options {
    /// The sample rate of a recording. With a sample rate the search goes
    /// on to the loop in recording space.
    pub samplerate: Option<u32>,
}

/// The loops of a track.
#[derive(Clone, Copy, Debug, PartialEq, Eq, Structural)]
pub struct Loops {
    /// The best loop in note space.
    pub note_loop: Loop,
    /// The loop in recording space, where it was asked for and there is a
    /// loop in note space.
    pub recording_loop: Option<Loop>,
}

/// `loops` are the loops of a track: the best loop in note space, and with
/// it, where `in_recording_space` is set and there is a loop in note space,
/// the loop in recording space that belongs to it.
pub open spec fn are_loops_of(track: Seq<TrackEvent>, in_recording_space: bool, loops: Loops) -> bool {
    &&& best_note_loop(track, loops.note_loop)
    &&& match loops.recording_loop {
        Some(recording_loop) => {
            &&& in_recording_space
            &&& loops.note_loop.len != 0
            &&& is_recording_loop(track, loops.note_loop, recording_loop)
        },
        None => !in_recording_space || loops.note_loop.len == 0,
    }
}

/// A loop of `track` in the given space stands within the track, is found
/// again right behind itself, has both ends on pulses of their own, and is
/// not itself a repetition of equal sections.
pub open spec fn is_sound(track: Seq<TrackEvent>, found: Loop) -> bool {
    found.len == 0 || {
        &&& found.start + 2 * found.len <= track.len()
        &&& body(track, found.start as int, found.len as int) == body(
            track,
            found.start + found.len,
            found.len as int,
        )
        &&& track[found.start as int].delta != 0
        &&& track[found.start + found.len].delta != 0
        &&& forall|k: int|
            2 <= k <= found.len / 2 ==> !#[trigger] periodic(
                track,
                found.start as int,
                found.len as int,
                k,
            )
    }
}

/// The loops of a track.
pub fn find_loops(track: &[TrackEvent], in_recording_space: bool) -> (loops: Loops)
    ensures
        are_loops_of(track@, in_recording_space, loops),
        is_sound(track@, loops.note_loop),
        loops.recording_loop matches Some(recording_loop) ==> is_sound(track@, recording_loop),
{
    let note_loop = find_note_loop(track);
    let recording_loop = if note_loop.len != 0 && in_recording_space {
        Some(find_recording_loop(track, note_loop))
    } else {
        None
    };
    Loops { note_loop, recording_loop }
}

/// The one track of a sequence. A sequence of more or less than one track
/// is refused, and so is a timing in pulses per second.
pub fn single_track<'s, 'a>(smf: &'s Smf<'a>) -> (track: Result<&'s [TrackEvent<'a>], Error>)
    ensures
        match track {
            Ok(track) => {
                &&& smf.tracks.len() == 1
                &&& smf.header.timing is Metrical
                &&& track@ == smf@.tracks[0]
            },
            Err(Error::TrackCount(tracks)) => tracks == smf.tracks.len() && tracks != 1,
            Err(Error::UnsupportedTiming) => smf.tracks.len() == 1 && smf.header.timing is Timecode,
            Err(_) => false,
        },
{
    if smf.tracks.len() != 1 {
        return Err(Error::TrackCount(smf.tracks.len()));
    }
    if let Timing::Timecode(_, _) = smf.header.timing {
        return Err(Error::UnsupportedTiming);
    }
    assert(smf@.tracks[0] == smf.tracks@[0]@);
    Ok(smf.tracks[0].as_slice())
}

/// The loops of the one track of a sequence. A sequence of more or less
/// than one track is refused, and so is a timing in pulses per second.
pub fn find(smf: &Smf, opts: Options) -> (found: Result<Loops, Error>)
    ensures
        match found {
            Ok(loops) => {
                &&& smf.tracks.len() == 1
                &&& smf.header.timing is Metrical
                &&& are_loops_of(smf@.tracks[0], opts.samplerate is Some, loops)
                &&& is_sound(smf@.tracks[0], loops.note_loop)
                &&& loops.recording_loop matches Some(recording_loop) ==> is_sound(
                    smf@.tracks[0],
                    recording_loop,
                )
            },
            Err(Error::TrackCount(tracks)) => tracks == smf.tracks.len() && tracks != 1,
            Err(Error::UnsupportedTiming) => smf.tracks.len() == 1 && smf.header.timing is Timecode,
            Err(_) => false,
        },
{
    match single_track(smf) {
        Ok(track) => Ok(find_loops(track, opts.samplerate.is_some())),
        Err(e) => Err(e),
    }
}

/// Of the loops that end right before one of `cursors`, only one is the
/// best.
pub proof fn lemma_best_is_unique(track: Seq<TrackEvent>, cursors: Set<int>, a: Loop, b: Loop)
    requires
        best_among(track, cursors, a),
        best_among(track, cursors, b),
    ensures
        a == b,
{
    if a.len > 0 {
        assert(loop_at(track, a.start as int, a.start + a.len, false));
    }
    if b.len > 0 {
        assert(loop_at(track, b.start as int, b.start + b.len, false));
    }
}

/// The reducer joins two results: of the best loop among one set of cursors
/// and the best among another it picks the best among both.
pub proof fn lemma_pick_joins(
    track: Seq<TrackEvent>,
    left: Set<int>,
    right: Set<int>,
    a: Loop,
    b: Loop,
)
    requires
        best_among(track, left, a),
        best_among(track, right, b),
    ensures
        best_among(track, left.union(right), spec_pick(a, b)),
{
    if a.len > 0 {
        assert(loop_at(track, a.start as int, a.start + a.len, false));
    }
    if b.len > 0 {
        assert(loop_at(track, b.start as int, b.start + b.len, false));
    }
}

/// The order by which loops are kept is a total order: no loop is better
/// than itself, of two different loops one is better than the other, and
/// what is better than a loop is better than each loop that this loop is
/// better than.
pub proof fn lemma_better_than_is_a_total_order(a: Loop, b: Loop, c: Loop)
    ensures
        !a.spec_better_than(&a),
        a != b ==> a.spec_better_than(&b) || b.spec_better_than(&a),
        !(a.spec_better_than(&b) && b.spec_better_than(&a)),
        a.spec_better_than(&b) && b.spec_better_than(&c) ==> a.spec_better_than(&c),
{
}

/// The reducer is commutative: which of two results comes first does not
/// matter.
pub proof fn lemma_pick_commutes(a: Loop, b: Loop)
    ensures
        spec_pick(a, b) == spec_pick(b, a),
{
}

/// The reducer is associative: how results are grouped does not matter.
pub proof fn lemma_pick_associates(a: Loop, b: Loop, c: Loop)
    ensures
        spec_pick(spec_pick(a, b), c) == spec_pick(a, spec_pick(b, c)),
{
}

/// No loop is the identity of the reducer: joined with no loop, a result
/// stays as it is.
pub proof fn lemma_pick_of_none(a: Loop)
    requires
        a.len == 0 ==> a == Loop::none(),
    ensures
        spec_pick(Loop::none(), a) == a,
        spec_pick(a, Loop::none()) == a,
{
}

/// What a worker holds before step `step` of a sweep: no loop before the
/// first step, and then what it kept at the step before.
pub open spec fn held_before(kept: Seq<Loop>, step: int) -> Loop {
    if step <= 0 {
        Loop::none()
    } else {
        kept[step - 1]
    }
}

/// A search as it ran, handed out to workers in some way: a worker sweeps
/// the cursors from `from` on, one step each, and `kept` is what it held
/// after each step; an idle worker hands back no loop; and the reducer joins
/// what two parts of the search have found.
pub enum Run {
    Idle,
    Sweep { from: int, kept: Seq<Loop> },
    Join(Box<Run>, Box<Run>),
}

impl Run {
    /// The cursors that some worker has looked at.
    pub open spec fn cursors(self) -> Set<int>
        decreases self,
    {
        match self {
            Run::Idle => Set::empty(),
            Run::Sweep { from, kept } => cursors_between(from, from + kept.len()),
            Run::Join(left, right) => left.cursors().union(right.cursors()),
        }
    }

    /// The run has looked at each cursor of a track of `len` events.
    pub open spec fn looks_at_all(self, len: int) -> bool {
        forall|cursor: int| 0 <= cursor < len ==> self.cursors().contains(cursor)
    }

    /// What the search hands back in the end.
    pub open spec fn result(self) -> Loop
        decreases self,
    {
        match self {
            Run::Idle => Loop::none(),
            Run::Sweep { from, kept } => held_before(kept, kept.len() as int),
            Run::Join(left, right) => spec_pick(left.result(), right.result()),
        }
    }

    /// Each step of each worker is a step of the search on `track`, as
    /// `longer_loop_at` makes it.
    pub open spec fn follows(self, track: Seq<TrackEvent>) -> bool
        decreases self,
    {
        match self {
            Run::Idle => true,
            Run::Sweep { from, kept } => forall|step: int|
                0 <= step < kept.len() ==> keeps_longer(
                    track,
                    held_before(kept, step),
                    from + step,
                    #[trigger] kept[step],
                ),
            Run::Join(left, right) => left.follows(track) && right.follows(track),
        }
    }
}

/// A sweep ends with the best loop among its cursors.
pub proof fn lemma_sweep_finds_best(track: Seq<TrackEvent>, from: int, kept: Seq<Loop>)
    requires
        (Run::Sweep { from, kept }).follows(track),
    ensures
        best_among(track, (Run::Sweep { from, kept }).cursors(), (Run::Sweep { from, kept }).result()),
    decreases kept.len(),
{
    if kept.len() > 0 {
        let earlier = kept.drop_last();
        let last = kept.len() - 1;
        assert forall|step: int| 0 <= step < earlier.len() implies keeps_longer(
            track,
            held_before(earlier, step),
            from + step,
            #[trigger] earlier[step],
        ) by {
            assert(earlier[step] == kept[step]);
            assert(held_before(earlier, step) == held_before(kept, step));
        }
        lemma_sweep_finds_best(track, from, earlier);
        assert(held_before(earlier, earlier.len() as int) == held_before(kept, last));
        assert(keeps_longer(track, held_before(kept, last), from + last, kept[last]));
        lemma_step_keeps_best(
            track,
            cursors_between(from, from + last),
            held_before(kept, last),
            from + last,
            kept[last],
        );
        assert(cursors_between(from, from + last).insert(from + last) =~= cursors_between(
            from,
            from + kept.len(),
        ));
    }
}

/// However the cursors were handed out, the search ends with the best loop
/// among the cursors that it has looked at.
pub proof fn lemma_run_finds_best(track: Seq<TrackEvent>, run: Run)
    requires
        run.follows(track),
    ensures
        best_among(track, run.cursors(), run.result()),
    decreases run,
{
    match run {
        Run::Idle => {},
        Run::Sweep { from, kept } => {
            lemma_sweep_finds_best(track, from, kept);
        },
        Run::Join(left, right) => {
            lemma_run_finds_best(track, *left);
            lemma_run_finds_best(track, *right);
            lemma_pick_joins(track, left.cursors(), right.cursors(), left.result(), right.result());
        },
    }
}

/// A run that has looked at each cursor of a track ends with the best
/// note-space loop of the track.
pub proof fn lemma_whole_run_finds_best(track: Seq<TrackEvent>, run: Run)
    requires
        run.follows(track),
        run.looks_at_all(track.len() as int),
    ensures
        best_note_loop(track, run.result()),
{
    lemma_run_finds_best(track, run);
    let result = run.result();
    if result.len > 0 {
        assert(loop_at(track, result.start as int, result.start + result.len, false));
    }
}

/// The search does not depend on how its cursors are handed out: any two
/// runs that have looked at each cursor of the track end with the same loop.
pub proof fn lemma_every_run_finds_the_same(track: Seq<TrackEvent>, run: Run, other: Run)
    requires
        run.follows(track),
        run.looks_at_all(track.len() as int),
        other.follows(track),
        other.looks_at_all(track.len() as int),
    ensures
        run.result() == other.result(),
{
    lemma_whole_run_finds_best(track, run);
    lemma_whole_run_finds_best(track, other);
    lemma_best_is_unique(
        track,
        cursors_between(0, track.len() as int),
        run.result(),
        other.result(),
    );
}

/// `found` is the result of some run that follows a track and has looked at
/// each of its cursors.
pub open spec fn is_result_of_a_whole_run(track: Seq<TrackEvent>, found: Loop) -> bool {
    exists|run: Run|
        #[trigger] run.follows(track) && run.looks_at_all(track.len() as int) && run.result()
            == found
}

/// Searches a track on the threads of rayon's pool, with rayon's
/// `into_par_iter`, `fold_with` and `reduce`. The cursors of the track go to
/// `fold_with`, which divides them into ranges as it sees fit and sweeps
/// each range in order, from no loop on, with `longer_loop_at`; `reduce`
/// then joins what the sweeps have found with `pick`, in an order of its
/// own, and puts in no loop where it needs a result. How the cursors are
/// divided and in which order the results are joined is not known. This is
/// not proved here but taken from rayon: the result is the result of some
/// run that follows the track and has looked at each of its cursors.
#[verifier::external_body]
fn search_in_parallel(track: &[TrackEvent]) -> (found: Loop)
    ensures
        is_result_of_a_whole_run(track@, found),
{
    (0..track.len())
        .into_par_iter()
        .fold_with(Loop::default(), |longest, cursor| longer_loop_at(longest, cursor, track))
        .reduce(Loop::default, pick)
}

/// The best note-space loop of a track. The search runs on as many threads
/// as the pool has, and gives the same loop whatever their number.
pub fn find_note_loop(track: &[TrackEvent]) -> (best: Loop)
    ensures
        best_note_loop(track@, best),
        best.len > 0 ==> loop_at(track@, best.start as int, best.start + best.len, false),
{
    let best = search_in_parallel(track);
    proof {
        let run = choose|run: Run|
            #[trigger] run.follows(track@) && run.looks_at_all(track@.len() as int) && run.result()
                == best;
        lemma_whole_run_finds_best(track@, run);
    }
    best
}

} // verus!
