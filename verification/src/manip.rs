//! MIDI sequence manipulation.

use vstd::prelude::*;
use crate::error::Error;
use crate::event::{
    note_on, spec_note_on, track_wf, MetaMessage, TrackEvent, TrackEventKind, DELTA_LIMIT,
};
use crate::smf::{tracks_view, Smf, SmfModel};
use crate::time::{
    end_pulse, lemma_total_delta_grows, pulses_fit, spec_range_end, total_delta, validate_pulse,
    validate_pulse_range,
};

verus! {

/// Whether an event ends its track.
pub open spec fn is_end_of_track(ev: TrackEvent) -> bool {
    ev.kind == TrackEventKind::Meta(MetaMessage::EndOfTrack)
}

/// Whether the last event of a track is an end-of-track event.
pub open spec fn spec_ends_with_end_of_track_event(track: Seq<TrackEvent>) -> bool {
    track.len() > 0 && is_end_of_track(track.last())
}

/// Where the events of a track end: at its end-of-track event where it ends
/// with one, and else behind its last event.
pub open spec fn spec_end_of_track_index(track: Seq<TrackEvent>) -> int {
    if spec_ends_with_end_of_track_event(track) {
        track.len() - 1
    } else {
        track.len() as int
    }
}

/// The pulse of event `index` of a track.
pub open spec fn pulse_at(track: Seq<TrackEvent>, index: int) -> nat {
    total_delta(track.take(index + 1))
}

/// The first event of a track at or after a pulse.
pub open spec fn first_at_or_after(track: Seq<TrackEvent>, pulse: nat) -> Option<int>
    decreases track.len(),
{
    if track.len() == 0 {
        None
    } else {
        match first_at_or_after(track.drop_last(), pulse) {
            Some(index) => Some(index),
            None => if total_delta(track) >= pulse {
                Some(track.len() - 1)
            } else {
                None
            },
        }
    }
}

/// The first event at or after a pulse is at or after it, and no event
/// before it is.
pub proof fn lemma_first_at_or_after(track: Seq<TrackEvent>, pulse: nat)
    ensures
        match first_at_or_after(track, pulse) {
            Some(index) => {
                &&& 0 <= index < track.len()
                &&& pulse_at(track, index) >= pulse
                &&& forall|earlier: int| 0 <= earlier < index ==> pulse_at(track, earlier) < pulse
            },
            None => forall|index: int| 0 <= index < track.len() ==> pulse_at(track, index) < pulse,
        },
    decreases track.len(),
{
    if track.len() > 0 {
        let before = track.drop_last();
        lemma_first_at_or_after(before, pulse);
        assert forall|index: int| 0 <= index < before.len() implies pulse_at(before, index)
            == pulse_at(track, index) by {
            assert(before.take(index + 1) =~= track.take(index + 1));
        }
        assert(track.take(track.len() as int) =~= track);
    }
}

/// An event at or after a pulse, before which no event is at or after it, is
/// the first event at or after the pulse.
pub proof fn lemma_is_first_at_or_after(track: Seq<TrackEvent>, pulse: nat, index: int)
    requires
        0 <= index < track.len(),
        pulse_at(track, index) >= pulse,
        forall|earlier: int| 0 <= earlier < index ==> pulse_at(track, earlier) < pulse,
    ensures
        first_at_or_after(track, pulse) == Some(index),
{
    lemma_first_at_or_after(track, pulse);
}

/// Whether the last event of a track is an end-of-track event.
fn ends_with_end_of_track_event(track: &[TrackEvent]) -> (ends: bool)
    ensures
        ends == spec_ends_with_end_of_track_event(track@),
{
    if track.len() == 0 {
        return false;
    }
    match track[track.len() - 1].kind {
        TrackEventKind::Meta(MetaMessage::EndOfTrack) => true,
        _ => false,
    }
}

/// Where the events of a track end.
fn end_of_track_index(track: &[TrackEvent]) -> (index: usize)
    ensures
        index == spec_end_of_track_index(track@),
{
    if ends_with_end_of_track_event(track) {
        track.len() - 1
    } else {
        track.len()
    }
}

/// The first event of a track at or after a pulse.
fn find_event_at_or_after(pulse: u64, track: &[TrackEvent]) -> (found: Option<usize>)
    ensures
        match found {
            Some(index) => first_at_or_after(track@, pulse as nat) == Some(index as int),
            None => first_at_or_after(track@, pulse as nat) is None,
        },
{
    let mut pulse_cur: u64 = 0;
    let mut i: usize = 0;
    while i < track.len()
        invariant
            i <= track.len(),
            pulse_cur == total_delta(track@.take(i as int)),
            forall|earlier: int| 0 <= earlier < i ==> pulse_at(track@, earlier) < pulse,
        decreases track.len() - i,
    {
        proof {
            assert(track@.take(i + 1).drop_last() =~= track@.take(i as int));
        }
        let reached = match pulse_cur.checked_add(track[i].delta as u64) {
            Some(pulse_next) => {
                pulse_cur = pulse_next;
                pulse_next >= pulse
            },
            None => true,
        };
        if reached {
            proof {
                lemma_is_first_at_or_after(track@, pulse as nat, i as int);
            }
            return Some(i);
        }
        i += 1;
    }
    proof {
        lemma_first_at_or_after(track@, pulse as nat);
    }
    None
}

/// The same event with another delta time.
pub open spec fn with_delta(ev: TrackEvent, delta: u32) -> TrackEvent {
    TrackEvent { delta, kind: ev.kind }
}

/// An end-of-track event with a delta time.
pub open spec fn end_of_track(delta: u32) -> TrackEvent<'static> {
    TrackEvent { delta, kind: TrackEventKind::Meta(MetaMessage::EndOfTrack) }
}

/// The events of a track that a cut removes: from the first event at or
/// after the start of the range up to the first event at or after its end,
/// and up to where the events of the track end where the range has no end or
/// no event is at or after it. Nothing is removed from a track that ends
/// before the start of the range.
pub open spec fn cut_range(track: Seq<TrackEvent>, range: (u64, Option<u64>)) -> Option<(int, int)> {
    match first_at_or_after(track, range.0 as nat) {
        Some(start) => Some(
            (
                start,
                match range.1 {
                    Some(end) => match first_at_or_after(track, end as nat) {
                        Some(end) => end,
                        None => spec_end_of_track_index(track),
                    },
                    None => spec_end_of_track_index(track),
                },
            ),
        ),
        None => None,
    }
}

/// A track without the events from `start` up to `end`. The event that
/// comes to stand at `start` takes the delta time of the first event that
/// was removed; where the track ends without an end-of-track event, one
/// with that delta time is added.
pub open spec fn without(track: Seq<TrackEvent>, start: int, end: int) -> Seq<TrackEvent> {
    let start_delta = track[start].delta;
    let rest = track.take(start) + track.skip(end);
    if !spec_ends_with_end_of_track_event(rest) {
        rest.push(end_of_track(start_delta))
    } else if start < rest.len() {
        rest.update(start, with_delta(rest[start], start_delta))
    } else {
        rest
    }
}

/// A track after a cut.
pub open spec fn cut_track(track: Seq<TrackEvent>, range: (u64, Option<u64>)) -> Seq<TrackEvent> {
    match cut_range(track, range) {
        Some((start, end)) => without(track, start, end),
        None => track,
    }
}

/// A range of events of one track.
#[derive(Clone, Copy, Debug, PartialEq, Eq, Structural)]
pub struct EventRange {
    pub track: usize,
    pub start: usize,
    pub end: usize,
}

/// The first event at or after a later pulse is not an earlier event.
pub proof fn lemma_first_at_or_after_grows(track: Seq<TrackEvent>, earlier: nat, later: nat)
    requires
        earlier <= later,
    ensures
        match (first_at_or_after(track, earlier), first_at_or_after(track, later)) {
            (Some(first), Some(second)) => first <= second,
            (None, Some(_)) => false,
            _ => true,
        },
{
    lemma_first_at_or_after(track, earlier);
    lemma_first_at_or_after(track, later);
}

/// The range that a cut removes lies within the track.
pub proof fn lemma_cut_range(track: Seq<TrackEvent>, range: (u64, Option<u64>))
    requires
        range.1 matches Some(end) ==> range.0 <= end,
    ensures
        cut_range(track, range) matches Some((start, end)) ==> 0 <= start <= end <= track.len()
            && start < track.len(),
{
    lemma_first_at_or_after(track, range.0 as nat);
    if let Some(end) = range.1 {
        lemma_first_at_or_after(track, end as nat);
        lemma_first_at_or_after_grows(track, range.0 as nat, end as nat);
    }
}

/// Cuts a range of pulses out of one track, and tells which events it has
/// removed.
fn cut_one<'a>(track: &[TrackEvent<'a>], range: (u64, Option<u64>)) -> (cut: (
    Vec<TrackEvent<'a>>,
    Option<(usize, usize)>,
))
    requires
        range.1 matches Some(end) ==> range.0 <= end,
    ensures
        cut.0@ == cut_track(track@, range),
        match cut.1 {
            Some((start, end)) => cut_range(track@, range) == Some((start as int, end as int)),
            None => cut_range(track@, range) is None,
        },
{
    proof {
        lemma_cut_range(track@, range);
    }
    let start = match find_event_at_or_after(range.0, track) {
        Some(start) => start,
        None => {
            return (copy_events(track, 0, track.len()), None);
        },
    };
    let end = match range.1 {
        Some(end) => match find_event_at_or_after(end, track) {
            Some(end) => end,
            None => end_of_track_index(track),
        },
        None => end_of_track_index(track),
    };
    let start_delta = track[start].delta;
    let mut rest = copy_events(track, 0, start);
    let mut i = end;
    while i < track.len()
        invariant
            end <= i <= track.len(),
            rest@ == track@.take(start as int) + track@.subrange(end as int, i as int),
        decreases track.len() - i,
    {
        rest.push(track[i]);
        assert(rest@ =~= track@.take(start as int) + track@.subrange(end as int, i + 1));
        i += 1;
    }
    assert(rest@ =~= track@.take(start as int) + track@.skip(end as int));
    if !ends_with_end_of_track_event(rest.as_slice()) {
        rest.push(TrackEvent { delta: start_delta, kind: TrackEventKind::Meta(MetaMessage::EndOfTrack) });
    } else if start < rest.len() {
        let moved = TrackEvent { delta: start_delta, kind: rest[start].kind };
        rest[start] = moved;
    }
    (rest, Some((start, end)))
}

/// A copy of the events of a track from `from` up to `to`.
pub(crate) fn copy_events<'a>(track: &[TrackEvent<'a>], from: usize, to: usize) -> (copy: Vec<TrackEvent<'a>>)
    requires
        from <= to <= track.len(),
    ensures
        copy@ == track@.subrange(from as int, to as int),
{
    let mut copy: Vec<TrackEvent<'a>> = Vec::new();
    let mut i = from;
    while i < to
        invariant
            from <= i <= to <= track.len(),
            copy@ == track@.subrange(from as int, i as int),
        decreases to - i,
    {
        copy.push(track[i]);
        assert(copy@ =~= track@.subrange(from as int, i + 1));
        i += 1;
    }
    copy
}

/// A cut leaves nothing behind that a second cut of the same range would
/// remove from a track: it removes no event at all, or it removes the
/// events up to where the events of the track end.
pub open spec fn settles(track: Seq<TrackEvent>, range: (u64, Option<u64>)) -> bool {
    match cut_range(track, range) {
        Some((start, end)) => start == end || end >= spec_end_of_track_index(track),
        None => true,
    }
}

/// The events of a track before event `n` have their pulses whatever
/// follows them.
proof fn lemma_pulse_at_prefix(track: Seq<TrackEvent>, other: Seq<TrackEvent>, n: int, index: int)
    requires
        0 <= index < n <= track.len(),
        n <= other.len(),
        track.take(n) == other.take(n),
    ensures
        pulse_at(track, index) == pulse_at(other, index),
{
    assert(track.take(index + 1) =~= track.take(n).take(index + 1));
    assert(other.take(index + 1) =~= other.take(n).take(index + 1));
}

/// The first event at or after a pulse is the same in every track that
/// starts with the same events up to and with that event.
proof fn lemma_first_at_or_after_prefix(
    track: Seq<TrackEvent>,
    other: Seq<TrackEvent>,
    pulse: nat,
    n: int,
)
    requires
        0 <= n <= track.len(),
        n <= other.len(),
        track.take(n) == other.take(n),
        first_at_or_after(track, pulse) matches Some(index) && index < n,
    ensures
        first_at_or_after(other, pulse) == first_at_or_after(track, pulse),
{
    lemma_first_at_or_after(track, pulse);
    let index = first_at_or_after(track, pulse).unwrap();
    assert forall|earlier: int| 0 <= earlier <= index implies pulse_at(other, earlier) == pulse_at(
        track,
        earlier,
    ) by {
        lemma_pulse_at_prefix(track, other, n, earlier);
    }
    lemma_is_first_at_or_after(other, pulse, index);
}

/// The rest of a track up to event `start`, with an end-of-track event in
/// the place and at the pulse of event `start`, is not changed by a cut of a
/// range that starts at or before that pulse and after all earlier events,
/// and that ends behind that pulse or not at all.
proof fn lemma_cut_is_settled(
    track: Seq<TrackEvent>,
    range: (u64, Option<u64>),
    start: int,
    cut: Seq<TrackEvent>,
)
    requires
        first_at_or_after(track, range.0 as nat) == Some(start),
        range.1 matches Some(end) ==> pulse_at(track, start) < end,
        cut == track.take(start).push(end_of_track(track[start].delta)),
    ensures
        cut_track(cut, range) == cut,
{
    lemma_first_at_or_after(track, range.0 as nat);
    assert(cut.take(start) =~= track.take(start));
    assert forall|earlier: int| 0 <= earlier < start implies pulse_at(cut, earlier) == pulse_at(
        track,
        earlier,
    ) by {
        lemma_pulse_at_prefix(track, cut, start, earlier);
    }
    assert(pulse_at(cut, start) == pulse_at(track, start)) by {
        assert(cut.take(start + 1) =~= cut);
        assert(cut.drop_last() =~= track.take(start));
        assert(track.take(start + 1).drop_last() =~= track.take(start));
    }
    lemma_is_first_at_or_after(cut, range.0 as nat, start);
    if let Some(end) = range.1 {
        lemma_first_at_or_after(cut, end as nat);
    }
    assert(cut_range(cut, range) == Some((start, start)));
    assert(cut.take(start) + cut.skip(start) =~= cut);
    assert(cut.update(start, with_delta(cut[start], cut[start].delta)) =~= cut);
}

/// A second cut of the same range changes nothing in a track for which the
/// first cut has settled.
pub proof fn lemma_cut_track_twice(track: Seq<TrackEvent>, range: (u64, Option<u64>))
    requires
        range.1 matches Some(end) ==> range.0 <= end,
        settles(track, range),
    ensures
        cut_track(cut_track(track, range), range) == cut_track(track, range),
{
    lemma_cut_range(track, range);
    lemma_first_at_or_after(track, range.0 as nat);
    if let Some(end) = range.1 {
        lemma_first_at_or_after(track, end as nat);
    }
    match cut_range(track, range) {
        None => {},
        Some((start, end)) => {
            let start_delta = track[start].delta;
            let rest = track.take(start) + track.skip(end);
            let cut = cut_track(track, range);
            if start == end {
                assert(rest =~= track);
                assert(track.update(start, with_delta(track[start], start_delta)) =~= track);
                if spec_ends_with_end_of_track_event(track) {
                    assert(cut == track);
                } else {
                    assert(cut == track.push(end_of_track(start_delta)));
                    assert(cut.take(track.len() as int) =~= track);
                    assert(track.take(track.len() as int) =~= track);
                    lemma_first_at_or_after_prefix(track, cut, range.0 as nat, track.len() as int);
                    if range.1 is Some && first_at_or_after(track, range.1.unwrap() as nat) is Some {
                        lemma_first_at_or_after_prefix(
                            track,
                            cut,
                            range.1.unwrap() as nat,
                            track.len() as int,
                        );
                    }
                    assert(cut_range(cut, range) == Some((start, start)));
                    assert(cut.take(start) + cut.skip(start) =~= cut);
                    assert(cut.update(start, with_delta(cut[start], cut[start].delta)) =~= cut);
                }
            } else {
                assert(pulse_at(track, start) < spec_range_end(seq![track], range) || range.1 is None);
                if spec_ends_with_end_of_track_event(track) {
                    assert(rest =~= track.take(start).push(track.last()));
                    assert(cut =~= track.take(start).push(end_of_track(start_delta)));
                    lemma_cut_is_settled(track, range, start, cut);
                } else {
                    assert(rest =~= track.take(start));
                    if spec_ends_with_end_of_track_event(rest) {
                        assert(cut == rest);
                        lemma_first_at_or_after(cut, range.0 as nat);
                        assert forall|index: int| 0 <= index < cut.len() implies pulse_at(cut, index)
                            == pulse_at(track, index) by {
                            assert(cut.take(start) =~= track.take(start));
                            lemma_pulse_at_prefix(track, cut, start, index);
                        }
                    } else {
                        assert(cut == track.take(start).push(end_of_track(start_delta)));
                        lemma_cut_is_settled(track, range, start, cut);
                    }
                }
            }
        },
    }
}

/// A sequence is not changed by a second cut of the same range, as long as
/// the first cut has settled for each of its tracks. That is so for every
/// range without an end.
pub proof fn lemma_cut_twice(tracks: Seq<Seq<TrackEvent>>, range: (u64, Option<u64>))
    requires
        range.1 matches Some(end) ==> range.0 <= end,
        forall|i: int| 0 <= i < tracks.len() ==> settles(#[trigger] tracks[i], range),
    ensures
        cut_tracks(cut_tracks(tracks, range), range) == cut_tracks(tracks, range),
{
    assert forall|i: int| 0 <= i < tracks.len() implies cut_track(
        cut_tracks(tracks, range)[i],
        range,
    ) == cut_track(tracks[i], range) by {
        lemma_cut_track_twice(tracks[i], range);
    }
    assert(cut_tracks(cut_tracks(tracks, range), range) =~= cut_tracks(tracks, range));
}

/// A cut of a range without an end settles for every track.
pub proof fn lemma_open_cut_settles(track: Seq<TrackEvent>, start: u64)
    ensures
        settles(track, (start, None)),
{
}

/// A cut leaves a track one that holds valid events only.
pub proof fn lemma_cut_keeps_events_valid(track: Seq<TrackEvent>, range: (u64, Option<u64>))
    requires
        track_wf(track),
        range.1 matches Some(end) ==> range.0 <= end,
    ensures
        track_wf(cut_track(track, range)),
{
    lemma_cut_range(track, range);
}

/// Each track of a sequence after a cut.
pub open spec fn cut_tracks<'a>(tracks: Seq<Seq<TrackEvent<'a>>>, range: (u64, Option<u64>)) -> Seq<
    Seq<TrackEvent<'a>>,
> {
    Seq::new(tracks.len(), |i: int| cut_track(tracks[i], range))
}

/// The ranges of events that a cut removes from the first `n` tracks of a
/// sequence, in the order of the tracks.
pub open spec fn cut_ranges(tracks: Seq<Seq<TrackEvent>>, range: (u64, Option<u64>), n: int) -> Seq<
    EventRange,
>
    decreases n,
{
    if n <= 0 {
        Seq::empty()
    } else {
        match cut_range(tracks[n - 1], range) {
            Some((start, end)) => cut_ranges(tracks, range, n - 1).push(
                EventRange { track: (n - 1) as usize, start: start as usize, end: end as usize },
            ),
            None => cut_ranges(tracks, range, n - 1),
        }
    }
}

/// Removes the events within a range of pulses from each track, and tells
/// which events it has removed. A range that does not lie within the
/// sequence is refused, and the sequence stays as it is.
pub fn cut(smf: &mut Smf, range: (u64, Option<u64>)) -> (removed: Result<
    Vec<EventRange>,
    crate::time::PulseOutOfRange,
>)
    requires
        old(smf).header.timing.spec_ppqn() is Some,
        pulses_fit(old(smf)@.tracks),
        range.1 matches Some(end) ==> range.0 <= end,
    ensures
        final(smf).header == old(smf).header,
        match removed {
            Ok(removed) => {
                &&& range.0 <= end_pulse(old(smf)@.tracks)
                &&& spec_range_end(old(smf)@.tracks, range) <= end_pulse(old(smf)@.tracks)
                &&& final(smf)@.tracks == cut_tracks(old(smf)@.tracks, range)
                &&& removed@ == cut_ranges(old(smf)@.tracks, range, old(smf).tracks.len() as int)
            },
            Err(e) => {
                &&& final(smf)@ == old(smf)@
                &&& crate::time::is_end_display(old(smf)@, e.len)
                &&& e.pulse > end_pulse(old(smf)@.tracks)
                &&& e.pulse == if range.0 > end_pulse(old(smf)@.tracks) {
                    range.0 as nat
                } else {
                    spec_range_end(old(smf)@.tracks, range)
                }
            },
        },
{
    if let Err(e) = validate_pulse_range(smf, range) {
        return Err(e);
    }
    let mut tracks: Vec<Vec<TrackEvent>> = Vec::new();
    let mut removed: Vec<EventRange> = Vec::new();
    let mut track_i: usize = 0;
    while track_i < smf.tracks.len()
        invariant
            track_i <= smf.tracks.len(),
            *smf == *old(smf),
            range.1 matches Some(end) ==> range.0 <= end,
            tracks.len() == track_i,
            forall|i: int| 0 <= i < track_i ==> (#[trigger] tracks@[i])@ == cut_track(smf@.tracks[i], range),
            removed@ == cut_ranges(smf@.tracks, range, track_i as int),
        decreases smf.tracks.len() - track_i,
    {
        assert(smf@.tracks[track_i as int] == smf.tracks@[track_i as int]@);
        let (track, range_removed) = cut_one(smf.tracks[track_i].as_slice(), range);
        if let Some((start, end)) = range_removed {
            removed.push(EventRange { track: track_i, start, end });
        }
        tracks.push(track);
        track_i += 1;
    }
    smf.tracks = tracks;
    assert(smf@.tracks =~= cut_tracks(old(smf)@.tracks, range));
    Ok(removed)
}

/// A track with its events from the first event at or after a pulse on
/// repeated before its last event. A track that ends before the pulse stays
/// as it is.
pub open spec fn unfold_track(track: Seq<TrackEvent>, start: nat) -> Seq<TrackEvent> {
    match first_at_or_after(track, start) {
        Some(first) => track.drop_last() + track.subrange(first, track.len() - 1) + seq![
            track.last(),
        ],
        None => track,
    }
}

/// Repeated events leave a track one that holds valid events only.
pub proof fn lemma_unfold_keeps_events_valid(track: Seq<TrackEvent>, start: nat)
    requires
        track_wf(track),
    ensures
        track_wf(unfold_track(track, start)),
{
    lemma_first_at_or_after(track, start);
}

/// The events of a track that are repeated from a pulse on.
pub open spec fn unfold_range(track: Seq<TrackEvent>, start: nat) -> Option<EventRange> {
    match first_at_or_after(track, start) {
        Some(first) => Some(
            EventRange { track: 0, start: first as usize, end: (track.len() - 1) as usize },
        ),
        None => None,
    }
}

/// Repeats the events of the one track of a sequence from a pulse on before
/// the end-of-track event, and tells which events it has repeated. A
/// sequence of more or less than one track is refused, and so are a pulse
/// behind the end of the sequence and a track that does not end with an
/// end-of-track event; the sequence then stays as it is.
pub fn loop_unfold(smf: &mut Smf, start: u64) -> (repeated: Result<Option<EventRange>, Error>)
    requires
        old(smf).header.timing.spec_ppqn() is Some,
        pulses_fit(old(smf)@.tracks),
    ensures
        final(smf).header == old(smf).header,
        match repeated {
            Ok(repeated) => {
                &&& old(smf).tracks.len() == 1
                &&& start <= end_pulse(old(smf)@.tracks)
                &&& spec_ends_with_end_of_track_event(old(smf)@.tracks[0])
                &&& final(smf)@.tracks == seq![unfold_track(old(smf)@.tracks[0], start as nat)]
                &&& repeated == unfold_range(old(smf)@.tracks[0], start as nat)
            },
            Err(Error::TrackCount(tracks)) => {
                &&& final(smf)@ == old(smf)@
                &&& tracks == old(smf).tracks.len()
                &&& tracks != 1
            },
            Err(Error::PulseOutOfRange(e)) => {
                &&& final(smf)@ == old(smf)@
                &&& old(smf).tracks.len() == 1
                &&& start > end_pulse(old(smf)@.tracks)
                &&& e.pulse == start
                &&& crate::time::is_end_display(old(smf)@, e.len)
            },
            Err(Error::MissingEndOfTrack(track)) => {
                &&& final(smf)@ == old(smf)@
                &&& old(smf).tracks.len() == 1
                &&& start <= end_pulse(old(smf)@.tracks)
                &&& track == 0
                &&& !spec_ends_with_end_of_track_event(old(smf)@.tracks[0])
            },
            Err(_) => false,
        },
{
    if smf.tracks.len() != 1 {
        return Err(Error::TrackCount(smf.tracks.len()));
    }
    if let Err(e) = validate_pulse(smf, start) {
        return Err(Error::PulseOutOfRange(e));
    }
    assert(smf@.tracks[0] == smf.tracks@[0]@);
    let track = smf.tracks[0].as_slice();
    if !ends_with_end_of_track_event(track) {
        return Err(Error::MissingEndOfTrack(0));
    }
    let end = track.len() - 1;
    let (unfolded, repeated) = match find_event_at_or_after(start, track) {
        Some(first) => {
            proof {
                lemma_first_at_or_after(track@, start as nat);
            }
            let mut unfolded = copy_events(track, 0, end);
            let mut i = first;
            while i < end
                invariant
                    first <= i <= end < track.len(),
                    unfolded@ == track@.drop_last() + track@.subrange(first as int, i as int),
                decreases end - i,
            {
                unfolded.push(track[i]);
                assert(unfolded@ =~= track@.drop_last() + track@.subrange(first as int, i + 1));
                i += 1;
            }
            unfolded.push(track[end]);
            (unfolded, Some(EventRange { track: 0, start: first, end }))
        },
        None => (copy_events(track, 0, track.len()), None),
    };
    assert(unfolded@ =~= unfold_track(track@, start as nat));
    let mut tracks: Vec<Vec<TrackEvent>> = Vec::new();
    tracks.push(unfolded);
    smf.tracks = tracks;
    assert(smf@.tracks =~= seq![unfold_track(old(smf)@.tracks[0], start as nat)]);
    Ok(repeated)
}

/// A track without its notes at the pulses of a range, or without its notes
/// at every other pulse if `invert` is set. A note is an event that starts
/// one. The event behind a note that is left out takes the delta time of
/// the note on top of its own, as far as a delta time holds it. The track is
/// taken to start `carry` pulses behind pulse `pulse`.
pub open spec fn filter_track(
    track: Seq<TrackEvent>,
    pulses: (nat, nat),
    invert: bool,
    pulse: nat,
    carry: nat,
) -> Seq<TrackEvent>
    decreases track.len(),
{
    if track.len() == 0 {
        Seq::empty()
    } else {
        let pulse = pulse + track[0].delta as nat;
        let ev = with_delta(track[0], ((track[0].delta + carry) % (DELTA_LIMIT as int)) as u32);
        if ((pulses.0 <= pulse < pulses.1) != invert) && spec_note_on(ev) is Some {
            filter_track(track.drop_first(), pulses, invert, pulse, ev.delta as nat)
        } else {
            seq![ev] + filter_track(track.drop_first(), pulses, invert, pulse, 0)
        }
    }
}

/// A track without some of its notes holds valid events only.
pub proof fn lemma_filter_keeps_events_valid(
    track: Seq<TrackEvent>,
    pulses: (nat, nat),
    invert: bool,
    pulse: nat,
    carry: nat,
)
    requires
        track_wf(track),
    ensures
        track_wf(filter_track(track, pulses, invert, pulse, carry)),
    decreases track.len(),
{
    if track.len() > 0 {
        let pulse = pulse + track[0].delta as nat;
        let ev = with_delta(track[0], ((track[0].delta + carry) % (DELTA_LIMIT as int)) as u32);
        assert(ev.wf());
        assert(track_wf(track.drop_first())) by {
            assert forall|index: int| 0 <= index < track.drop_first().len() implies (
            #[trigger] track.drop_first()[index]).wf() by {
                assert(track.drop_first()[index] == track[index + 1]);
            }
        }
        lemma_filter_keeps_events_valid(track.drop_first(), pulses, invert, pulse, ev.delta as nat);
        lemma_filter_keeps_events_valid(track.drop_first(), pulses, invert, pulse, 0);
    }
}

/// Each track of a sequence without its notes at the pulses of a range.
pub open spec fn filter_tracks<'a>(
    tracks: Seq<Seq<TrackEvent<'a>>>,
    pulses: (nat, nat),
    invert: bool,
) -> Seq<Seq<TrackEvent<'a>>> {
    Seq::new(tracks.len(), |i: int| filter_track(tracks[i], pulses, invert, 0, 0))
}

/// A track without its notes at the pulses of a range.
fn filter_one<'a>(track: &[TrackEvent<'a>], pulses: &core::ops::Range<u64>, invert: bool) -> (filtered:
    Vec<TrackEvent<'a>>)
    requires
        total_delta(track@) <= u64::MAX,
    ensures
        filtered@ == filter_track(track@, (pulses.start as nat, pulses.end as nat), invert, 0, 0),
{
    let mut filtered: Vec<TrackEvent<'a>> = Vec::new();
    let mut pulse: u64 = 0;
    let mut delta_carry: u32 = 0;
    let mut i: usize = 0;
    let ghost bounds = (pulses.start as nat, pulses.end as nat);
    proof {
        assert(track@.skip(0) =~= track@);
        assert(filtered@ + filter_track(track@, bounds, invert, 0, 0) =~= filter_track(
            track@,
            bounds,
            invert,
            0,
            0,
        ));
    }
    while i < track.len()
        invariant
            i <= track.len(),
            total_delta(track@) <= u64::MAX,
            pulse == total_delta(track@.take(i as int)),
            bounds == (pulses.start as nat, pulses.end as nat),
            filter_track(track@, bounds, invert, 0, 0) == filtered@ + filter_track(
                track@.skip(i as int),
                bounds,
                invert,
                pulse as nat,
                delta_carry as nat,
            ),
        decreases track.len() - i,
    {
        proof {
            assert(track@.take(i + 1).drop_last() =~= track@.take(i as int));
            lemma_total_delta_grows(track@, i + 1);
            assert(track@.skip(i as int).drop_first() =~= track@.skip(i + 1));
            assert(track@.skip(i as int)[0] == track@[i as int]);
        }
        let mut ev = track[i];
        pulse = pulse + ev.delta as u64;
        ev.delta = ((ev.delta as u64 + delta_carry as u64) % (DELTA_LIMIT as u64)) as u32;
        delta_carry = 0;
        let in_range = pulses.start <= pulse && pulse < pulses.end;
        if (in_range != invert) && note_on(&ev).is_some() {
            delta_carry = ev.delta;
        } else {
            let ghost before = filtered@;
            filtered.push(ev);
            proof {
                let rest = filter_track(track@.skip(i + 1), bounds, invert, pulse as nat, 0);
                assert(filtered@ + rest =~= before + (seq![ev] + rest));
            }
        }
        i += 1;
    }
    assert(track@.skip(i as int) =~= Seq::<TrackEvent>::empty());
    assert(filtered@ + Seq::<TrackEvent>::empty() =~= filtered@);
    filtered
}

/// A sequence without its notes at the pulses of a range, or without its
/// notes at every other pulse if `invert` is set. A range that does not lie
/// within the sequence is refused.
pub fn filter_note<'a>(smf: &Smf<'a>, range: (u64, Option<u64>), invert: bool) -> (filtered: Result<
    Smf<'a>,
    crate::time::PulseOutOfRange,
>)
    requires
        smf.header.timing.spec_ppqn() is Some,
        pulses_fit(smf@.tracks),
    ensures
        match filtered {
            Ok(filtered) => {
                &&& range.0 <= end_pulse(smf@.tracks)
                &&& spec_range_end(smf@.tracks, range) <= end_pulse(smf@.tracks)
                &&& filtered.header == smf.header
                &&& filtered@.tracks == filter_tracks(
                    smf@.tracks,
                    (range.0 as nat, spec_range_end(smf@.tracks, range)),
                    invert,
                )
            },
            Err(e) => {
                &&& crate::time::is_end_display(smf@, e.len)
                &&& e.pulse > end_pulse(smf@.tracks)
                &&& e.pulse == if range.0 > end_pulse(smf@.tracks) {
                    range.0 as nat
                } else {
                    spec_range_end(smf@.tracks, range)
                }
            },
        },
{
    let pulses = match validate_pulse_range(smf, range) {
        Ok(pulses) => pulses,
        Err(e) => {
            return Err(e);
        },
    };
    let mut tracks: Vec<Vec<TrackEvent<'a>>> = Vec::new();
    let mut track_i: usize = 0;
    while track_i < smf.tracks.len()
        invariant
            track_i <= smf.tracks.len(),
            pulses_fit(smf@.tracks),
            tracks.len() == track_i,
            forall|i: int|
                0 <= i < track_i ==> (#[trigger] tracks@[i])@ == filter_track(
                    smf@.tracks[i],
                    (pulses.start as nat, pulses.end as nat),
                    invert,
                    0,
                    0,
                ),
        decreases smf.tracks.len() - track_i,
    {
        assert(smf@.tracks[track_i as int] == smf.tracks@[track_i as int]@);
        tracks.push(filter_one(smf.tracks[track_i].as_slice(), &pulses, invert));
        track_i += 1;
    }
    let filtered = Smf { header: smf.header, tracks };
    assert(filtered@.tracks =~= filter_tracks(
        smf@.tracks,
        (pulses.start as nat, pulses.end as nat),
        invert,
    ));
    Ok(filtered)
}

} // verus!
