//! Sequences of tracks, and conversions between the various SMF formats.

use vstd::prelude::*;
use crate::event::{track_wf, Fps, MetaMessage, TrackEvent, TrackEventKind, DELTA_LIMIT};
use crate::manip::{copy_events, end_of_track, is_end_of_track, pulse_at, with_delta};
use crate::time::{lemma_total_delta_grows, pulses_fit, total_delta};

verus! {

/// How the tracks of a sequence relate to each other.
#[derive(Clone, Copy, Debug, PartialEq, Eq, Hash, Structural)]
pub enum Format {
    SingleTrack,
    Parallel,
    Sequential,
}

/// What a pulse means: a fraction of a quarter note, or of a second.
#[derive(Clone, Copy, Debug, PartialEq, Eq, Hash, Structural)]
pub enum Timing {
    /// Pulses per quarter note, from 1 to 32767.
    Metrical(u16),
    /// Frames per second and pulses per frame.
    Timecode(Fps, u8),
}

impl Timing {
    /// The pulses per quarter note of a metrical timing.
    pub open spec fn spec_ppqn(self) -> Option<u16> {
        match self {
            Timing::Metrical(ppqn) if 1 <= ppqn <= 0x7FFF => Some(ppqn),
            _ => None,
        }
    }

    /// The pulses per quarter note, where the timing is metrical and has at
    /// least one.
    #[verifier::when_used_as_spec(spec_ppqn)]
    pub fn ppqn(self) -> (ppqn: Option<u16>)
        ensures
            ppqn == self.spec_ppqn(),
    {
        match self {
            Timing::Metrical(ppqn) => if 1 <= ppqn && ppqn <= 0x7FFF {
                Some(ppqn)
            } else {
                None
            },
            _ => None,
        }
    }
}

/// What a sequence says of itself.
#[derive(Clone, Copy, Debug, PartialEq, Eq, Hash, Structural)]
pub struct Header {
    pub format: Format,
    pub timing: Timing,
}

/// A sequence: a header and any number of tracks.
#[derive(Clone, Debug, PartialEq, Eq)]
pub struct Smf<'a> {
    pub header: Header,
    pub tracks: Vec<Vec<TrackEvent<'a>>>,
}

/// A sequence as a mathematical value.
pub struct SmfModel<'a> {
    pub header: Header,
    pub tracks: Seq<Seq<TrackEvent<'a>>>,
}

impl<'a> View for Smf<'a> {
    type V = SmfModel<'a>;

    open spec fn view(&self) -> SmfModel<'a> {
        SmfModel { header: self.header, tracks: tracks_view(self.tracks@) }
    }
}

/// The events of each of some tracks.
pub open spec fn tracks_view<'a>(tracks: Seq<Vec<TrackEvent<'a>>>) -> Seq<Seq<TrackEvent<'a>>> {
    Seq::new(tracks.len(), |i: int| tracks[i]@)
}

/// How far the merge of some tracks has come: of each track, the number of
/// its events that are merged.
pub type Positions = Seq<int>;

/// Whether a track has events that are not merged yet.
pub open spec fn is_active(tracks: Seq<Seq<TrackEvent>>, positions: Positions, track: int) -> bool {
    0 <= track < tracks.len() && 0 <= positions[track] < tracks[track].len()
}

/// The pulse of the next event of a track that is not merged yet.
pub open spec fn head_pulse(tracks: Seq<Seq<TrackEvent>>, positions: Positions, track: int) -> nat {
    pulse_at(tracks[track], positions[track])
}

/// The track among the first `n` whose next event is merged next: the one
/// whose next event has the earliest pulse, and of several such tracks the
/// first one.
pub open spec fn next_track(tracks: Seq<Seq<TrackEvent>>, positions: Positions, n: int) -> Option<int>
    decreases n,
{
    if n <= 0 {
        None
    } else {
        match next_track(tracks, positions, n - 1) {
            Some(before) => if is_active(tracks, positions, n - 1) && head_pulse(
                tracks,
                positions,
                n - 1,
            ) < head_pulse(tracks, positions, before) {
                Some(n - 1)
            } else {
                Some(before)
            },
            None => if is_active(tracks, positions, n - 1) {
                Some(n - 1)
            } else {
                None
            },
        }
    }
}

/// The number of events of the first `n` tracks that are not merged yet.
pub open spec fn remaining(tracks: Seq<Seq<TrackEvent>>, positions: Positions, n: int) -> nat
    decreases n,
{
    if n <= 0 {
        0
    } else {
        remaining(tracks, positions, n - 1) + (if is_active(tracks, positions, n - 1) {
            (tracks[n - 1].len() - positions[n - 1]) as nat
        } else {
            0
        })
    }
}

/// The track that is merged next is active, and no active track has its
/// next event before it, nor an earlier track at the same pulse.
pub proof fn lemma_next_track(tracks: Seq<Seq<TrackEvent>>, positions: Positions, n: int)
    requires
        0 <= n <= tracks.len(),
    ensures
        match next_track(tracks, positions, n) {
            Some(next) => {
                &&& 0 <= next < n
                &&& is_active(tracks, positions, next)
                &&& forall|other: int|
                    0 <= other < n && is_active(tracks, positions, other) ==> head_pulse(
                        tracks,
                        positions,
                        next,
                    ) <= #[trigger] head_pulse(tracks, positions, other)
                &&& forall|other: int|
                    0 <= other < next && is_active(tracks, positions, other) ==> head_pulse(
                        tracks,
                        positions,
                        next,
                    ) < #[trigger] head_pulse(tracks, positions, other)
            },
            None => forall|other: int| 0 <= other < n ==> !is_active(tracks, positions, other),
        },
    decreases n,
{
    if n > 0 {
        lemma_next_track(tracks, positions, n - 1);
    }
}

/// One more merged event of an active track leaves one event less.
pub proof fn lemma_remaining_decreases(
    tracks: Seq<Seq<TrackEvent>>,
    positions: Positions,
    track: int,
    n: int,
)
    requires
        is_active(tracks, positions, track),
        0 <= n <= tracks.len(),
        positions.len() == tracks.len(),
    ensures
        remaining(tracks, positions.update(track, positions[track] + 1), n) == remaining(
            tracks,
            positions,
            n,
        ) - (if track < n {
            1int
        } else {
            0int
        }),
    decreases n,
{
    if n > 0 {
        lemma_remaining_decreases(tracks, positions, track, n - 1);
    }
}

/// The delta time between two pulses, as far as a delta time holds it.
pub open spec fn delta_between(from: nat, to: nat) -> u32 {
    ((to - from) % (DELTA_LIMIT as int)) as u32
}

/// The events of some tracks in one track, from a point of the merge on.
/// The next event is that of the track whose next event has the earliest
/// pulse, and of several such tracks the first one. It takes as its delta
/// time the pulses since `pulse`, the pulse of the last event that was
/// merged from a track with more events behind it. End-of-track events are
/// left out; one end-of-track event ends the whole, with the delta time that
/// the last event of all would have got, or `delta_last` where no event is
/// left.
pub open spec fn merge<'a>(
    tracks: Seq<Seq<TrackEvent<'a>>>,
    positions: Positions,
    pulse: nat,
    delta_last: u32,
) -> Seq<TrackEvent<'a>>
    decreases remaining(tracks, positions, tracks.len() as int),
    when positions.len() == tracks.len()
    via merge_decreases
{
    match next_track(tracks, positions, tracks.len() as int) {
        None => seq![end_of_track(delta_last)],
        Some(track) => {
            let ev = tracks[track][positions[track]];
            let at = head_pulse(tracks, positions, track);
            let delta = delta_between(pulse, at);
            let rest = merge(
                tracks,
                positions.update(track, positions[track] + 1),
                if positions[track] + 1 < tracks[track].len() {
                    at
                } else {
                    pulse
                },
                delta,
            );
            if is_end_of_track(ev) {
                rest
            } else {
                seq![with_delta(ev, delta)] + rest
            }
        },
    }
}

#[via_fn]
proof fn merge_decreases<'a>(
    tracks: Seq<Seq<TrackEvent<'a>>>,
    positions: Positions,
    pulse: nat,
    delta_last: u32,
) {
    lemma_next_track(tracks, positions, tracks.len() as int);
    if let Some(track) = next_track(tracks, positions, tracks.len() as int) {
        lemma_remaining_decreases(tracks, positions, track, tracks.len() as int);
    }
}

/// A merge of tracks of valid events holds valid events only.
pub proof fn lemma_merge_keeps_events_valid(
    tracks: Seq<Seq<TrackEvent>>,
    positions: Positions,
    pulse: nat,
    delta_last: u32,
)
    requires
        positions.len() == tracks.len(),
        forall|track: int| 0 <= track < tracks.len() ==> track_wf(#[trigger] tracks[track]),
        delta_last < DELTA_LIMIT,
    ensures
        track_wf(merge(tracks, positions, pulse, delta_last)),
    decreases remaining(tracks, positions, tracks.len() as int),
{
    lemma_next_track(tracks, positions, tracks.len() as int);
    if let Some(track) = next_track(tracks, positions, tracks.len() as int) {
        lemma_remaining_decreases(tracks, positions, track, tracks.len() as int);
        let at = head_pulse(tracks, positions, track);
        let delta = delta_between(pulse, at);
        let ev = tracks[track][positions[track]];
        assert(ev.wf());
        lemma_merge_keeps_events_valid(
            tracks,
            positions.update(track, positions[track] + 1),
            if positions[track] + 1 < tracks[track].len() {
                at
            } else {
                pulse
            },
            delta,
        );
    }
}

/// A sequence as one track: a sequence of one track or none as it is, and
/// else the merge of its tracks, from their first events on.
pub open spec fn flattened<'a>(smf: SmfModel<'a>) -> SmfModel<'a> {
    if smf.tracks.len() <= 1 {
        smf
    } else {
        SmfModel {
            header: Header { format: Format::SingleTrack, timing: smf.header.timing },
            tracks: seq![merge(smf.tracks, Seq::new(smf.tracks.len(), |i: int| 0int), 0, 0)],
        }
    }
}

/// The places from which the events of a merge come, in the order of the
/// merge: for each event but the end-of-track event at the end, its track
/// and its number in that track.
pub open spec fn merge_sources(tracks: Seq<Seq<TrackEvent>>, positions: Positions) -> Seq<(int, int)>
    decreases remaining(tracks, positions, tracks.len() as int),
    when positions.len() == tracks.len()
    via merge_sources_decreases
{
    match next_track(tracks, positions, tracks.len() as int) {
        None => Seq::empty(),
        Some(track) => {
            let rest = merge_sources(tracks, positions.update(track, positions[track] + 1));
            if is_end_of_track(tracks[track][positions[track]]) {
                rest
            } else {
                seq![(track, positions[track])] + rest
            }
        },
    }
}

#[via_fn]
proof fn merge_sources_decreases(tracks: Seq<Seq<TrackEvent>>, positions: Positions) {
    lemma_next_track(tracks, positions, tracks.len() as int);
    if let Some(track) = next_track(tracks, positions, tracks.len() as int) {
        lemma_remaining_decreases(tracks, positions, track, tracks.len() as int);
    }
}

/// A track is closed: it is empty, or it ends with an end-of-track event and
/// has no other, and each of its delta times is one that an event can hold.
pub open spec fn is_closed(track: Seq<TrackEvent>) -> bool {
    forall|index: int|
        0 <= index < track.len() ==> {
            &&& is_end_of_track(#[trigger] track[index]) <==> index == track.len() - 1
            &&& track[index].delta < DELTA_LIMIT
        }
}

/// Event `index` of a merge is the event at place `source` of the tracks,
/// and comes at the same pulse, where the merge starts `pulse` pulses into
/// the sequence.
pub open spec fn comes_from(
    tracks: Seq<Seq<TrackEvent>>,
    merged: Seq<TrackEvent>,
    pulse: nat,
    index: int,
    source: (int, int),
) -> bool {
    &&& 0 <= source.0 < tracks.len()
    &&& 0 <= source.1 < tracks[source.0].len()
    &&& merged[index].kind == tracks[source.0][source.1].kind
    &&& pulse + pulse_at(merged, index) == pulse_at(tracks[source.0], source.1)
}

/// The pulses of the events behind the first event of a track.
proof fn lemma_pulse_at_behind(first: TrackEvent, rest: Seq<TrackEvent>, index: int)
    requires
        0 <= index < rest.len(),
    ensures
        pulse_at(seq![first] + rest, index + 1) == first.delta + pulse_at(rest, index),
        pulse_at(seq![first] + rest, 0) == first.delta,
    decreases index,
{
    let all = seq![first] + rest;
    assert(all.take(1).drop_last() =~= Seq::<TrackEvent>::empty());
    assert(all.take(1).last() == first);
    assert(total_delta(all.take(1).drop_last()) == 0);
    assert(pulse_at(all, 0) == first.delta);
    assert(all.take(index + 2).drop_last() =~= all.take(index + 1));
    assert(all.take(index + 2).last() == rest[index]);
    assert(rest.take(index + 1).drop_last() =~= rest.take(index));
    assert(rest.take(index + 1).last() == rest[index]);
    if index > 0 {
        lemma_pulse_at_behind(first, rest, index - 1);
    } else {
        assert(rest.take(0) =~= Seq::<TrackEvent>::empty());
        assert(total_delta(rest.take(0)) == 0);
    }
}

/// The pulse of an event is the pulse of the event before it plus its delta
/// time.
proof fn lemma_pulse_at_next(track: Seq<TrackEvent>, index: int)
    requires
        0 <= index < track.len(),
    ensures
        pulse_at(track, index) == (if index > 0 {
            pulse_at(track, index - 1)
        } else {
            0
        }) + track[index].delta,
{
    assert(track.take(index + 1).drop_last() =~= track.take(index));
    if index == 0 {
        assert(total_delta(track.take(0)) == 0);
    }
}

/// The state of a merge of closed tracks: each track is merged up to some
/// event, and `pulse` is neither before the pulse of an event that is merged
/// from a track with more events, nor behind the pulse of an event that is
/// not merged yet.
pub open spec fn merge_is_under_way(
    tracks: Seq<Seq<TrackEvent>>,
    positions: Positions,
    pulse: nat,
) -> bool {
    &&& positions.len() == tracks.len()
    &&& forall|track: int| 0 <= track < tracks.len() ==> is_closed(#[trigger] tracks[track])
    &&& forall|track: int|
        0 <= track < tracks.len() ==> 0 <= #[trigger] positions[track] <= tracks[track].len()
    &&& forall|track: int|
        #![trigger positions[track]]
        is_active(tracks, positions, track) ==> {
            &&& pulse <= head_pulse(tracks, positions, track)
            &&& positions[track] > 0 ==> pulse_at(tracks[track], positions[track] - 1) <= pulse
        }
}

/// From any point of a merge of closed tracks on, each event of the merge
/// but the end-of-track event at the end comes from its place in the tracks
/// and comes at the same pulse as there.
pub proof fn lemma_merge_keeps_pulses(
    tracks: Seq<Seq<TrackEvent>>,
    positions: Positions,
    pulse: nat,
    delta_last: u32,
)
    requires
        merge_is_under_way(tracks, positions, pulse),
    ensures
        merge_sources(tracks, positions).len() + 1 == merge(tracks, positions, pulse, delta_last).len(),
        forall|index: int|
            #![trigger merge_sources(tracks, positions)[index]]
            0 <= index < merge_sources(tracks, positions).len() ==> comes_from(
                tracks,
                merge(tracks, positions, pulse, delta_last),
                pulse,
                index,
                merge_sources(tracks, positions)[index],
            ),
    decreases remaining(tracks, positions, tracks.len() as int),
{
    lemma_next_track(tracks, positions, tracks.len() as int);
    match next_track(tracks, positions, tracks.len() as int) {
        None => {},
        Some(track) => {
            lemma_remaining_decreases(tracks, positions, track, tracks.len() as int);
            let position = positions[track];
            let ev = tracks[track][position];
            let at = head_pulse(tracks, positions, track);
            let delta = delta_between(pulse, at);
            let moved = positions.update(track, position + 1);
            let pulse_next = if position + 1 < tracks[track].len() {
                at
            } else {
                pulse
            };
            lemma_pulse_at_next(tracks[track], position);
            assert(delta == at - pulse);
            assert forall|other: int|
                #![trigger moved[other]]
                is_active(tracks, moved, other) implies {
                &&& pulse_next <= head_pulse(tracks, moved, other)
                &&& moved[other] > 0 ==> pulse_at(tracks[other], moved[other] - 1) <= pulse_next
            } by {
                if other == track {
                    lemma_pulse_at_next(tracks[track], position + 1);
                } else {
                    assert(is_active(tracks, positions, other));
                    assert(positions[other] == moved[other]);
                }
            }
            assert(merge_is_under_way(tracks, moved, pulse_next));
            lemma_merge_keeps_pulses(tracks, moved, pulse_next, delta);
            let rest = merge(tracks, moved, pulse_next, delta);
            let rest_sources = merge_sources(tracks, moved);
            let merged = merge(tracks, positions, pulse, delta_last);
            let sources = merge_sources(tracks, positions);
            if is_end_of_track(ev) {
                assert(position == tracks[track].len() - 1);
            } else {
                assert(position + 1 < tracks[track].len());
                let first = with_delta(ev, delta);
                assert(merged == seq![first] + rest);
                assert(sources == seq![(track, position)] + rest_sources);
                assert forall|index: int|
                    #![trigger sources[index]]
                    0 <= index < sources.len() implies comes_from(
                    tracks,
                    merged,
                    pulse,
                    index,
                    sources[index],
                ) by {
                    if index == 0 {
                        lemma_pulse_at_behind(first, rest, 0);
                    } else {
                        lemma_pulse_at_behind(first, rest, index - 1);
                        assert(sources[index] == rest_sources[index - 1]);
                        assert(comes_from(tracks, rest, pulse_next, index - 1, rest_sources[index - 1]));
                        assert(merged[index] == rest[index - 1]);
                    }
                }
            }
        },
    }
}

/// From any point of a merge on, each event that is not merged yet and is
/// no end-of-track event has its place in the merge.
pub proof fn lemma_merge_takes_every_event(
    tracks: Seq<Seq<TrackEvent>>,
    positions: Positions,
    source: (int, int),
)
    requires
        positions.len() == tracks.len(),
        0 <= source.0 < tracks.len(),
        0 <= positions[source.0] <= source.1 < tracks[source.0].len(),
        !is_end_of_track(tracks[source.0][source.1]),
    ensures
        merge_sources(tracks, positions).contains(source),
    decreases remaining(tracks, positions, tracks.len() as int),
{
    lemma_next_track(tracks, positions, tracks.len() as int);
    assert(is_active(tracks, positions, source.0));
    match next_track(tracks, positions, tracks.len() as int) {
        None => {},
        Some(track) => {
            lemma_remaining_decreases(tracks, positions, track, tracks.len() as int);
            let moved = positions.update(track, positions[track] + 1);
            let rest = merge_sources(tracks, moved);
            let sources = merge_sources(tracks, positions);
            if source == (track, positions[track]) {
                assert(sources == seq![source] + rest);
                assert(sources[0] == source);
            } else {
                lemma_merge_takes_every_event(tracks, moved, source);
                let index = choose|index: int| 0 <= index < rest.len() && rest[index] == source;
                if is_end_of_track(tracks[track][positions[track]]) {
                    assert(sources[index] == source);
                } else {
                    assert(sources == seq![(track, positions[track])] + rest);
                    assert(sources[index + 1] == source);
                }
            }
        },
    }
}

/// A sequence of closed tracks keeps the pulse of each of its events when
/// it is flattened: each event of the one track but the end-of-track event
/// at its end comes from its place in the tracks of the sequence, and comes
/// at the same pulse as there.
pub proof fn lemma_flattened_keeps_pulses(smf: SmfModel)
    requires
        smf.tracks.len() > 1,
        forall|track: int| 0 <= track < smf.tracks.len() ==> is_closed(#[trigger] smf.tracks[track]),
    ensures
        ({
            let flat = flattened(smf).tracks[0];
            let sources = merge_sources(smf.tracks, Seq::new(smf.tracks.len(), |i: int| 0int));
            &&& sources.len() + 1 == flat.len()
            &&& forall|index: int|
                #![trigger sources[index]]
                0 <= index < sources.len() ==> comes_from(smf.tracks, flat, 0, index, sources[index])
        }),
{
    let start = Seq::new(smf.tracks.len(), |i: int| 0int);
    assert(merge_is_under_way(smf.tracks, start, 0));
    lemma_merge_keeps_pulses(smf.tracks, start, 0, 0);
}

/// Each event of a sequence that is no end-of-track event has its place in
/// the one track of the flattened sequence.
pub proof fn lemma_flattened_takes_every_event(smf: SmfModel, source: (int, int))
    requires
        smf.tracks.len() > 1,
        0 <= source.0 < smf.tracks.len(),
        0 <= source.1 < smf.tracks[source.0].len(),
        !is_end_of_track(smf.tracks[source.0][source.1]),
    ensures
        merge_sources(smf.tracks, Seq::new(smf.tracks.len(), |i: int| 0int)).contains(source),
{
    lemma_merge_takes_every_event(smf.tracks, Seq::new(smf.tracks.len(), |i: int| 0int), source);
}

/// The positions that a list of machine numbers stands for.
pub open spec fn positions_of(positions: Seq<usize>) -> Positions {
    Seq::new(positions.len(), |i: int| positions[i] as int)
}

/// `heads` holds, for each track that is not wholly merged, the pulse of
/// its next event.
spec fn heads_match(tracks: Seq<Seq<TrackEvent>>, positions: Positions, heads: Seq<u64>) -> bool {
    &&& heads.len() == tracks.len()
    &&& positions.len() == tracks.len()
    &&& forall|track: int|
        #![trigger heads[track]]
        is_active(tracks, positions, track) ==> heads[track] == head_pulse(tracks, positions, track)
}

/// The track whose next event is merged next.
fn next_of(tracks: &Vec<Vec<TrackEvent>>, positions: &Vec<usize>, heads: &Vec<u64>) -> (next: Option<
    usize,
>)
    requires
        heads_match(tracks_view(tracks@), positions_of(positions@), heads@),
    ensures
        match next {
            Some(next) => next_track(
                tracks_view(tracks@),
                positions_of(positions@),
                tracks.len() as int,
            ) == Some(next as int),
            None => next_track(tracks_view(tracks@), positions_of(positions@), tracks.len() as int)
                is None,
        },
{
    let mut next: Option<usize> = None;
    let mut track: usize = 0;
    while track < tracks.len()
        invariant
            track <= tracks.len(),
            heads_match(tracks_view(tracks@), positions_of(positions@), heads@),
            match next {
                Some(next) => next < track && next_track(
                    tracks_view(tracks@),
                    positions_of(positions@),
                    track as int,
                ) == Some(next as int),
                None => next_track(tracks_view(tracks@), positions_of(positions@), track as int)
                    is None,
            },
        decreases tracks.len() - track,
    {
        proof {
            lemma_next_track(tracks_view(tracks@), positions_of(positions@), track as int);
            assert(tracks_view(tracks@)[track as int] == tracks@[track as int]@);
        }
        if positions[track] < tracks[track].len() {
            match next {
                Some(before) => {
                    if heads[track] < heads[before] {
                        next = Some(track);
                    }
                },
                None => {
                    next = Some(track);
                },
            }
        }
        track += 1;
    }
    next
}

/// Flattens a sequence into a single track.
pub fn smf0<'a>(smf: &Smf<'a>) -> (flat: Smf<'a>)
    requires
        pulses_fit(smf@.tracks),
    ensures
        flat@ == flattened(smf@),
{
    let count = smf.tracks.len();
    if count <= 1 {
        let mut tracks: Vec<Vec<TrackEvent<'a>>> = Vec::new();
        if count == 1 {
            tracks.push(copy_events(smf.tracks[0].as_slice(), 0, smf.tracks[0].len()));
            assert(tracks@[0]@ =~= smf.tracks@[0]@);
        }
        let flat = Smf { header: smf.header, tracks };
        assert(flat@.tracks =~= smf@.tracks);
        return flat;
    }
    let ghost tracks = smf@.tracks;
    let mut positions: Vec<usize> = Vec::new();
    let mut heads: Vec<u64> = Vec::new();
    let mut i: usize = 0;
    while i < count
        invariant
            i <= count,
            count == smf.tracks.len(),
            tracks == smf@.tracks,
            positions.len() == i,
            heads.len() == i,
            forall|track: int| 0 <= track < i ==> #[trigger] positions[track] == 0,
            forall|track: int|
                #![trigger heads[track]]
                0 <= track < i && tracks[track].len() > 0 ==> heads[track] == pulse_at(
                    tracks[track],
                    0,
                ),
        decreases count - i,
    {
        assert(tracks[i as int] == smf.tracks@[i as int]@);
        positions.push(0);
        if smf.tracks[i].len() > 0 {
            proof {
                assert(tracks[i as int].take(1).drop_last() =~= Seq::<TrackEvent>::empty());
                assert(total_delta(tracks[i as int].take(1).drop_last()) == 0);
            }
            heads.push(smf.tracks[i][0].delta as u64);
        } else {
            heads.push(0);
        }
        i += 1;
    }
    assert(positions_of(positions@) =~= Seq::new(tracks.len(), |i: int| 0int));
    let mut merged: Vec<TrackEvent<'a>> = Vec::new();
    let mut pulse: u64 = 0;
    let mut delta_last: u32 = 0;
    let mut next = next_of(&smf.tracks, &positions, &heads);
    assert(merged@ + merge(tracks, positions_of(positions@), 0, 0) =~= merge(
        tracks,
        positions_of(positions@),
        0,
        0,
    ));
    while next.is_some()
        invariant
            count == smf.tracks.len(),
            tracks == smf@.tracks,
            pulses_fit(tracks),
            heads_match(tracks, positions_of(positions@), heads@),
            forall|track: int|
                #![trigger heads[track]]
                is_active(tracks, positions_of(positions@), track) ==> pulse <= heads[track],
            match next {
                Some(next) => next_track(tracks, positions_of(positions@), tracks.len() as int)
                    == Some(next as int),
                None => next_track(tracks, positions_of(positions@), tracks.len() as int) is None,
            },
            merge(tracks, Seq::new(tracks.len(), |i: int| 0int), 0, 0) == merged@ + merge(
                tracks,
                positions_of(positions@),
                pulse as nat,
                delta_last,
            ),
        decreases remaining(tracks, positions_of(positions@), tracks.len() as int),
    {
        let track = next.unwrap();
        let ghost before = positions_of(positions@);
        proof {
            lemma_next_track(tracks, before, tracks.len() as int);
            lemma_remaining_decreases(tracks, before, track as int, tracks.len() as int);
            assert(tracks[track as int] == smf.tracks@[track as int]@);
        }
        let position = positions[track];
        assert(is_active(tracks, before, track as int));
        assert(position < smf.tracks[track as int].len());
        let at = heads[track];
        let ev = smf.tracks[track][position];
        delta_last = ((at - pulse) % (DELTA_LIMIT as u64)) as u32;
        let ghost merged_before = merged@;
        match ev.kind {
            TrackEventKind::Meta(MetaMessage::EndOfTrack) => {},
            _ => {
                merged.push(TrackEvent { delta: delta_last, kind: ev.kind });
            },
        }
        positions[track] = position + 1;
        let ghost after = positions_of(positions@);
        assert(after =~= before.update(track as int, before[track as int] + 1));
        let ghost pulse_before = pulse;
        if position + 1 < smf.tracks[track].len() {
            proof {
                let events = tracks[track as int];
                assert(events.take(position + 2).drop_last() =~= events.take(position + 1));
                lemma_total_delta_grows(events, position + 2);
            }
            pulse = at;
            heads[track] = at + smf.tracks[track][position + 1].delta as u64;
        }
        proof {
            assert forall|other: int|
                #![trigger heads[other]]
                is_active(tracks, after, other) implies heads[other] == head_pulse(
                tracks,
                after,
                other,
            ) && pulse <= heads[other] by {
                if other != track {
                    assert(is_active(tracks, before, other));
                    assert(head_pulse(tracks, before, other) == head_pulse(tracks, after, other));
                }
            }
            let rest = merge(tracks, after, pulse as nat, delta_last);
            assert(delta_last == delta_between(pulse_before as nat, at as nat));
            assert(merged@ + rest =~= merged_before + (if is_end_of_track(ev) {
                rest
            } else {
                seq![with_delta(ev, delta_last)] + rest
            }));
        }
        next = next_of(&smf.tracks, &positions, &heads);
    }
    proof {
        assert(positions_of(positions@).len() == tracks.len());
        assert(merge(tracks, positions_of(positions@), pulse as nat, delta_last) == seq![
            end_of_track(delta_last),
        ]);
    }
    let ghost merged_before = merged@;
    merged.push(TrackEvent { delta: delta_last, kind: TrackEventKind::Meta(MetaMessage::EndOfTrack) });
    assert(merged@ =~= merged_before + seq![end_of_track(delta_last)]);
    let mut flat_tracks: Vec<Vec<TrackEvent<'a>>> = Vec::new();
    flat_tracks.push(merged);
    let flat = Smf {
        header: Header { format: Format::SingleTrack, timing: smf.header.timing },
        tracks: flat_tracks,
    };
    assert(flat@.tracks =~= flattened(smf@).tracks);
    flat
}

} // verus!
