use mly::event::{MetaMessage, MidiMessage, TrackEvent, TrackEventKind};
use mly::smf::{smf0, Format, Header, Smf, Timing};

fn on(delta: u32, key: u8) -> TrackEvent<'static> {
    TrackEvent {
        delta,
        kind: TrackEventKind::Midi { channel: 0, message: MidiMessage::NoteOn { key, vel: 100 } },
    }
}

fn tempo(delta: u32) -> TrackEvent<'static> {
    TrackEvent { delta, kind: TrackEventKind::Meta(MetaMessage::Tempo(500_000)) }
}

fn end_of_track(delta: u32) -> TrackEvent<'static> {
    TrackEvent { delta, kind: TrackEventKind::Meta(MetaMessage::EndOfTrack) }
}

fn smf(tracks: Vec<Vec<TrackEvent<'static>>>) -> Smf<'static> {
    Smf { header: Header { format: Format::Parallel, timing: Timing::Metrical(480) }, tracks }
}

/// The pulse of each event of a track.
fn pulses(track: &[TrackEvent<'static>]) -> Vec<(u64, TrackEventKind<'static>)> {
    let mut pulse = 0;
    track
        .iter()
        .map(|ev| {
            pulse += ev.delta as u64;
            (pulse, ev.kind)
        })
        .collect()
}

#[test]
fn three_tracks_in_one() {
    let sequence = smf(vec![
        vec![tempo(0), end_of_track(0)],
        vec![on(100, 1), on(100, 2), end_of_track(0)],
        vec![on(150, 3), on(100, 4), end_of_track(50)],
    ]);
    let flat = smf0(&sequence);
    assert_eq!(flat.header, Header { format: Format::SingleTrack, timing: Timing::Metrical(480) });
    assert_eq!(
        flat.tracks,
        vec![vec![tempo(0), on(100, 1), on(50, 3), on(50, 2), on(50, 4), end_of_track(50)]]
    );
}

#[test]
fn events_at_the_same_pulse_come_in_the_order_of_their_tracks() {
    let sequence = smf(vec![
        vec![on(100, 1), on(0, 2), end_of_track(0)],
        vec![],
        vec![on(100, 3), end_of_track(0)],
        vec![on(50, 4), on(50, 5), end_of_track(0)],
    ]);
    let flat = smf0(&sequence);
    assert_eq!(
        flat.tracks,
        vec![vec![on(50, 4), on(50, 1), on(0, 2), on(0, 3), on(0, 5), end_of_track(0)]]
    );
}

#[test]
fn a_sequence_of_one_track_stays_as_it_is() {
    let sequence = smf(vec![vec![on(100, 1), end_of_track(0), on(5, 2)]]);
    assert_eq!(smf0(&sequence), sequence);
    let sequence = smf(vec![]);
    assert_eq!(smf0(&sequence), sequence);
}

#[test]
fn empty_tracks_give_an_end_of_track() {
    let flat = smf0(&smf(vec![vec![], vec![]]));
    assert_eq!(flat.tracks, vec![vec![end_of_track(0)]]);
    assert_eq!(flat.header.format, Format::SingleTrack);
}

#[test]
fn each_event_keeps_its_pulse() {
    let tracks = vec![
        vec![tempo(0), on(7, 1), on(480, 2), end_of_track(1000)],
        vec![on(480, 3), on(7, 4), on(0, 5), end_of_track(0)],
        vec![on(486, 6), on(1, 7), on(1, 8), end_of_track(3)],
    ];
    let flat = smf0(&smf(tracks.clone()));
    let mut expected: Vec<(u64, TrackEventKind<'static>)> = tracks
        .iter()
        .flat_map(|track| pulses(track))
        .filter(|(_, kind)| *kind != TrackEventKind::Meta(MetaMessage::EndOfTrack))
        .collect();
    expected.sort_by_key(|(pulse, _)| *pulse);
    let mut merged = pulses(&flat.tracks[0]);
    let end = merged.pop().unwrap();
    assert_eq!(merged, expected);
    assert_eq!(end, (1487, TrackEventKind::Meta(MetaMessage::EndOfTrack)));
}

#[test]
fn a_track_without_an_end_of_track_delays_what_follows() {
    let flat = smf0(&smf(vec![vec![on(10, 1)], vec![on(20, 2), end_of_track(0)]]));
    assert_eq!(flat.tracks, vec![vec![on(10, 1), on(20, 2), end_of_track(0)]]);
}

#[test]
fn an_end_of_track_in_the_middle_is_left_out_with_its_delta_time() {
    let flat = smf0(&smf(vec![vec![end_of_track(10), on(5, 1), end_of_track(0)], vec![]]));
    assert_eq!(flat.tracks, vec![vec![on(5, 1), end_of_track(0)]]);
}
