use mly::error::Error;
use mly::event::{MetaMessage, MidiMessage, TrackEvent, TrackEventKind};
use mly::manip::{cut, filter_note, loop_unfold, EventRange};
use mly::smf::{Format, Header, Smf, Timing};

fn on(delta: u32, key: u8) -> TrackEvent<'static> {
    TrackEvent {
        delta,
        kind: TrackEventKind::Midi { channel: 0, message: MidiMessage::NoteOn { key, vel: 100 } },
    }
}

fn off(delta: u32, key: u8) -> TrackEvent<'static> {
    TrackEvent {
        delta,
        kind: TrackEventKind::Midi { channel: 0, message: MidiMessage::NoteOff { key, vel: 0 } },
    }
}

fn end_of_track(delta: u32) -> TrackEvent<'static> {
    TrackEvent { delta, kind: TrackEventKind::Meta(MetaMessage::EndOfTrack) }
}

fn smf(tracks: Vec<Vec<TrackEvent<'static>>>) -> Smf<'static> {
    Smf { header: Header { format: Format::Parallel, timing: Timing::Metrical(480) }, tracks }
}

/// Events at the pulses 100, 200, 300 and 1000, and the end at 1000.
fn four_events() -> Vec<TrackEvent<'static>> {
    vec![on(100, 1), on(100, 2), on(100, 3), on(700, 4), end_of_track(0)]
}

#[test]
fn cut_of_a_range_with_an_end() {
    let mut sequence = smf(vec![four_events()]);
    let removed = cut(&mut sequence, (100, Some(250))).unwrap();
    assert_eq!(removed, vec![EventRange { track: 0, start: 0, end: 2 }]);
    // The third event takes the delta time of the first.
    assert_eq!(sequence.tracks, vec![vec![on(100, 3), on(700, 4), end_of_track(0)]]);
    assert_eq!(sequence.header, smf(vec![]).header);
}

#[test]
fn cut_of_a_range_without_an_end() {
    let mut sequence = smf(vec![four_events()]);
    let removed = cut(&mut sequence, (150, None)).unwrap();
    assert_eq!(removed, vec![EventRange { track: 0, start: 1, end: 4 }]);
    assert_eq!(sequence.tracks, vec![vec![on(100, 1), end_of_track(100)]]);
}

#[test]
fn cut_of_nothing() {
    let mut sequence = smf(vec![four_events()]);
    let removed = cut(&mut sequence, (150, Some(150))).unwrap();
    assert_eq!(removed, vec![EventRange { track: 0, start: 1, end: 1 }]);
    assert_eq!(sequence.tracks, vec![four_events()]);
    let removed = cut(&mut sequence, (1000, None)).unwrap();
    assert_eq!(removed, vec![EventRange { track: 0, start: 3, end: 4 }]);
    assert_eq!(sequence.tracks, vec![vec![on(100, 1), on(100, 2), on(100, 3), end_of_track(700)]]);
}

#[test]
fn cut_adds_a_missing_end_of_track() {
    let mut sequence = smf(vec![vec![on(100, 1), on(100, 2)]]);
    cut(&mut sequence, (150, None)).unwrap();
    assert_eq!(sequence.tracks, vec![vec![on(100, 1), end_of_track(100)]]);
    let mut sequence = smf(vec![vec![on(100, 1), on(100, 2)]]);
    cut(&mut sequence, (150, Some(150))).unwrap();
    assert_eq!(sequence.tracks, vec![vec![on(100, 1), on(100, 2), end_of_track(100)]]);
}

#[test]
fn cut_leaves_a_short_track_alone() {
    let short = vec![on(10, 9), end_of_track(0)];
    let mut sequence = smf(vec![short.clone(), four_events(), vec![]]);
    let removed = cut(&mut sequence, (100, Some(250))).unwrap();
    assert_eq!(removed, vec![EventRange { track: 1, start: 0, end: 2 }]);
    assert_eq!(
        sequence.tracks,
        vec![short, vec![on(100, 3), on(700, 4), end_of_track(0)], vec![]]
    );
}

#[test]
fn cut_behind_an_end_of_track_in_the_middle() {
    // What is left ends with an end-of-track event already, and no event
    // is left to take the delta time.
    let mut sequence = smf(vec![vec![on(10, 1), end_of_track(0), on(90, 2)]]);
    let removed = cut(&mut sequence, (50, None)).unwrap();
    assert_eq!(removed, vec![EventRange { track: 0, start: 2, end: 3 }]);
    assert_eq!(sequence.tracks, vec![vec![on(10, 1), end_of_track(0)]]);
}

#[test]
fn cut_refuses_a_range_behind_the_end() {
    let mut sequence = smf(vec![four_events()]);
    let e = cut(&mut sequence, (1001, None)).unwrap_err();
    assert_eq!(e.pulse, 1001);
    assert_eq!(e.to_string(), "pulse 1001 out of range (sequence ends at pulse 1000 / beat 2:040)");
    assert_eq!(sequence.tracks, vec![four_events()]);
    let e = cut(&mut sequence, (10, Some(1001))).unwrap_err();
    assert_eq!(e.pulse, 1001);
    assert_eq!(sequence.tracks, vec![four_events()]);
}

#[test]
fn a_second_cut_without_an_end_changes_nothing() {
    for start in [0, 1, 100, 101, 250, 300, 999, 1000] {
        let mut sequence = smf(vec![four_events(), vec![on(500, 9), end_of_track(500)], vec![on(50, 9)]]);
        cut(&mut sequence, (start, None)).unwrap();
        let once = sequence.clone();
        cut(&mut sequence, (start, None)).unwrap();
        assert_eq!(sequence, once, "from {start}");
    }
}

#[test]
fn a_second_cut_with_an_end_may_remove_more() {
    let mut sequence = smf(vec![four_events()]);
    cut(&mut sequence, (100, Some(250))).unwrap();
    assert_eq!(sequence.tracks, vec![vec![on(100, 3), on(700, 4), end_of_track(0)]]);
    cut(&mut sequence, (100, Some(250))).unwrap();
    assert_eq!(sequence.tracks, vec![vec![on(100, 4), end_of_track(0)]]);
    cut(&mut sequence, (100, Some(250))).unwrap_err();
}

#[test]
fn a_second_cut_up_to_the_end_of_the_events_changes_nothing() {
    let mut sequence = smf(vec![four_events(), vec![on(2000, 9), end_of_track(0)]]);
    cut(&mut sequence, (250, Some(1500))).unwrap();
    assert_eq!(
        sequence.tracks,
        vec![vec![on(100, 1), on(100, 2), end_of_track(100)], vec![on(2000, 9), end_of_track(0)]]
    );
    let once = sequence.clone();
    cut(&mut sequence, (250, Some(1500))).unwrap();
    assert_eq!(sequence, once);
}

#[test]
fn unfold_repeats_the_events_before_the_end_of_track() {
    let mut sequence = smf(vec![vec![on(100, 1), on(100, 2), on(100, 3), end_of_track(7)]]);
    let repeated = loop_unfold(&mut sequence, 200).unwrap();
    assert_eq!(repeated, Some(EventRange { track: 0, start: 1, end: 3 }));
    assert_eq!(
        sequence.tracks,
        vec![vec![on(100, 1), on(100, 2), on(100, 3), on(100, 2), on(100, 3), end_of_track(7)]]
    );
    assert_eq!(sequence.header, smf(vec![]).header);
}

#[test]
fn unfold_from_the_start_repeats_everything() {
    let mut sequence = smf(vec![vec![on(100, 1), on(100, 2), end_of_track(7)]]);
    let repeated = loop_unfold(&mut sequence, 0).unwrap();
    assert_eq!(repeated, Some(EventRange { track: 0, start: 0, end: 2 }));
    assert_eq!(
        sequence.tracks,
        vec![vec![on(100, 1), on(100, 2), on(100, 1), on(100, 2), end_of_track(7)]]
    );
}

#[test]
fn unfold_from_the_end_of_track_repeats_nothing() {
    let track = vec![on(100, 1), end_of_track(7)];
    let mut sequence = smf(vec![track.clone()]);
    let repeated = loop_unfold(&mut sequence, 107).unwrap();
    assert_eq!(repeated, Some(EventRange { track: 0, start: 1, end: 1 }));
    assert_eq!(sequence.tracks, vec![track]);
}

#[test]
fn unfold_wants_one_track() {
    let tracks = vec![vec![on(100, 1), end_of_track(0)], vec![on(100, 1), end_of_track(0)]];
    let mut sequence = smf(tracks.clone());
    match loop_unfold(&mut sequence, 50) {
        Err(Error::TrackCount(2)) => {},
        other => panic!("{other:?}"),
    }
    assert_eq!(sequence.tracks, tracks);
    let mut sequence = smf(vec![]);
    match loop_unfold(&mut sequence, 0) {
        Err(Error::TrackCount(0)) => {},
        other => panic!("{other:?}"),
    }
}

#[test]
fn unfold_wants_an_end_of_track() {
    let tracks = vec![vec![on(100, 1)]];
    let mut sequence = smf(tracks.clone());
    match loop_unfold(&mut sequence, 50) {
        Err(Error::MissingEndOfTrack(0)) => {},
        other => panic!("{other:?}"),
    }
    assert_eq!(sequence.tracks, tracks);
    let mut sequence = smf(vec![vec![]]);
    match loop_unfold(&mut sequence, 0) {
        Err(Error::MissingEndOfTrack(0)) => {},
        other => panic!("{other:?}"),
    }
}

#[test]
fn unfold_refuses_a_pulse_behind_the_end() {
    let mut sequence = smf(vec![vec![on(100, 1), end_of_track(0)]]);
    match loop_unfold(&mut sequence, 101) {
        Err(Error::PulseOutOfRange(e)) => assert_eq!(e.pulse, 101),
        other => panic!("{other:?}"),
    }
    assert_eq!(sequence.tracks, vec![vec![on(100, 1), end_of_track(0)]]);
    // A pulse behind the end is told before a missing end of track.
    let mut sequence = smf(vec![vec![on(100, 1)]]);
    match loop_unfold(&mut sequence, 101) {
        Err(Error::PulseOutOfRange(e)) => assert_eq!(e.pulse, 101),
        other => panic!("{other:?}"),
    }
}

fn notes() -> Vec<TrackEvent<'static>> {
    vec![on(100, 60), off(100, 60), on(100, 62), off(100, 62), end_of_track(0)]
}

#[test]
fn filter_leaves_out_the_notes_of_a_range() {
    let filtered = filter_note(&smf(vec![notes()]), (250, Some(350)), false).unwrap();
    assert_eq!(
        filtered.tracks,
        vec![vec![on(100, 60), off(100, 60), off(200, 62), end_of_track(0)]]
    );
    assert_eq!(filtered.header, smf(vec![]).header);
}

#[test]
fn filter_leaves_out_the_notes_of_all_but_a_range() {
    let filtered = filter_note(&smf(vec![notes()]), (250, Some(350)), true).unwrap();
    assert_eq!(
        filtered.tracks,
        vec![vec![off(200, 60), on(100, 62), off(100, 62), end_of_track(0)]]
    );
}

#[test]
fn filter_takes_the_end_of_the_range_out_of_the_range() {
    let filtered = filter_note(&smf(vec![notes()]), (100, Some(300)), false).unwrap();
    assert_eq!(
        filtered.tracks,
        vec![vec![off(200, 60), on(100, 62), off(100, 62), end_of_track(0)]]
    );
    let filtered = filter_note(&smf(vec![notes()]), (0, None), false).unwrap();
    assert_eq!(filtered.tracks, vec![vec![off(200, 60), off(200, 62), end_of_track(0)]]);
}

#[test]
fn filter_carries_delta_times_over_several_notes() {
    let track = vec![on(100, 60), on(50, 61), on(25, 62), off(1, 60), end_of_track(0)];
    let filtered = filter_note(&smf(vec![track]), (0, None), false).unwrap();
    assert_eq!(filtered.tracks, vec![vec![off(176, 60), end_of_track(0)]]);
}

#[test]
fn filter_keeps_a_delta_time_within_28_bits() {
    let track = vec![on(0x0FFF_FFFF, 60), off(2, 60), end_of_track(0)];
    let filtered = filter_note(&smf(vec![track]), (0, None), false).unwrap();
    assert_eq!(filtered.tracks, vec![vec![off(1, 60), end_of_track(0)]]);
}

#[test]
fn filter_refuses_a_range_behind_the_end() {
    let e = filter_note(&smf(vec![notes()]), (401, None), false).unwrap_err();
    assert_eq!(e.pulse, 401);
    let e = filter_note(&smf(vec![notes()]), (0, Some(401)), true).unwrap_err();
    assert_eq!(e.pulse, 401);
}
