use mly::event::{MetaMessage, MidiMessage, TrackEvent, TrackEventKind};
use mly::loop_find::{
    find_loop_ending_at, find_loops, find_note_loop, find_recording_loop, Loop, Loops,
};

fn midi(delta: u32, channel: u8, message: MidiMessage) -> TrackEvent<'static> {
    TrackEvent { delta, kind: TrackEventKind::Midi { channel, message } }
}

fn on(delta: u32, key: u8) -> TrackEvent<'static> {
    midi(delta, 0, MidiMessage::NoteOn { key, vel: 100 })
}

fn off(delta: u32, key: u8) -> TrackEvent<'static> {
    midi(delta, 0, MidiMessage::NoteOff { key, vel: 0 })
}

fn cc(delta: u32, channel: u8, controller: u8, value: u8) -> TrackEvent<'static> {
    midi(delta, channel, MidiMessage::Controller { controller, value })
}

fn program(delta: u32, program: u8) -> TrackEvent<'static> {
    midi(delta, 0, MidiMessage::ProgramChange { program })
}

fn tempo() -> TrackEvent<'static> {
    TrackEvent { delta: 0, kind: TrackEventKind::Meta(MetaMessage::Tempo(500_000)) }
}

fn end_of_track() -> TrackEvent<'static> {
    TrackEvent { delta: 0, kind: TrackEventKind::Meta(MetaMessage::EndOfTrack) }
}

/// `times` times the same events, between a tempo event and the end of the
/// track.
fn repeated(unit: &[TrackEvent<'static>], times: usize) -> Vec<TrackEvent<'static>> {
    let mut track = vec![tempo()];
    for _ in 0..times {
        track.extend_from_slice(unit);
    }
    track.push(end_of_track());
    track
}

#[test]
fn a_loop_does_not_start_at_a_delta_time_of_zero() {
    let unit = [cc(0, 0, 7, 100), on(240, 60), off(240, 60)];
    // The only range that is found again starts with the controller change.
    let track = repeated(&unit, 2);
    assert_eq!(find_loop_ending_at(4, 1, 0, &track, false), None);
    assert_eq!(find_note_loop(&track), Loop { start: 0, len: 0 });
    // With one more repetition the loop starts one event later.
    let track = repeated(&unit, 3);
    assert_eq!(find_note_loop(&track), Loop { start: 2, len: 3 });
    assert_eq!(find_loop_ending_at(4, 1, 0, &track, false), None);
    assert_eq!(find_loop_ending_at(5, 1, 0, &track, false), Some(Loop { start: 2, len: 3 }));
}

#[test]
fn a_loop_does_not_end_at_a_delta_time_of_zero() {
    let unit = [on(240, 60), cc(0, 0, 7, 100), off(240, 60)];
    let track = repeated(&unit, 3);
    // Cursor 5 is the second controller change.
    assert_eq!(find_loop_ending_at(5, 0, 0, &track, false), None);
    assert_eq!(find_loop_ending_at(4, 0, 0, &track, false), Some(Loop { start: 1, len: 3 }));
    assert_eq!(find_note_loop(&track), Loop { start: 1, len: 3 });
}

#[test]
fn a_loop_does_not_start_at_a_program_change() {
    let unit = [program(240, 5), on(240, 60), off(240, 60)];
    let track = repeated(&unit, 2);
    assert_eq!(find_loop_ending_at(4, 1, 0, &track, false), None);
    assert_eq!(find_note_loop(&track), Loop { start: 0, len: 0 });
    let track = repeated(&unit, 3);
    assert_eq!(find_loop_ending_at(4, 1, 0, &track, false), None);
    assert_eq!(find_note_loop(&track), Loop { start: 2, len: 3 });
    // A controller change in the same place is no hindrance.
    let unit = [cc(240, 0, 7, 5), on(240, 60), off(240, 60)];
    let track = repeated(&unit, 2);
    assert_eq!(find_note_loop(&track), Loop { start: 1, len: 3 });
}

#[test]
fn the_longest_loop_wins_and_of_two_the_earlier_one() {
    let unit = [on(240, 60), off(240, 60), on(240, 62), off(240, 62)];
    let track = repeated(&unit, 3);
    // Two repetitions of the unit would be a range of two equal sections.
    assert_eq!(find_note_loop(&track), Loop { start: 1, len: 4 });
    assert_eq!(find_loop_ending_at(9, 0, 0, &track, false), Some(Loop { start: 5, len: 4 }));
    assert_eq!(find_loop_ending_at(9, 0, 4, &track, false), None);
    assert_eq!(find_loop_ending_at(9, 0, 3, &track, false), Some(Loop { start: 5, len: 4 }));
    assert_eq!(find_loop_ending_at(9, 6, 0, &track, false), None);
    assert_eq!(find_loop_ending_at(9, 0, 9, &track, false), None);
    assert_eq!(find_loop_ending_at(9, 0, 10, &track, false), None);
    assert_eq!(find_loop_ending_at(0, 0, 0, &track, false), None);
}

#[test]
fn a_controller_of_a_channel_without_notes_does_not_count() {
    let unit = [on(240, 60), cc(1, 1, 7, 80), off(239, 60), on(240, 62), off(240, 62)];
    let track = repeated(&unit, 2);
    assert_eq!(
        find_loops(&track, true),
        Loops { note_loop: Loop { start: 1, len: 5 }, recording_loop: Some(Loop { start: 1, len: 5 }) }
    );
    assert_eq!(
        find_loops(&track, false),
        Loops { note_loop: Loop { start: 1, len: 5 }, recording_loop: None }
    );
}

#[test]
fn a_controller_of_a_channel_with_notes_counts() {
    let unit = [on(240, 60), cc(1, 0, 7, 80), off(239, 60), on(240, 62), off(240, 62)];
    let track = repeated(&unit, 2);
    assert_eq!(
        find_loops(&track, true),
        Loops { note_loop: Loop { start: 1, len: 5 }, recording_loop: Some(Loop { start: 0, len: 0 }) }
    );
    // Once the controller has its value before the loop starts, the state
    // is the same at both ends.
    let mut track = repeated(&unit, 2);
    track.insert(1, cc(0, 0, 7, 80));
    assert_eq!(
        find_loops(&track, true),
        Loops { note_loop: Loop { start: 2, len: 5 }, recording_loop: Some(Loop { start: 2, len: 5 }) }
    );
}

#[test]
fn a_note_across_the_end_wants_the_same_channel_state() {
    let unit = [on(240, 60), off(240, 60), cc(240, 0, 11, 50)];
    let mut track = repeated(&unit, 3);
    track.insert(10, on(240, 60));
    let note_loop = find_note_loop(&track);
    assert_eq!(note_loop, Loop { start: 1, len: 3 });
    // From the note on, the controller changes behind a note: no loop.
    assert_eq!(find_loop_ending_at(4, 1, 0, &track, true), None);
    assert_eq!(find_loop_ending_at(4, 1, 0, &track, false), Some(Loop { start: 1, len: 3 }));
    // From the note off on, a note sounds at the end, and the controller
    // has changed: no loop.
    assert_eq!(find_loop_ending_at(5, 1, 0, &track, true), None);
    assert_eq!(find_loop_ending_at(5, 2, 0, &track, false), Some(Loop { start: 2, len: 3 }));
    // From the controller change on, no note sounds at the end, and the
    // controller changes before any note.
    assert_eq!(find_loop_ending_at(6, 1, 0, &track, true), Some(Loop { start: 3, len: 3 }));
    assert_eq!(find_recording_loop(&track, note_loop), Loop { start: 3, len: 3 });
}

#[test]
fn a_note_off_with_no_note_before_it_is_let_pass() {
    // The loop starts with a note off: no note is counted below zero, so
    // that the note on behind it still sounds at the end.
    let unit = [off(240, 60), cc(240, 0, 11, 50), on(240, 60)];
    let mut track = vec![tempo(), cc(0, 0, 11, 50)];
    for _ in 0..2 {
        track.extend_from_slice(&unit);
    }
    track.push(end_of_track());
    // The state is the same at both ends, whatever sounds.
    assert_eq!(find_loop_ending_at(5, 2, 0, &track, true), Some(Loop { start: 2, len: 3 }));
    // With another value before the loop, the sounding note tells.
    track[1] = cc(0, 0, 11, 49);
    assert_eq!(find_loop_ending_at(5, 2, 0, &track, true), None);
    assert_eq!(find_loop_ending_at(5, 2, 0, &track, false), Some(Loop { start: 2, len: 3 }));
}

#[test]
fn a_note_on_of_velocity_zero_ends_a_note() {
    let silent = midi(240, 0, MidiMessage::NoteOn { key: 60, vel: 0 });
    // The channel has played, so that its controller counts; no note
    // sounds at the end.
    let unit = [on(240, 60), silent, cc(240, 0, 11, 50)];
    let track = repeated(&unit, 2);
    assert_eq!(find_loop_ending_at(4, 1, 0, &track, true), None);
    let mut track = repeated(&unit, 2);
    track.insert(1, cc(0, 0, 11, 50));
    assert_eq!(find_loop_ending_at(5, 2, 0, &track, true), Some(Loop { start: 2, len: 3 }));
}

#[test]
fn tempo_counts_in_recording_space() {
    let slow = TrackEvent { delta: 240, kind: TrackEventKind::Meta(MetaMessage::Tempo(600_000)) };
    let unit = [on(240, 60), slow, off(240, 60)];
    let track = repeated(&unit, 2);
    assert_eq!(
        find_loops(&track, true),
        Loops { note_loop: Loop { start: 1, len: 3 }, recording_loop: Some(Loop { start: 0, len: 0 }) }
    );
    let track = repeated(&unit, 3);
    assert_eq!(
        find_loops(&track, true),
        Loops { note_loop: Loop { start: 1, len: 3 }, recording_loop: Some(Loop { start: 3, len: 3 }) }
    );
}

#[test]
fn program_and_pitch_bend_count_in_recording_space() {
    for change in [program(240, 5), midi(240, 0, MidiMessage::PitchBend { bend: 0 })] {
        let unit = [on(240, 60), off(240, 60), change];
        let track = repeated(&unit, 3);
        let loops = find_loops(&track, true);
        assert_eq!(loops.note_loop, Loop { start: 1, len: 3 });
        // Not from the note on, at which the change is still to come; from
        // the note off on, the pitch bend is the same at both ends, but a
        // program change may not stand at the start.
        assert_eq!(find_loop_ending_at(4, 1, 0, &track, true), None);
    }
    let unit = [on(240, 60), off(240, 60), midi(240, 0, MidiMessage::PitchBend { bend: 0 })];
    let track = repeated(&unit, 3);
    assert_eq!(find_loops(&track, true).recording_loop, Some(Loop { start: 4, len: 3 }));
}

#[test]
fn recording_loop_of_odd_note_loops() {
    let track = repeated(&[on(240, 60), off(240, 60)], 2);
    assert_eq!(find_recording_loop(&track, Loop { start: usize::MAX, len: 2 }), Loop::default());
    assert_eq!(find_recording_loop(&track, Loop { start: 100, len: 2 }), Loop::default());
    assert_eq!(find_recording_loop(&track, Loop { start: 0, len: 0 }), Loop { start: 1, len: 2 });
}
