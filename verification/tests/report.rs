use mly::event::{MetaMessage, MidiMessage, TrackEvent, TrackEventKind};
use mly::loop_find::{find, find_loops, Loop, Loops, Options};
use mly::report::index_width;
use mly::smf::{Format, Header, Smf, Timing};
use mly::event::Fps;
use mly::error::Error;

fn on(delta: u32, key: u8) -> TrackEvent<'static> {
    TrackEvent {
        delta,
        kind: TrackEventKind::Midi { channel: 0, message: MidiMessage::NoteOn { key, vel: 100 } },
    }
}

fn off(delta: u32, key: u8) -> TrackEvent<'static> {
    TrackEvent {
        delta,
        kind: TrackEventKind::Midi { channel: 0, message: MidiMessage::NoteOff { key, vel: 0 } },
    }
}

fn meta(delta: u32, message: MetaMessage<'static>) -> TrackEvent<'static> {
    TrackEvent { delta, kind: TrackEventKind::Meta(message) }
}

fn two_quartets() -> Vec<TrackEvent<'static>> {
    vec![
        meta(0, MetaMessage::Tempo(500_000)),
        on(240, 60),
        off(240, 60),
        on(240, 62),
        off(240, 62),
        on(240, 60),
        off(240, 60),
        on(240, 62),
        off(240, 62),
        meta(0, MetaMessage::EndOfTrack),
    ]
}

#[test]
fn report_of_no_loop() {
    let track = two_quartets();
    let text = Loop::default().report("Best loop in note space:", &Timing::Metrical(480), &track, None);
    assert_eq!(text, "No loop found.\n");
}

#[test]
fn report_of_no_loop_needs_no_metrical_timing() {
    let track = two_quartets();
    let text = Loop::default().report("", &Timing::Timecode(Fps::Fps25, 40), &track, None);
    assert_eq!(text, "No loop found.\n");
}

#[test]
fn report_of_a_loop() {
    let track = two_quartets();
    let text = Loop { start: 1, len: 4 }.report(
        "Best loop in note space:",
        &Timing::Metrical(480),
        &track,
        None,
    );
    assert_eq!(
        text,
        "Best loop in note space: 4 events (between event #[1, 5[ and [5, 9[)\n\
         First note: event  1 / pulse  240 / beat 0:240 / 0:00:250m\n\
         Loop start: event  1 / pulse  240 / beat 0:240 / 0:00:250m\n\
         \x20 Loop end: event  5 / pulse 1200 / beat 2:240 / 0:01:250m\n"
    );
}

#[test]
fn report_with_samples() {
    let track = two_quartets();
    let text = Loop { start: 2, len: 2 }.report("", &Timing::Metrical(480), &track, Some(44_100));
    assert_eq!(
        text,
        " 2 events (between event #[2, 4[ and [4, 6[)\n\
         First note: event  1 / pulse  240 / beat 0:240 / 0:00:250m / sample 11025.00\n\
         Loop start: event  2 / pulse  480 / beat 1:000 / 0:00:500m / sample 22050.00\n\
         \x20 Loop end: event  4 / pulse  960 / beat 2:000 / 0:01:000m / sample 44100.00\n"
    );
}

#[test]
fn report_of_both_loops() {
    let track = two_quartets();
    let loops = find_loops(&track, true);
    assert_eq!(
        loops,
        Loops { note_loop: Loop { start: 1, len: 4 }, recording_loop: Some(Loop { start: 1, len: 4 }) }
    );
    let text = loops.report(&Timing::Metrical(480), &track, Some(48_000));
    assert_eq!(
        text,
        "Best loop in note space: 4 events (between event #[1, 5[ and [5, 9[)\n\
         First note: event  1 / pulse  240 / beat 0:240 / 0:00:250m\n\
         Loop start: event  1 / pulse  240 / beat 0:240 / 0:00:250m\n\
         \x20 Loop end: event  5 / pulse 1200 / beat 2:240 / 0:01:250m\n\
         \nBest loop in recording space:  4 events (between event #[1, 5[ and [5, 9[)\n\
         First note: event  1 / pulse  240 / beat 0:240 / 0:00:250m / sample 12000.00\n\
         Loop start: event  1 / pulse  240 / beat 0:240 / 0:00:250m / sample 12000.00\n\
         \x20 Loop end: event  5 / pulse 1200 / beat 2:240 / 0:01:250m / sample 60000.00\n"
    );
}

#[test]
fn width_of_event_numbers() {
    assert_eq!(index_width(1), 1);
    assert_eq!(index_width(2), 2);
    assert_eq!(index_width(10), 2);
    assert_eq!(index_width(11), 3);
    assert_eq!(index_width(100), 3);
    assert_eq!(index_width(101), 4);
}

#[test]
fn find_wants_one_track() {
    let header = Header { format: Format::Parallel, timing: Timing::Metrical(480) };
    let smf = Smf { header, tracks: vec![two_quartets(), two_quartets()] };
    match find(&smf, Options { samplerate: None }) {
        Err(Error::TrackCount(2)) => {},
        other => panic!("{other:?}"),
    }
    let smf = Smf { header, tracks: vec![] };
    match find(&smf, Options { samplerate: None }) {
        Err(Error::TrackCount(0)) => {},
        other => panic!("{other:?}"),
    }
}

#[test]
fn find_wants_metrical_timing() {
    let header = Header { format: Format::SingleTrack, timing: Timing::Timecode(Fps::Fps25, 40) };
    let smf = Smf { header, tracks: vec![two_quartets()] };
    match find(&smf, Options { samplerate: None }) {
        Err(Error::UnsupportedTiming) => {},
        other => panic!("{other:?}"),
    }
}

#[test]
fn find_gives_the_loops_of_the_track() {
    let header = Header { format: Format::SingleTrack, timing: Timing::Metrical(480) };
    let smf = Smf { header, tracks: vec![two_quartets()] };
    let loops = find(&smf, Options { samplerate: None }).unwrap();
    assert_eq!(loops, Loops { note_loop: Loop { start: 1, len: 4 }, recording_loop: None });
    let loops = find(&smf, Options { samplerate: Some(44_100) }).unwrap();
    assert_eq!(
        loops,
        Loops { note_loop: Loop { start: 1, len: 4 }, recording_loop: Some(Loop { start: 1, len: 4 }) }
    );
}
