use mly::beat::{total_pulse_of_range, PulseOrBeat, PulseOrBeatValue};
use mly::error::Error;
use mly::event::Fps;
use mly::smf::Timing;

fn total(text: &str, ppqn: u16) -> u64 {
    PulseOrBeat::parse(text).unwrap().total_pulse(&Timing::Metrical(ppqn)).unwrap()
}

fn is_bad(text: &str) -> bool {
    matches!(PulseOrBeat::parse(text), Err(Error::BadPulseOrBeat))
}

#[test]
fn beats_and_pulses_at_480_pulses_per_quarter_note() {
    assert_eq!(total("4:240", 480), 2160);
    assert_eq!(total("4:", 480), 1920);
    assert_eq!(total(":240", 480), 240);
    assert_eq!(total("2160", 480), 2160);
    assert!(is_bad("4:40000"));
}

#[test]
fn parsed_values() {
    assert_eq!(PulseOrBeat::parse("4:240").unwrap().value, PulseOrBeatValue::Beat(4, 240));
    assert_eq!(PulseOrBeat::parse("4:").unwrap().value, PulseOrBeatValue::Beat(4, 0));
    assert_eq!(PulseOrBeat::parse(":240").unwrap().value, PulseOrBeatValue::Beat(0, 240));
    assert_eq!(PulseOrBeat::parse(":").unwrap().value, PulseOrBeatValue::Beat(0, 0));
    assert_eq!(PulseOrBeat::parse("2160").unwrap().value, PulseOrBeatValue::Pulse(2160));
    assert_eq!(PulseOrBeat::parse("+7:+08").unwrap().value, PulseOrBeatValue::Beat(7, 8));
    assert_eq!(PulseOrBeat::parse("007").unwrap().value, PulseOrBeatValue::Pulse(7));
    assert_eq!(
        PulseOrBeat::parse("18446744073709551615").unwrap().value,
        PulseOrBeatValue::Pulse(u64::MAX)
    );
    assert_eq!(PulseOrBeat::parse("1:32767").unwrap().value, PulseOrBeatValue::Beat(1, 32767));
    assert_eq!(PulseOrBeat::parse("4:240").unwrap().input, "4:240");
}

#[test]
fn from_str_reads_the_same() {
    let parsed: PulseOrBeat = "4:240".parse().unwrap();
    assert_eq!(parsed.value, PulseOrBeatValue::Beat(4, 240));
    assert_eq!(parsed.input, "4:240");
    assert!(matches!("x".parse::<PulseOrBeat>(), Err(Error::BadPulseOrBeat)));
}

#[test]
fn texts_that_are_neither_pulse_nor_beat() {
    for text in [
        "", "+", "-1", "1:-1", "a", "1a", "4:240:3", "4::", " 4", "4 ", "1:32768", "1:65536",
        "18446744073709551616", "18446744073709551616:0", "99999999999999999999999", "４", "4:é",
        "é:4", "+:1", "1:+",
    ] {
        assert!(is_bad(text), "{text:?}");
    }
}

#[test]
fn total_pulse_is_quarter_notes_times_ppqn_plus_pulses() {
    for (qn, pulse, ppqn) in [(0u64, 0u16, 1u16), (1, 1, 1), (7, 95, 96), (123, 479, 480), (9, 32767, 32767)] {
        let text = format!("{qn}:{pulse}");
        assert_eq!(total(&text, ppqn), qn * ppqn as u64 + pulse as u64);
    }
}

#[test]
fn total_pulses_that_64_bits_hold() {
    let timing = Timing::Metrical(480);
    assert!(PulseOrBeat::parse("4:240").unwrap().total_fits(&timing));
    assert!(PulseOrBeat::parse("18446744073709551615").unwrap().total_fits(&timing));
    assert!(PulseOrBeat::parse("38430716820228232:255").unwrap().total_fits(&timing));
    assert!(!PulseOrBeat::parse("38430716820228232:256").unwrap().total_fits(&timing));
    assert!(!PulseOrBeat::parse("18446744073709551615:0").unwrap().total_fits(&timing));
    assert!(PulseOrBeat::parse("18446744073709551615:0").unwrap().total_fits(&Timing::Metrical(1)));
    assert!(!PulseOrBeat::parse("18446744073709551615:1").unwrap().total_fits(&Timing::Metrical(1)));
    let timecode = Timing::Timecode(Fps::Fps25, 40);
    assert!(PulseOrBeat::parse("18446744073709551615:1").unwrap().total_fits(&timecode));
}

#[test]
fn a_beat_has_no_total_in_pulses_per_second() {
    let timecode = Timing::Timecode(Fps::Fps25, 40);
    let beat = PulseOrBeat::parse("4:240").unwrap();
    assert!(matches!(beat.total_pulse(&timecode), Err(Error::UnsupportedTiming)));
    let pulse = PulseOrBeat::parse("2160").unwrap();
    assert_eq!(pulse.total_pulse(&timecode).unwrap(), 2160);
}

#[test]
fn range_of_pulses() {
    let timing = Timing::Metrical(480);
    let start = PulseOrBeat::parse("4:240").unwrap();
    let end = PulseOrBeat::parse("5:").unwrap();
    assert_eq!(total_pulse_of_range(&start, &None, &timing).unwrap(), (2160, None));
    assert_eq!(
        total_pulse_of_range(&start, &Some(end.clone()), &timing).unwrap(),
        (2160, Some(2400))
    );
    assert_eq!(
        total_pulse_of_range(&start, &Some(start.clone()), &timing).unwrap(),
        (2160, Some(2160))
    );
    match total_pulse_of_range(&end, &Some(start), &timing) {
        Err(Error::RangeOrder { start, start_pulse, end, end_pulse }) => {
            assert_eq!(start, "5:");
            assert_eq!(start_pulse, 2400);
            assert_eq!(end, "4:240");
            assert_eq!(end_pulse, 2160);
        },
        other => panic!("{other:?}"),
    }
}
