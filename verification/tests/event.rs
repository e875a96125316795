use mly::event::{
    controller, note, note_on, same_event, Controller, Fps, MetaMessage, MidiMessage, Note,
    SmpteTime, TrackEvent, TrackEventKind,
};

fn midi(delta: u32, channel: u8, message: MidiMessage) -> TrackEvent<'static> {
    TrackEvent { delta, kind: TrackEventKind::Midi { channel, message } }
}

fn meta(message: MetaMessage<'static>) -> TrackEvent<'static> {
    TrackEvent { delta: 0, kind: TrackEventKind::Meta(message) }
}

#[test]
fn note_is_a_note_on_of_any_velocity() {
    let ev = midi(0, 2, MidiMessage::NoteOn { key: 60, vel: 100 });
    assert_eq!(note(&ev), Some(Note { channel: 2, key: 60, vel: 100 }));
    assert_eq!(note_on(&ev), Some(Note { channel: 2, key: 60, vel: 100 }));
    let silent = midi(0, 2, MidiMessage::NoteOn { key: 60, vel: 0 });
    assert_eq!(note(&silent), Some(Note { channel: 2, key: 60, vel: 0 }));
    assert_eq!(note_on(&silent), None);
    assert!(Note { channel: 0, key: 0, vel: 1 }.is_on());
    assert!(!Note { channel: 0, key: 0, vel: 0 }.is_on());
}

#[test]
fn other_events_are_no_notes() {
    for ev in [
        midi(0, 2, MidiMessage::NoteOff { key: 60, vel: 100 }),
        midi(0, 2, MidiMessage::Aftertouch { key: 60, vel: 100 }),
        midi(0, 2, MidiMessage::Controller { controller: 60, value: 100 }),
        meta(MetaMessage::EndOfTrack),
        TrackEvent { delta: 0, kind: TrackEventKind::SysEx(&[0x90, 60, 100]) },
    ] {
        assert_eq!(note(&ev), None);
        assert_eq!(note_on(&ev), None);
    }
}

#[test]
fn controller_of_a_controller_change() {
    let ev = midi(0, 9, MidiMessage::Controller { controller: 7, value: 100 });
    assert_eq!(controller(&ev), Some(Controller { channel: 9, controller: 7 }));
    assert_eq!(controller(&midi(0, 9, MidiMessage::ProgramChange { program: 7 })), None);
    assert_eq!(controller(&meta(MetaMessage::Tempo(7))), None);
}

#[test]
fn events_are_the_same_in_every_part_or_not_at_all() {
    let time = SmpteTime { hour: 1, minute: 2, second: 3, frame: 4, subframe: 5, fps: Fps::Fps25 };
    let kinds = [
        TrackEventKind::Midi { channel: 0, message: MidiMessage::NoteOn { key: 60, vel: 100 } },
        TrackEventKind::Midi { channel: 1, message: MidiMessage::NoteOn { key: 60, vel: 100 } },
        TrackEventKind::Midi { channel: 0, message: MidiMessage::NoteOn { key: 61, vel: 100 } },
        TrackEventKind::Midi { channel: 0, message: MidiMessage::NoteOn { key: 60, vel: 0 } },
        TrackEventKind::Midi { channel: 0, message: MidiMessage::NoteOff { key: 60, vel: 100 } },
        TrackEventKind::Midi { channel: 0, message: MidiMessage::Aftertouch { key: 60, vel: 100 } },
        TrackEventKind::Midi { channel: 0, message: MidiMessage::Controller { controller: 60, value: 100 } },
        TrackEventKind::Midi { channel: 0, message: MidiMessage::ProgramChange { program: 60 } },
        TrackEventKind::Midi { channel: 0, message: MidiMessage::ChannelAftertouch { vel: 60 } },
        TrackEventKind::Midi { channel: 0, message: MidiMessage::PitchBend { bend: 60 } },
        TrackEventKind::SysEx(&[]),
        TrackEventKind::SysEx(&[1]),
        TrackEventKind::SysEx(&[1, 2]),
        TrackEventKind::SysEx(&[1, 3]),
        TrackEventKind::Escape(&[]),
        TrackEventKind::Escape(&[1]),
        TrackEventKind::Meta(MetaMessage::TrackNumber(None)),
        TrackEventKind::Meta(MetaMessage::TrackNumber(Some(0))),
        TrackEventKind::Meta(MetaMessage::TrackNumber(Some(1))),
        TrackEventKind::Meta(MetaMessage::Text(b"a")),
        TrackEventKind::Meta(MetaMessage::Text(b"b")),
        TrackEventKind::Meta(MetaMessage::Copyright(b"a")),
        TrackEventKind::Meta(MetaMessage::TrackName(b"a")),
        TrackEventKind::Meta(MetaMessage::InstrumentName(b"a")),
        TrackEventKind::Meta(MetaMessage::Lyric(b"a")),
        TrackEventKind::Meta(MetaMessage::Marker(b"a")),
        TrackEventKind::Meta(MetaMessage::CuePoint(b"a")),
        TrackEventKind::Meta(MetaMessage::ProgramName(b"a")),
        TrackEventKind::Meta(MetaMessage::DeviceName(b"a")),
        TrackEventKind::Meta(MetaMessage::MidiChannel(1)),
        TrackEventKind::Meta(MetaMessage::MidiChannel(2)),
        TrackEventKind::Meta(MetaMessage::MidiPort(1)),
        TrackEventKind::Meta(MetaMessage::EndOfTrack),
        TrackEventKind::Meta(MetaMessage::Tempo(1)),
        TrackEventKind::Meta(MetaMessage::Tempo(2)),
        TrackEventKind::Meta(MetaMessage::SmpteOffset(time)),
        TrackEventKind::Meta(MetaMessage::SmpteOffset(SmpteTime { fps: Fps::Fps30, ..time })),
        TrackEventKind::Meta(MetaMessage::SmpteOffset(SmpteTime { subframe: 6, ..time })),
        TrackEventKind::Meta(MetaMessage::TimeSignature(4, 2, 24, 8)),
        TrackEventKind::Meta(MetaMessage::TimeSignature(4, 2, 24, 9)),
        TrackEventKind::Meta(MetaMessage::TimeSignature(3, 2, 24, 8)),
        TrackEventKind::Meta(MetaMessage::KeySignature(-1, false)),
        TrackEventKind::Meta(MetaMessage::KeySignature(-1, true)),
        TrackEventKind::Meta(MetaMessage::KeySignature(1, false)),
        TrackEventKind::Meta(MetaMessage::SequencerSpecific(b"a")),
        TrackEventKind::Meta(MetaMessage::Unknown(1, b"a")),
        TrackEventKind::Meta(MetaMessage::Unknown(2, b"a")),
        TrackEventKind::Meta(MetaMessage::Unknown(1, b"b")),
    ];
    for (i, a) in kinds.iter().enumerate() {
        for (j, b) in kinds.iter().enumerate() {
            let left = TrackEvent { delta: 5, kind: *a };
            let right = TrackEvent { delta: 5, kind: *b };
            assert_eq!(same_event(&left, &right), i == j, "{a:?} and {b:?}");
            assert_eq!(left == right, i == j, "{a:?} and {b:?}");
            let later = TrackEvent { delta: 6, kind: *b };
            assert!(!same_event(&left, &later));
        }
    }
}

#[test]
fn events_that_a_track_can_hold() {
    let time = SmpteTime { hour: 23, minute: 59, second: 59, frame: 24, subframe: 99, fps: Fps::Fps25 };
    let valid = [
        midi(0x0FFF_FFFF, 15, MidiMessage::NoteOn { key: 127, vel: 127 }),
        midi(0, 0, MidiMessage::NoteOff { key: 127, vel: 127 }),
        midi(0, 0, MidiMessage::Aftertouch { key: 127, vel: 127 }),
        midi(0, 0, MidiMessage::Controller { controller: 127, value: 127 }),
        midi(0, 0, MidiMessage::ProgramChange { program: 127 }),
        midi(0, 0, MidiMessage::ChannelAftertouch { vel: 127 }),
        midi(0, 0, MidiMessage::PitchBend { bend: 0x3FFF }),
        meta(MetaMessage::MidiChannel(15)),
        meta(MetaMessage::MidiPort(127)),
        meta(MetaMessage::Tempo(0xFF_FFFF)),
        meta(MetaMessage::SmpteOffset(time)),
        meta(MetaMessage::EndOfTrack),
        meta(MetaMessage::TimeSignature(255, 255, 255, 255)),
        meta(MetaMessage::KeySignature(-128, true)),
        meta(MetaMessage::Unknown(255, b"x")),
        TrackEvent { delta: 0, kind: TrackEventKind::SysEx(&[255]) },
        TrackEvent { delta: 0, kind: TrackEventKind::Escape(&[255]) },
    ];
    for ev in valid {
        assert!(ev.is_valid(), "{ev:?}");
    }
    let invalid = [
        midi(0x1000_0000, 0, MidiMessage::NoteOn { key: 0, vel: 0 }),
        midi(0, 16, MidiMessage::NoteOn { key: 0, vel: 0 }),
        midi(0, 0, MidiMessage::NoteOn { key: 128, vel: 0 }),
        midi(0, 0, MidiMessage::NoteOn { key: 0, vel: 128 }),
        midi(0, 0, MidiMessage::NoteOff { key: 128, vel: 0 }),
        midi(0, 0, MidiMessage::NoteOff { key: 0, vel: 128 }),
        midi(0, 0, MidiMessage::Aftertouch { key: 128, vel: 0 }),
        midi(0, 0, MidiMessage::Aftertouch { key: 0, vel: 128 }),
        midi(0, 0, MidiMessage::Controller { controller: 128, value: 0 }),
        midi(0, 0, MidiMessage::Controller { controller: 0, value: 128 }),
        midi(0, 0, MidiMessage::ProgramChange { program: 128 }),
        midi(0, 0, MidiMessage::ChannelAftertouch { vel: 128 }),
        midi(0, 0, MidiMessage::PitchBend { bend: 0x4000 }),
        meta(MetaMessage::MidiChannel(16)),
        meta(MetaMessage::MidiPort(128)),
        meta(MetaMessage::Tempo(0x100_0000)),
        meta(MetaMessage::SmpteOffset(SmpteTime { hour: 24, ..time })),
        meta(MetaMessage::SmpteOffset(SmpteTime { minute: 60, ..time })),
        meta(MetaMessage::SmpteOffset(SmpteTime { second: 60, ..time })),
        meta(MetaMessage::SmpteOffset(SmpteTime { frame: 25, ..time })),
        meta(MetaMessage::SmpteOffset(SmpteTime { fps: Fps::Fps24, ..time })),
        meta(MetaMessage::SmpteOffset(SmpteTime { subframe: 100, ..time })),
        TrackEvent { delta: u32::MAX, kind: TrackEventKind::SysEx(&[]) },
    ];
    for ev in invalid {
        assert!(!ev.is_valid(), "{ev:?}");
    }
    assert_eq!(Fps::Fps24.frames(), 24);
    assert_eq!(Fps::Fps25.frames(), 25);
    assert_eq!(Fps::Fps29.frames(), 29);
    assert_eq!(Fps::Fps30.frames(), 30);
}

#[test]
fn bytes_are_compared_by_what_they_hold() {
    let a = vec![1u8, 2, 3];
    let b = vec![1u8, 2, 3];
    let left = TrackEvent { delta: 0, kind: TrackEventKind::SysEx(&a) };
    let right = TrackEvent { delta: 0, kind: TrackEventKind::SysEx(&b) };
    assert!(same_event(&left, &right));
    let shorter = TrackEvent { delta: 0, kind: TrackEventKind::SysEx(&b[..2]) };
    assert!(!same_event(&left, &shorter));
}
