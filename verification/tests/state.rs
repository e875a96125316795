use mly::event::{MetaMessage, MidiMessage, TrackEvent, TrackEventKind};
use mly::state::MidiState;

fn midi(channel: u8, message: MidiMessage) -> TrackEvent<'static> {
    TrackEvent { delta: 7, kind: TrackEventKind::Midi { channel, message } }
}

#[test]
fn state_before_the_first_event() {
    let state = MidiState::new();
    assert_eq!(state.tempo, 0);
    for channel in state.ch.iter() {
        assert_eq!(channel.program, 0);
        assert_eq!(channel.bend, 0x2000);
        assert!(channel.cc.iter().all(|&value| value == 0));
    }
    assert!(state.same(&MidiState::new()));
}

#[test]
fn update_changes_what_the_event_addresses() {
    let mut state = MidiState::new();
    state.update(&midi(3, MidiMessage::Controller { controller: 7, value: 100 }));
    let mut expected = MidiState::new();
    expected.ch[3].cc[7] = 100;
    assert_eq!(state, expected);
    state.update(&midi(15, MidiMessage::ProgramChange { program: 5 }));
    expected.ch[15].program = 5;
    assert_eq!(state, expected);
    state.update(&midi(0, MidiMessage::PitchBend { bend: 0x3FFF }));
    expected.ch[0].bend = 0x3FFF;
    assert_eq!(state, expected);
    state.update(&TrackEvent { delta: 0, kind: TrackEventKind::Meta(MetaMessage::Tempo(500_000)) });
    expected.tempo = 500_000;
    assert_eq!(state, expected);
    state.update(&midi(3, MidiMessage::Controller { controller: 127, value: 1 }));
    expected.ch[3].cc[127] = 1;
    assert_eq!(state, expected);
    assert!(state.same(&expected));
    assert!(!state.same(&MidiState::new()));
}

#[test]
fn other_events_change_nothing() {
    let mut state = MidiState::new();
    let events = [
        midi(0, MidiMessage::NoteOn { key: 60, vel: 100 }),
        midi(0, MidiMessage::NoteOff { key: 60, vel: 0 }),
        midi(0, MidiMessage::Aftertouch { key: 60, vel: 1 }),
        midi(0, MidiMessage::ChannelAftertouch { vel: 1 }),
        midi(16, MidiMessage::Controller { controller: 7, value: 100 }),
        midi(0, MidiMessage::Controller { controller: 128, value: 100 }),
        midi(200, MidiMessage::ProgramChange { program: 5 }),
        TrackEvent { delta: 0, kind: TrackEventKind::Meta(MetaMessage::EndOfTrack) },
        TrackEvent { delta: 0, kind: TrackEventKind::Meta(MetaMessage::TrackName(b"x")) },
        TrackEvent { delta: 0, kind: TrackEventKind::SysEx(&[1, 2, 3]) },
        TrackEvent { delta: 0, kind: TrackEventKind::Escape(&[]) },
    ];
    for ev in &events {
        state.update(ev);
        assert_eq!(state, MidiState::new());
    }
}

#[test]
fn channels_are_compared_in_every_part() {
    let a = MidiState::new();
    let mut b = MidiState::new();
    assert!(a.ch[0].same(&b.ch[0]));
    b.ch[0].cc[127] = 1;
    assert!(!a.ch[0].same(&b.ch[0]));
    assert!(a.ch[1].same(&b.ch[1]));
    assert!(!a.same(&b));
    let mut c = MidiState::new();
    c.ch[15].bend = 0;
    assert!(!a.ch[15].same(&c.ch[15]));
    assert!(!a.same(&c));
    let mut d = MidiState::new();
    d.ch[7].program = 1;
    assert!(!a.ch[7].same(&d.ch[7]));
    let mut e = MidiState::new();
    e.tempo = 1;
    assert!(!a.same(&e));
}
