//! Track events, and what tells them apart.

use vstd::prelude::*;

verus! {

/// Frame rate of an SMPTE time code.
#[derive(Clone, Copy, Debug, PartialEq, Eq, Hash, Structural)]
pub enum Fps {
    Fps24,
    Fps25,
    Fps29,
    Fps30,
}

/// An SMPTE time of the day, as carried by the *SMPTE Offset* meta event.
#[derive(Clone, Copy, Debug, PartialEq, Eq, Hash, Structural)]
pub struct SmpteTime {
    pub hour: u8,
    pub minute: u8,
    pub second: u8,
    pub frame: u8,
    pub subframe: u8,
    pub fps: Fps,
}

/// A channel voice message. Keys, velocities, controllers, values and
/// programs are 7-bit numbers; a pitch bend is a 14-bit number.
#[derive(Clone, Copy, Debug, PartialEq, Eq, Hash, Structural)]
pub enum MidiMessage {
    NoteOff { key: u8, vel: u8 },
    NoteOn { key: u8, vel: u8 },
    Aftertouch { key: u8, vel: u8 },
    Controller { controller: u8, value: u8 },
    ProgramChange { program: u8 },
    ChannelAftertouch { vel: u8 },
    PitchBend { bend: u16 },
}

/// A meta message. Text-like messages borrow their bytes.
#[derive(Clone, Copy, Debug, PartialEq, Eq, Hash)]
pub enum MetaMessage<'a> {
    TrackNumber(Option<u16>),
    Text(&'a [u8]),
    Copyright(&'a [u8]),
    TrackName(&'a [u8]),
    InstrumentName(&'a [u8]),
    Lyric(&'a [u8]),
    Marker(&'a [u8]),
    CuePoint(&'a [u8]),
    ProgramName(&'a [u8]),
    DeviceName(&'a [u8]),
    MidiChannel(u8),
    MidiPort(u8),
    EndOfTrack,
    /// Microseconds per quarter note, a 24-bit number.
    Tempo(u32),
    SmpteOffset(SmpteTime),
    TimeSignature(u8, u8, u8, u8),
    KeySignature(i8, bool),
    SequencerSpecific(&'a [u8]),
    Unknown(u8, &'a [u8]),
}

/// What a track event carries, without its timing.
#[derive(Clone, Copy, Debug, PartialEq, Eq, Hash)]
pub enum TrackEventKind<'a> {
    Midi { channel: u8, message: MidiMessage },
    SysEx(&'a [u8]),
    Escape(&'a [u8]),
    Meta(MetaMessage<'a>),
}

/// One event of a track: a delta time in pulses since the previous event of
/// the same track, and what happens then.
#[derive(Clone, Copy, Debug, PartialEq, Eq, Hash)]
pub struct TrackEvent<'a> {
    pub delta: u32,
    pub kind: TrackEventKind<'a>,
}

/// The number of MIDI channels.
pub const CHANNELS: u8 = 16;

/// The number of values that seven bits hold: keys, velocities, controllers
/// and their values, and programs stay below it.
pub const U7_LIMIT: u8 = 0x80;

/// The number of values that a pitch bend holds.
pub const BEND_LIMIT: u16 = 0x4000;

/// The number of values that a tempo holds.
pub const TEMPO_LIMIT: u32 = 0x100_0000;

/// The number of values that a delta time holds.
pub const DELTA_LIMIT: u32 = 0x1000_0000;

impl Fps {
    /// The number of frames in a second, rounded down.
    pub open spec fn spec_frames(self) -> u8 {
        match self {
            Fps::Fps24 => 24,
            Fps::Fps25 => 25,
            Fps::Fps29 => 29,
            Fps::Fps30 => 30,
        }
    }

    /// The number of frames in a second, rounded down.
    #[verifier::when_used_as_spec(spec_frames)]
    pub fn frames(self) -> (frames: u8)
        ensures
            frames == self.spec_frames(),
    {
        match self {
            Fps::Fps24 => 24,
            Fps::Fps25 => 25,
            Fps::Fps29 => 29,
            Fps::Fps30 => 30,
        }
    }
}

impl SmpteTime {
    /// Each part of the time lies within its unit.
    pub open spec fn wf(self) -> bool {
        &&& self.hour < 24
        &&& self.minute < 60
        &&& self.second < 60
        &&& self.frame < self.fps.spec_frames()
        &&& self.subframe < 100
    }
}

impl MidiMessage {
    /// Each number of the message fits into its bits.
    pub open spec fn wf(self) -> bool {
        match self {
            MidiMessage::NoteOff { key, vel } => key < U7_LIMIT && vel < U7_LIMIT,
            MidiMessage::NoteOn { key, vel } => key < U7_LIMIT && vel < U7_LIMIT,
            MidiMessage::Aftertouch { key, vel } => key < U7_LIMIT && vel < U7_LIMIT,
            MidiMessage::Controller { controller, value } => controller < U7_LIMIT && value
                < U7_LIMIT,
            MidiMessage::ProgramChange { program } => program < U7_LIMIT,
            MidiMessage::ChannelAftertouch { vel } => vel < U7_LIMIT,
            MidiMessage::PitchBend { bend } => bend < BEND_LIMIT,
        }
    }
}

impl<'a> MetaMessage<'a> {
    /// Each number of the message fits into its bits.
    pub open spec fn wf(self) -> bool {
        match self {
            MetaMessage::MidiChannel(channel) => channel < CHANNELS,
            MetaMessage::MidiPort(port) => port < U7_LIMIT,
            MetaMessage::Tempo(tempo) => tempo < TEMPO_LIMIT,
            MetaMessage::SmpteOffset(time) => time.wf(),
            _ => true,
        }
    }
}

impl<'a> TrackEventKind<'a> {
    /// Each number of the event fits into its bits.
    pub open spec fn wf(self) -> bool {
        match self {
            TrackEventKind::Midi { channel, message } => channel < CHANNELS && message.wf(),
            TrackEventKind::Meta(meta) => meta.wf(),
            _ => true,
        }
    }
}

impl<'a> TrackEvent<'a> {
    /// The event is one that a track can hold: its delta time and each of
    /// its numbers fit into their bits.
    pub open spec fn wf(self) -> bool {
        self.delta < DELTA_LIMIT && self.kind.wf()
    }

    /// Whether the event is one that a track can hold.
    pub fn is_valid(&self) -> (valid: bool)
        ensures
            valid == self.wf(),
    {
        if self.delta >= DELTA_LIMIT {
            return false;
        }
        match self.kind {
            TrackEventKind::Midi { channel, message } => channel < CHANNELS && match message {
                MidiMessage::NoteOff { key, vel } => key < U7_LIMIT && vel < U7_LIMIT,
                MidiMessage::NoteOn { key, vel } => key < U7_LIMIT && vel < U7_LIMIT,
                MidiMessage::Aftertouch { key, vel } => key < U7_LIMIT && vel < U7_LIMIT,
                MidiMessage::Controller { controller, value } => controller < U7_LIMIT && value
                    < U7_LIMIT,
                MidiMessage::ProgramChange { program } => program < U7_LIMIT,
                MidiMessage::ChannelAftertouch { vel } => vel < U7_LIMIT,
                MidiMessage::PitchBend { bend } => bend < BEND_LIMIT,
            },
            TrackEventKind::Meta(meta) => match meta {
                MetaMessage::MidiChannel(channel) => channel < CHANNELS,
                MetaMessage::MidiPort(port) => port < U7_LIMIT,
                MetaMessage::Tempo(tempo) => tempo < TEMPO_LIMIT,
                MetaMessage::SmpteOffset(time) => time.hour < 24 && time.minute < 60 && time.second
                    < 60 && time.frame < time.fps.frames() && time.subframe < 100,
                _ => true,
            },
            _ => true,
        }
    }
}

/// Every event of a track is one that a track can hold.
pub open spec fn track_wf(track: Seq<TrackEvent>) -> bool {
    forall|index: int| 0 <= index < track.len() ==> (#[trigger] track[index]).wf()
}

/// A *Note On* message with its channel.
#[derive(Clone, Copy, Debug, PartialEq, Eq, Structural)]
pub struct Note {
    pub channel: u8,
    pub key: u8,
    pub vel: u8,
}

impl Note {
    /// A *Note On* with velocity 0 means *Note Off*.
    pub fn is_on(&self) -> (on: bool)
        ensures
            on == (self.vel > 0),
    {
        self.vel > 0
    }
}

/// The *Note On* message of an event, whatever its velocity.
pub open spec fn spec_note(ev: TrackEvent) -> Option<Note> {
    match ev.kind {
        TrackEventKind::Midi { channel, message: MidiMessage::NoteOn { key, vel } } => Some(
            Note { channel, key, vel },
        ),
        _ => None,
    }
}

/// The *Note On* message of an event, whatever its velocity.
pub fn note(ev: &TrackEvent) -> (n: Option<Note>)
    ensures
        n == spec_note(*ev),
{
    if let TrackEventKind::Midi { channel, message: MidiMessage::NoteOn { vel, key } } = ev.kind {
        return Some(Note { channel, key, vel });
    }
    None
}

/// The *Note On* message of an event, if its velocity is above 0.
pub open spec fn spec_note_on(ev: TrackEvent) -> Option<Note> {
    match spec_note(ev) {
        Some(n) if n.vel > 0 => Some(n),
        _ => None,
    }
}

/// The *Note On* message of an event that starts a note.
pub fn note_on(ev: &TrackEvent) -> (n: Option<Note>)
    ensures
        n == spec_note_on(*ev),
{
    match note(ev) {
        Some(n) if n.is_on() => Some(n),
        _ => None,
    }
}

/// A controller of one channel.
#[derive(Clone, Copy, Debug, PartialEq, Eq, Structural)]
pub struct Controller {
    pub channel: u8,
    pub controller: u8,
}

/// The controller that an event changes.
pub open spec fn spec_controller(ev: TrackEvent) -> Option<Controller> {
    match ev.kind {
        TrackEventKind::Midi { channel, message: MidiMessage::Controller { controller, value } } => {
            Some(Controller { channel, controller })
        },
        _ => None,
    }
}

/// The controller that an event changes.
pub fn controller(ev: &TrackEvent) -> (c: Option<Controller>)
    ensures
        c == spec_controller(*ev),
{
    if let TrackEventKind::Midi {
        channel,
        message: MidiMessage::Controller { controller, value: _ },
    } = ev.kind {
        return Some(Controller { channel, controller });
    }
    None
}

/// Whether two byte strings hold the same bytes.
fn same_bytes(a: &[u8], b: &[u8]) -> (same: bool)
    ensures
        same == (a == b),
{
    broadcast use vstd::slice::group_slice_axioms;

    if a.len() != b.len() {
        return false;
    }
    let mut i: usize = 0;
    while i < a.len()
        invariant
            i <= a.len(),
            a.len() == b.len(),
            forall|j: int| 0 <= j < i ==> a[j] == b[j],
        decreases a.len() - i,
    {
        if a[i] != b[i] {
            return false;
        }
        i += 1;
    }
    assert(a =~= b);
    true
}

/// Whether two meta messages are the same message with the same data.
fn same_meta(a: &MetaMessage, b: &MetaMessage) -> (same: bool)
    ensures
        same == (*a == *b),
{
    match (*a, *b) {
        (MetaMessage::TrackNumber(x), MetaMessage::TrackNumber(y)) => match (x, y) {
            (Some(m), Some(n)) => m == n,
            (None, None) => true,
            _ => false,
        },
        (MetaMessage::Text(x), MetaMessage::Text(y)) => same_bytes(x, y),
        (MetaMessage::Copyright(x), MetaMessage::Copyright(y)) => same_bytes(x, y),
        (MetaMessage::TrackName(x), MetaMessage::TrackName(y)) => same_bytes(x, y),
        (MetaMessage::InstrumentName(x), MetaMessage::InstrumentName(y)) => same_bytes(x, y),
        (MetaMessage::Lyric(x), MetaMessage::Lyric(y)) => same_bytes(x, y),
        (MetaMessage::Marker(x), MetaMessage::Marker(y)) => same_bytes(x, y),
        (MetaMessage::CuePoint(x), MetaMessage::CuePoint(y)) => same_bytes(x, y),
        (MetaMessage::ProgramName(x), MetaMessage::ProgramName(y)) => same_bytes(x, y),
        (MetaMessage::DeviceName(x), MetaMessage::DeviceName(y)) => same_bytes(x, y),
        (MetaMessage::MidiChannel(x), MetaMessage::MidiChannel(y)) => x == y,
        (MetaMessage::MidiPort(x), MetaMessage::MidiPort(y)) => x == y,
        (MetaMessage::EndOfTrack, MetaMessage::EndOfTrack) => true,
        (MetaMessage::Tempo(x), MetaMessage::Tempo(y)) => x == y,
        (MetaMessage::SmpteOffset(x), MetaMessage::SmpteOffset(y)) => x == y,
        (MetaMessage::TimeSignature(a0, a1, a2, a3), MetaMessage::TimeSignature(b0, b1, b2, b3)) => {
            a0 == b0 && a1 == b1 && a2 == b2 && a3 == b3
        },
        (MetaMessage::KeySignature(a0, a1), MetaMessage::KeySignature(b0, b1)) => {
            a0 == b0 && a1 == b1
        },
        (MetaMessage::SequencerSpecific(x), MetaMessage::SequencerSpecific(y)) => same_bytes(x, y),
        (MetaMessage::Unknown(a0, x), MetaMessage::Unknown(b0, y)) => a0 == b0 && same_bytes(x, y),
        _ => false,
    }
}

/// Whether two events carry the same thing.
fn same_kind(a: &TrackEventKind, b: &TrackEventKind) -> (same: bool)
    ensures
        same == (*a == *b),
{
    match (*a, *b) {
        (
            TrackEventKind::Midi { channel: c0, message: m0 },
            TrackEventKind::Midi { channel: c1, message: m1 },
        ) => c0 == c1 && m0 == m1,
        (TrackEventKind::SysEx(x), TrackEventKind::SysEx(y)) => same_bytes(x, y),
        (TrackEventKind::Escape(x), TrackEventKind::Escape(y)) => same_bytes(x, y),
        (TrackEventKind::Meta(x), TrackEventKind::Meta(y)) => same_meta(&x, &y),
        _ => false,
    }
}

/// Full structural equality of two events, delta times included.
pub fn same_event(a: &TrackEvent, b: &TrackEvent) -> (same: bool)
    ensures
        same == (*a == *b),
{
    a.delta == b.delta && same_kind(&a.kind, &b.kind)
}

} // verus!
