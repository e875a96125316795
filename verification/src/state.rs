//! Per-channel state tracking.

use vstd::prelude::*;
use crate::event::{MetaMessage, MidiMessage, TrackEvent, TrackEventKind};

verus! {

/// Raw value of a pitch bend that bends nothing.
pub const BEND_MID: u16 = 0x2000;

/// What a synthesizer remembers of one channel.
#[derive(Clone, Copy, Debug, PartialEq)]
pub struct MidiStateOnChannel {
    pub cc: [u8; 128],
    pub program: u8,
    pub bend: u16,
}

/// What a synthesizer remembers of a sequence: the state of each channel and
/// the tempo.
#[derive(Clone, Copy, Debug, PartialEq)]
pub struct MidiState {
    pub ch: [MidiStateOnChannel; 16],
    pub tempo: u32,
}

/// The state of one channel as a mathematical value.
pub struct ChannelModel {
    pub cc: Seq<u8>,
    pub program: u8,
    pub bend: u16,
}

/// The state of a sequence as a mathematical value.
pub struct StateModel {
    pub ch: Seq<ChannelModel>,
    pub tempo: u32,
}

impl View for MidiStateOnChannel {
    type V = ChannelModel;

    open spec fn view(&self) -> ChannelModel {
        ChannelModel { cc: self.cc@, program: self.program, bend: self.bend }
    }
}

impl View for MidiState {
    type V = StateModel;

    open spec fn view(&self) -> StateModel {
        StateModel { ch: Seq::new(16, |i: int| self.ch[i]@), tempo: self.tempo }
    }
}

impl ChannelModel {
    /// A channel on which nothing has happened yet.
    pub open spec fn initial() -> ChannelModel {
        ChannelModel { cc: Seq::new(128, |i: int| 0u8), program: 0, bend: BEND_MID }
    }
}

impl StateModel {
    /// The state before the first event.
    pub open spec fn initial() -> StateModel {
        StateModel { ch: Seq::new(16, |i: int| ChannelModel::initial()), tempo: 0 }
    }

    /// The state has 16 channels of 128 controllers each.
    pub open spec fn wf(self) -> bool {
        &&& self.ch.len() == 16
        &&& forall|c: int| 0 <= c < 16 ==> (#[trigger] self.ch[c]).cc.len() == 128
    }

    /// The state after one more event. Only a controller change, a program
    /// change, a pitch bend and a tempo change leave a trace, each in its own
    /// place; any other event changes nothing.
    pub open spec fn apply(self, ev: TrackEvent) -> StateModel {
        match ev.kind {
            TrackEventKind::Midi { channel, message } => if channel < 16 {
                let channel_before = self.ch[channel as int];
                match message {
                    MidiMessage::Controller { controller, value } => if controller < 128 {
                        StateModel {
                            ch: self.ch.update(
                                channel as int,
                                ChannelModel {
                                    cc: channel_before.cc.update(controller as int, value),
                                    ..channel_before
                                },
                            ),
                            ..self
                        }
                    } else {
                        self
                    },
                    MidiMessage::ProgramChange { program } => StateModel {
                        ch: self.ch.update(channel as int, ChannelModel { program, ..channel_before }),
                        ..self
                    },
                    MidiMessage::PitchBend { bend } => StateModel {
                        ch: self.ch.update(channel as int, ChannelModel { bend, ..channel_before }),
                        ..self
                    },
                    _ => self,
                }
            } else {
                self
            },
            TrackEventKind::Meta(MetaMessage::Tempo(tempo)) => StateModel { tempo, ..self },
            _ => self,
        }
    }

    /// The state after the first `n` events of a track.
    pub open spec fn after(track: Seq<TrackEvent>, n: int) -> StateModel
        decreases n,
    {
        if n <= 0 {
            StateModel::initial()
        } else {
            StateModel::after(track, n - 1).apply(track[n - 1])
        }
    }
}

/// Events leave a state with its 16 channels of 128 controllers each.
pub proof fn lemma_after_is_wf(track: Seq<TrackEvent>, n: int)
    ensures
        StateModel::after(track, n).wf(),
    decreases n,
{
    if n > 0 {
        lemma_after_is_wf(track, n - 1);
    }
}

impl MidiStateOnChannel {
    /// Whether two channels are in the same state.
    pub fn same(&self, other: &MidiStateOnChannel) -> (same: bool)
        ensures
            same == (self@ == other@),
    {
        if self.program != other.program || self.bend != other.bend {
            return false;
        }
        let mut i: usize = 0;
        while i < 128
            invariant
                i <= 128,
                forall|j: int| 0 <= j < i ==> self.cc[j] == other.cc[j],
            decreases 128 - i,
        {
            if self.cc[i] != other.cc[i] {
                assert(self@.cc[i as int] != other@.cc[i as int]);
                return false;
            }
            i += 1;
        }
        assert(self@.cc =~= other@.cc);
        true
    }
}

impl MidiState {
    /// Whether two states are the same in every channel and in tempo.
    pub fn same(&self, other: &MidiState) -> (same: bool)
        ensures
            same == (self@ == other@),
    {
        if self.tempo != other.tempo {
            return false;
        }
        let mut c: usize = 0;
        while c < 16
            invariant
                c <= 16,
                forall|j: int| 0 <= j < c ==> self@.ch[j] == other@.ch[j],
            decreases 16 - c,
        {
            if !self.ch[c].same(&other.ch[c]) {
                assert(self@.ch[c as int] != other@.ch[c as int]);
                return false;
            }
            c += 1;
        }
        assert(self@.ch =~= other@.ch);
        true
    }

    /// The state before the first event: every controller at 0, every
    /// program 0, no pitch bent, and no tempo.
    pub fn new() -> (state: MidiState)
        ensures
            state@ == StateModel::initial(),
            state@.wf(),
    {
        let state = MidiState {
            ch: [MidiStateOnChannel { cc: [0u8;128], program: 0, bend: BEND_MID };16],
            tempo: 0,
        };
        assert(state@.ch =~= StateModel::initial().ch) by {
            assert forall|c: int| 0 <= c < 16 implies state@.ch[c] == ChannelModel::initial() by {
                assert(state.ch[c].cc@ =~= ChannelModel::initial().cc);
            }
        }
        state
    }

    /// Takes one more event into the state.
    pub fn update(&mut self, ev: &TrackEvent)
        ensures
            final(self)@ == old(self)@.apply(*ev),
            final(self)@.wf(),
    {
        if let TrackEventKind::Midi { channel, message } = ev.kind {
            if channel < 16 {
                let c = channel as usize;
                let mut on_channel = self.ch[c];
                match message {
                    MidiMessage::Controller { controller, value } => {
                        if controller < 128 {
                            on_channel.cc[controller as usize] = value;
                        }
                    },
                    MidiMessage::ProgramChange { program } => {
                        on_channel.program = program;
                    },
                    MidiMessage::PitchBend { bend } => {
                        on_channel.bend = bend;
                    },
                    _ => {},
                }
                self.ch[c] = on_channel;
            }
        }
        if let TrackEventKind::Meta(MetaMessage::Tempo(tempo)) = ev.kind {
            self.tempo = tempo;
        }
        assert(self@.ch =~= old(self)@.apply(*ev).ch);
    }
}

} // verus!
