//! Timekeeping in various units.

use vstd::prelude::*;
use crate::event::{MetaMessage, TrackEvent, TrackEventKind};
use crate::smf::{Smf, SmfModel, Timing};
use crate::text::{decimal, decimal_string, decimal_width, digits, pad_left, padded, text_padded};
use vstd::string::StringExecFns;

verus! {

/// Nanoseconds in one microsecond.
pub const NANOS_PER_MICRO: u64 = 1_000;

/// The longest quarter note that a tempo event can ask for, in nanoseconds.
pub const MAX_QN_NANOS: u64 = 4_294_967_295_000;

/// A point in a track as a mathematical value: the pulse, the time that has
/// passed since the first tempo event in nanoseconds, and the length of a
/// quarter note in nanoseconds as the last tempo event has set it.
pub struct TimeModel {
    pub pulse: nat,
    pub realtime: Option<nat>,
    pub qn_duration: Option<nat>,
    pub ppqn: nat,
    pub samplerate: Option<u32>,
}

/// The tempo that an event sets, in microseconds per quarter note.
pub open spec fn tempo_of(ev: TrackEvent) -> Option<u32> {
    match ev.kind {
        TrackEventKind::Meta(MetaMessage::Tempo(tempo)) => Some(tempo),
        _ => None,
    }
}

impl TimeModel {
    /// The start of a track.
    pub open spec fn start(ppqn: nat, samplerate: Option<u32>) -> TimeModel {
        TimeModel { pulse: 0, realtime: None, qn_duration: None, ppqn, samplerate }
    }

    /// The time runs from the first tempo event on.
    pub open spec fn wf(self) -> bool {
        &&& self.ppqn >= 1
        &&& self.realtime is Some <==> self.qn_duration is Some
    }

    /// The point that one more event leads to. The pulse moves on by the
    /// delta time of the event, and so does the time, at the tempo that held
    /// before the event; a tempo that the event sets holds from then on, and
    /// the first one starts the time at 0.
    pub open spec fn advance(self, ev: TrackEvent) -> TimeModel {
        TimeModel {
            pulse: self.pulse + ev.delta as nat,
            realtime: match (self.realtime, self.qn_duration) {
                (Some(realtime), Some(qn_duration)) => Some(
                    realtime + (qn_duration * ev.delta / (self.ppqn as int)) as nat,
                ),
                _ => if tempo_of(ev) is Some {
                    Some(0)
                } else {
                    None
                },
            },
            qn_duration: match tempo_of(ev) {
                Some(tempo) => Some((tempo * NANOS_PER_MICRO) as nat),
                None => self.qn_duration,
            },
            ..self
        }
    }

    /// The point that the events of a track lead to, one after the other.
    pub open spec fn after(self, track: Seq<TrackEvent>) -> TimeModel
        decreases track.len(),
    {
        if track.len() == 0 {
            self
        } else {
            self.after(track.drop_last()).advance(track.last())
        }
    }
}

impl TimeModel {
    /// The number of whole samples that a recording has at this point, where
    /// the time runs and a sample rate is given.
    pub open spec fn sample_floor(self) -> Option<nat> {
        match (self.samplerate, self.realtime) {
            (Some(rate), Some(realtime)) => Some((rate * realtime / 1_000_000_000) as nat),
            _ => None,
        }
    }

    /// The sample of a recording at this point in hundredths of a sample,
    /// rounded to the nearest.
    pub open spec fn sample_hundredths(self) -> Option<nat> {
        match (self.samplerate, self.realtime) {
            (Some(rate), Some(realtime)) => Some(
                ((rate * realtime + 5_000_000) / 10_000_000) as nat,
            ),
            _ => None,
        }
    }

    /// The time in milliseconds, rounded to the nearest from whole
    /// microseconds.
    pub open spec fn total_millis(self) -> Option<nat> {
        match self.realtime {
            Some(realtime) => Some(((realtime / 1_000 + 500) / 1_000) as nat),
            None => None,
        }
    }
}

/// The same number, of the type that specifications count in.
pub open spec fn as_nat(n: Option<u128>) -> Option<nat> {
    match n {
        Some(n) => Some(n as nat),
        None => None,
    }
}

/// The sum of the delta times of a track.
pub open spec fn total_delta(track: Seq<TrackEvent>) -> nat
    decreases track.len(),
{
    if track.len() == 0 {
        0
    } else {
        total_delta(track.drop_last()) + track.last().delta as nat
    }
}

/// The events of a track move the pulse on by the sum of their delta times.
pub proof fn lemma_pulse_is_total_delta(time: TimeModel, track: Seq<TrackEvent>)
    ensures
        time.after(track).pulse == time.pulse + total_delta(track),
    decreases track.len(),
{
    if track.len() > 0 {
        lemma_pulse_is_total_delta(time, track.drop_last());
    }
}

/// Events keep the time well-formed.
pub proof fn lemma_after_is_wf(time: TimeModel, track: Seq<TrackEvent>)
    requires
        time.wf(),
    ensures
        time.after(track).wf(),
        time.after(track).ppqn == time.ppqn,
        time.after(track).samplerate == time.samplerate,
    decreases track.len(),
{
    if track.len() > 0 {
        lemma_after_is_wf(time, track.drop_last());
    }
}

/// Whether a track has a tempo event.
pub open spec fn has_tempo(track: Seq<TrackEvent>) -> bool {
    exists|index: int| 0 <= index < track.len() && tempo_of(#[trigger] track[index]) is Some
}

/// At the end of a track the time runs, and a quarter note has a length, if
/// and only if the track has a tempo event.
pub proof fn lemma_time_runs_from_first_tempo(
    ppqn: nat,
    samplerate: Option<u32>,
    track: Seq<TrackEvent>,
)
    ensures
        TimeModel::start(ppqn, samplerate).after(track).realtime is Some <==> has_tempo(track),
        TimeModel::start(ppqn, samplerate).after(track).qn_duration is Some <==> has_tempo(track),
    decreases track.len(),
{
    if track.len() > 0 {
        let before = track.drop_last();
        lemma_time_runs_from_first_tempo(ppqn, samplerate, before);
        if has_tempo(before) {
            let index = choose|index: int|
                0 <= index < before.len() && tempo_of(#[trigger] before[index]) is Some;
            assert(tempo_of(track[index]) is Some);
        }
        if tempo_of(track.last()) is Some {
            assert(tempo_of(track[track.len() - 1]) is Some);
        }
        if has_tempo(track) {
            let index = choose|index: int|
                0 <= index < track.len() && tempo_of(#[trigger] track[index]) is Some;
            if index < before.len() {
                assert(tempo_of(before[index]) is Some);
            }
        }
    }
}

/// The sum of the delta times grows with the track.
pub proof fn lemma_total_delta_grows(track: Seq<TrackEvent>, n: int)
    requires
        0 <= n <= track.len(),
    ensures
        total_delta(track.take(n)) <= total_delta(track),
    decreases track.len() - n,
{
    if n < track.len() {
        lemma_total_delta_grows(track, n + 1);
        assert(track.take(n + 1).drop_last() =~= track.take(n));
    } else {
        assert(track.take(n) =~= track);
    }
}

/// A point in a track: its pulse, and, from the first tempo event on, its
/// time.
#[derive(Clone, Copy, Debug)]
pub struct MidiTime {
    pulse: u64,
    realtime: Option<u128>,
    qn_duration: Option<u64>,  // a.k.a. "tempo"
    ppqn: u16,
    samplerate: Option<u32>,
}

impl View for MidiTime {
    type V = TimeModel;

    closed spec fn view(&self) -> TimeModel {
        TimeModel {
            pulse: self.pulse as nat,
            realtime: match self.realtime {
                Some(realtime) => Some(realtime as nat),
                None => None,
            },
            qn_duration: match self.qn_duration {
                Some(qn_duration) => Some(qn_duration as nat),
                None => None,
            },
            ppqn: self.ppqn as nat,
            samplerate: self.samplerate,
        }
    }
}

impl MidiTime {
    #[verifier::type_invariant]
    spec fn inv(self) -> bool {
        &&& self.ppqn >= 1
        &&& self.realtime is Some <==> self.qn_duration is Some
        &&& self.qn_duration matches Some(qn_duration) ==> qn_duration <= MAX_QN_NANOS
        &&& self.realtime matches Some(realtime) ==> realtime <= self.pulse * MAX_QN_NANOS
    }

    /// The start of a track with a metrical timing.
    pub fn new(timing: &Timing, samplerate: Option<u32>) -> (time: MidiTime)
        requires
            timing.spec_ppqn() is Some,
        ensures
            time@ == TimeModel::start(timing.spec_ppqn().unwrap() as nat, samplerate),
    {
        let ppqn = match timing {
            Timing::Metrical(ppqn) => *ppqn,
            Timing::Timecode(_, _) => 1,
        };
        MidiTime { pulse: 0, realtime: None, qn_duration: None, ppqn, samplerate }
    }

    /// The pulse: the sum of the delta times up to this point.
    pub fn pulse(&self) -> (pulse: u64)
        ensures
            pulse == self@.pulse,
    {
        self.pulse
    }

    /// The time since the first tempo event, in nanoseconds.
    pub fn realtime(&self) -> (realtime: Option<u128>)
        ensures
            as_nat(realtime) == self@.realtime,
    {
        self.realtime
    }

    /// The number of whole samples at this point.
    fn sample_floor(&self) -> (sample: Option<u128>)
        ensures
            as_nat(sample) == self@.sample_floor(),
    {
        proof {
            use_type_invariant(self);
        }
        match (self.samplerate, self.realtime) {
            (Some(rate), Some(realtime)) => {
                assert(realtime <= 0xFFFF_FFFF_FFFF_FFFF * MAX_QN_NANOS) by (nonlinear_arith)
                    requires
                        realtime <= self.pulse * MAX_QN_NANOS,
                        self.pulse <= 0xFFFF_FFFF_FFFF_FFFF,
                ;
                let secs = realtime / 1_000_000_000;
                let nanos = realtime % 1_000_000_000;
                assert(rate * secs <= 0xFFFF_FFFF * 79_228_162_495_817_593_515_539) by (nonlinear_arith)
                    requires
                        rate <= 0xFFFF_FFFF,
                        secs <= 79_228_162_495_817_593_515_539,
                ;
                assert(rate * nanos <= 0xFFFF_FFFF * 1_000_000_000) by (nonlinear_arith)
                    requires
                        rate <= 0xFFFF_FFFF,
                        nanos <= 1_000_000_000,
                ;
                proof {
                    let whole = rate as int * secs as int;
                    let part = rate as int * nanos as int;
                    assert(rate * realtime == part + whole * 1_000_000_000) by (nonlinear_arith)
                        requires
                            realtime == secs * 1_000_000_000 + nanos,
                            whole == rate * secs,
                            part == rate * nanos,
                    ;
                    vstd::arithmetic::div_mod::lemma_hoist_over_denominator(
                        part,
                        whole,
                        1_000_000_000,
                    );
                }
                Some(rate as u128 * nanos / 1_000_000_000 + rate as u128 * secs)
            },
            _ => None,
        }
    }

    /// The sample of a recording at this point in hundredths of a sample,
    /// rounded to the nearest, where the time runs and a sample rate is given.
    pub fn sample_hundredths(&self) -> (sample: Option<u128>)
        ensures
            as_nat(sample) == self@.sample_hundredths(),
    {
        proof {
            use_type_invariant(self);
        }
        match (self.samplerate, self.realtime) {
            (Some(rate), Some(realtime)) => {
                assert(realtime <= 0xFFFF_FFFF_FFFF_FFFF * MAX_QN_NANOS) by (nonlinear_arith)
                    requires
                        realtime <= self.pulse * MAX_QN_NANOS,
                        self.pulse <= 0xFFFF_FFFF_FFFF_FFFF,
                ;
                let parts = realtime / 10_000_000;
                let nanos = realtime % 10_000_000;
                assert(rate * parts <= 0xFFFF_FFFF * 7_922_816_249_581_759_351_553_953) by (nonlinear_arith)
                    requires
                        rate <= 0xFFFF_FFFF,
                        parts <= 7_922_816_249_581_759_351_553_953,
                ;
                assert(rate * nanos <= 0xFFFF_FFFF * 10_000_000) by (nonlinear_arith)
                    requires
                        rate <= 0xFFFF_FFFF,
                        nanos <= 10_000_000,
                ;
                proof {
                    let whole = rate as int * parts as int;
                    let part = rate as int * nanos as int + 5_000_000;
                    assert(rate * realtime + 5_000_000 == part + whole * 10_000_000) by (nonlinear_arith)
                        requires
                            realtime == parts * 10_000_000 + nanos,
                            whole == rate * parts,
                            part == rate * nanos + 5_000_000,
                    ;
                    vstd::arithmetic::div_mod::lemma_hoist_over_denominator(part, whole, 10_000_000);
                }
                Some((rate as u128 * nanos + 5_000_000) / 10_000_000 + rate as u128 * parts)
            },
            _ => None,
        }
    }

    /// The time in milliseconds, rounded to the nearest from whole
    /// microseconds.
    fn total_millis(&self) -> (millis: Option<u128>)
        ensures
            as_nat(millis) == self@.total_millis(),
    {
        proof {
            use_type_invariant(self);
        }
        match self.realtime {
            Some(realtime) => {
                assert(realtime <= 0xFFFF_FFFF_FFFF_FFFF * MAX_QN_NANOS) by (nonlinear_arith)
                    requires
                        realtime <= self.pulse * MAX_QN_NANOS,
                        self.pulse <= 0xFFFF_FFFF_FFFF_FFFF,
                ;
                Some((realtime / 1_000 + 500) / 1_000)
            },
            None => None,
        }
    }

    /// The point that one more event leads to.
    pub fn advance(self, ev: &TrackEvent) -> (next: MidiTime)
        requires
            self@.pulse + ev.delta <= u64::MAX,
        ensures
            next@ == self@.advance(*ev),
    {
        proof {
            use_type_invariant(&self);
        }
        let pulse = self.pulse + ev.delta as u64;
        let tempo = match ev.kind {
            TrackEventKind::Meta(MetaMessage::Tempo(tempo)) => Some(tempo),
            _ => None,
        };
        let realtime = match (self.realtime, self.qn_duration) {
            (Some(realtime), Some(qn_duration)) => {
                assert(qn_duration * ev.delta <= 0xFFFF_FFFF_FFFF_FFFF * 0xFFFF_FFFF) by (nonlinear_arith)
                    requires
                        qn_duration <= 0xFFFF_FFFF_FFFF_FFFF,
                        ev.delta <= 0xFFFF_FFFF,
                ;
                let passed = (qn_duration as u128) * (ev.delta as u128) / (self.ppqn as u128);
                assert(passed <= ev.delta * MAX_QN_NANOS) by (nonlinear_arith)
                    requires
                        passed == (qn_duration as int) * (ev.delta as int) / (self.ppqn as int),
                        qn_duration <= MAX_QN_NANOS,
                        self.ppqn >= 1,
                ;
                assert(realtime + passed <= pulse * MAX_QN_NANOS) by (nonlinear_arith)
                    requires
                        realtime <= self.pulse * MAX_QN_NANOS,
                        passed <= ev.delta * MAX_QN_NANOS,
                        pulse == self.pulse + ev.delta,
                ;
                Some(realtime + passed)
            },
            _ => match tempo {
                Some(_) => Some(0),
                None => None,
            },
        };
        let qn_duration = match tempo {
            Some(tempo) => Some(tempo as u64 * NANOS_PER_MICRO),
            None => self.qn_duration,
        };
        MidiTime { pulse, realtime, qn_duration, ppqn: self.ppqn, samplerate: self.samplerate }
    }

    /// The point that the events of a track lead to.
    pub fn advance_through(self, track: &[TrackEvent]) -> (end: MidiTime)
        requires
            self@.pulse + total_delta(track@) <= u64::MAX,
        ensures
            end@ == self@.after(track@),
            end@.pulse == self@.pulse + total_delta(track@),
    {
        let mut time = self;
        let mut i: usize = 0;
        while i < track.len()
            invariant
                i <= track.len(),
                self@.pulse + total_delta(track@) <= u64::MAX,
                time@ == self@.after(track@.take(i as int)),
            decreases track.len() - i,
        {
            proof {
                assert(track@.take(i + 1).drop_last() =~= track@.take(i as int));
                lemma_pulse_is_total_delta(self@, track@.take(i as int));
                lemma_pulse_is_total_delta(self@, track@.take(i + 1));
                lemma_total_delta_grows(track@, i + 1);
            }
            time = time.advance(&track[i]);
            i += 1;
        }
        proof {
            assert(track@.take(i as int) =~= track@);
            lemma_pulse_is_total_delta(self@, track@);
        }
        time
    }
}

/// The track whose end is the end of a sequence: the one that ends at the
/// latest pulse, and of several such tracks the last one.
pub open spec fn end_track(tracks: Seq<Seq<TrackEvent>>) -> Option<int>
    decreases tracks.len(),
{
    if tracks.len() == 0 {
        None
    } else {
        match end_track(tracks.drop_last()) {
            Some(before) if total_delta(tracks[before]) > total_delta(tracks.last()) => Some(before),
            _ => Some(tracks.len() - 1),
        }
    }
}

/// The pulse at which a sequence ends.
pub open spec fn end_pulse(tracks: Seq<Seq<TrackEvent>>) -> nat {
    match end_track(tracks) {
        Some(index) => total_delta(tracks[index]),
        None => 0,
    }
}

/// The point at which a sequence ends, counted from `start`.
pub open spec fn end_time(tracks: Seq<Seq<TrackEvent>>, start: TimeModel) -> TimeModel {
    match end_track(tracks) {
        Some(index) => start.after(tracks[index]),
        None => start,
    }
}

/// No track ends behind the end of its sequence, and no track behind the
/// end track ends with it.
pub proof fn lemma_end_track(tracks: Seq<Seq<TrackEvent>>)
    ensures
        tracks.len() == 0 <==> end_track(tracks) is None,
        end_track(tracks) matches Some(index) ==> 0 <= index < tracks.len(),
        forall|i: int| 0 <= i < tracks.len() ==> total_delta(#[trigger] tracks[i]) <= end_pulse(tracks),
        forall|i: int|
            end_track(tracks) matches Some(index) && index < i < tracks.len() ==> total_delta(
                #[trigger] tracks[i],
            ) < end_pulse(tracks),
    decreases tracks.len(),
{
    if tracks.len() > 0 {
        let before = tracks.drop_last();
        lemma_end_track(before);
        assert forall|i: int| 0 <= i < tracks.len() implies total_delta(#[trigger] tracks[i])
            <= end_pulse(tracks) by {
            if i < before.len() {
                assert(before[i] == tracks[i]);
            }
        }
        assert forall|i: int|
            end_track(tracks) matches Some(index) && index < i < tracks.len() implies total_delta(
            #[trigger] tracks[i],
        ) < end_pulse(tracks) by {
            if i < before.len() {
                assert(before[i] == tracks[i]);
            }
        }
    }
}

/// Every track of a sequence ends at a pulse that a 64-bit number holds.
pub open spec fn pulses_fit(tracks: Seq<Seq<TrackEvent>>) -> bool {
    forall|i: int| 0 <= i < tracks.len() ==> total_delta(#[trigger] tracks[i]) <= u64::MAX
}

/// The pulse at which a track ends, where a 64-bit number holds it.
pub fn checked_total_delta(track: &[TrackEvent]) -> (total: Option<u64>)
    ensures
        match total {
            Some(total) => total == total_delta(track@),
            None => total_delta(track@) > u64::MAX,
        },
{
    let mut total: u64 = 0;
    let mut i: usize = 0;
    while i < track.len()
        invariant
            i <= track.len(),
            total == total_delta(track@.take(i as int)),
        decreases track.len() - i,
    {
        proof {
            assert(track@.take(i + 1).drop_last() =~= track@.take(i as int));
            lemma_total_delta_grows(track@, i + 1);
        }
        total = match total.checked_add(track[i].delta as u64) {
            Some(total) => total,
            None => {
                return None;
            },
        };
        i += 1;
    }
    proof {
        assert(track@.take(i as int) =~= track@);
    }
    Some(total)
}

/// Whether every track of a sequence ends at a pulse that a 64-bit number
/// holds.
pub fn tracks_fit(smf: &Smf) -> (fit: bool)
    ensures
        fit == pulses_fit(smf@.tracks),
{
    let mut i: usize = 0;
    while i < smf.tracks.len()
        invariant
            i <= smf.tracks.len(),
            forall|track: int| 0 <= track < i ==> total_delta(#[trigger] smf@.tracks[track]) <= u64::MAX,
        decreases smf.tracks.len() - i,
    {
        assert(smf@.tracks[i as int] == smf.tracks@[i as int]@);
        if checked_total_delta(smf.tracks[i].as_slice()).is_none() {
            return false;
        }
        i += 1;
    }
    true
}

/// The widths of the columns in which the times of one track are written.
#[derive(Clone, Copy, Debug, Default, PartialEq, Eq, Structural)]
pub struct UnitWidths {
    pub delta: usize,
    pub pulse: usize,
    pub beat: usize,
    pub beat_qn: usize,
    pub beat_pulse: usize,
    pub minutes: usize,
    pub sample: usize,
}

/// The largest delta time of a track.
pub open spec fn max_delta(track: Seq<TrackEvent>) -> nat
    decreases track.len(),
{
    if track.len() == 0 {
        0
    } else if max_delta(track.drop_last()) >= track.last().delta {
        max_delta(track.drop_last())
    } else {
        track.last().delta as nat
    }
}

/// The column widths that hold every time up to `end` and every delta time
/// up to `delta_max`: one more than the digits of the delta time, for its
/// sign; the digits of the pulse at the end; those of its quarter notes and
/// of the pulses per quarter note, with a colon between them; the digits of
/// the minutes at the end; and the digits of the sample at the end, with a
/// point and two more digits.
pub open spec fn widths_for(end: TimeModel, delta_max: nat) -> UnitWidths {
    UnitWidths {
        delta: (digits(delta_max) + 1) as usize,
        pulse: digits(end.pulse) as usize,
        beat: (digits(end.pulse / end.ppqn) + 1 + digits(end.ppqn)) as usize,
        beat_qn: digits(end.pulse / end.ppqn) as usize,
        beat_pulse: digits(end.ppqn) as usize,
        minutes: digits(
            match end.realtime {
                Some(realtime) => realtime / 1_000_000_000 / 60,
                None => 1,
            },
        ) as usize,
        sample: (digits(
            match end.sample_floor() {
                Some(sample) => if sample > u64::MAX {
                    u64::MAX as nat
                } else {
                    sample
                },
                None => 1,
            },
        ) + 3) as usize,
    }
}

/// The pulse, at the right end of its column.
pub open spec fn pulse_text(time: TimeModel, widths: UnitWidths) -> Seq<char> {
    pad_left(decimal(time.pulse), widths.pulse as nat, ' ')
}

/// The beat as quarter notes and pulses within the quarter note, each at the
/// right end of its column, the pulses with leading zeros.
pub open spec fn beat_text(time: TimeModel, widths: UnitWidths) -> Seq<char> {
    pad_left(decimal(time.pulse / time.ppqn), widths.beat_qn as nat, ' ') + ":"@ + pad_left(
        decimal(time.pulse % time.ppqn),
        widths.beat_pulse as nat,
        '0',
    )
}

/// The time in minutes, seconds and milliseconds, where the time runs. A
/// millisecond that rounding fills up is carried on to the seconds and the
/// minutes.
pub open spec fn realtime_text(time: TimeModel, widths: UnitWidths) -> Seq<char> {
    match time.total_millis() {
        Some(total_millis) => " / "@ + pad_left(
            decimal(total_millis / 1_000 / 60 % 60),
            widths.minutes as nat,
            ' ',
        ) + ":"@ + pad_left(decimal(total_millis / 1_000 % 60), 2, '0') + ":"@ + pad_left(
            decimal(total_millis % 1_000),
            3,
            '0',
        ) + "m"@,
        None => Seq::empty(),
    }
}

/// A number of hundredths as a number with two digits behind the point.
pub open spec fn hundredths_text(hundredths: nat) -> Seq<char> {
    decimal(hundredths / 100) + "."@ + pad_left(decimal(hundredths % 100), 2, '0')
}

/// The sample with two digits behind the point, where there is one.
pub open spec fn sample_text(time: TimeModel, widths: UnitWidths) -> Seq<char> {
    match time.sample_hundredths() {
        Some(hundredths) => " / sample "@ + pad_left(
            hundredths_text(hundredths),
            widths.sample as nat,
            ' ',
        ),
        None => Seq::empty(),
    }
}

/// A point in time in every unit that it has, as
/// `pulse P / beat Q:R / M:SS:mmmm / sample X.XX`.
pub open spec fn time_text(time: TimeModel, widths: UnitWidths) -> Seq<char> {
    "pulse "@ + pulse_text(time, widths) + " / beat "@ + beat_text(time, widths) + realtime_text(
        time,
        widths,
    ) + sample_text(time, widths)
}

/// Provides formatting for `MidiTime`.
#[derive(Clone, Copy, Debug)]
pub struct MidiTimeDisplay {
    pub time: MidiTime,
    pub widths: UnitWidths,
}

/// The pulse of a `MidiTimeDisplay`, as a text of its own.
pub struct MidiTimeDisplayPulse<'a>(&'a MidiTimeDisplay);

/// The beat of a `MidiTimeDisplay`, as a text of its own.
pub struct MidiTimeDisplayBeat<'a>(&'a MidiTimeDisplay);

impl MidiTimeDisplay {
    /// The time in every unit that it has.
    pub open spec fn text(&self) -> Seq<char> {
        time_text(self.time@, self.widths)
    }

    fn with_limits(start: MidiTime, end: &MidiTime, delta_max: u32) -> (display: MidiTimeDisplay)
        ensures
            display.time == start,
            display.widths == widths_for(end@, delta_max as nat),
    {
        proof {
            use_type_invariant(end);
        }
        let beat_qn_width = decimal_width((end.pulse / (end.ppqn as u64)) as u128);
        let beat_pulse_width = decimal_width(end.ppqn as u128);
        let minutes_width = decimal_width(
            match end.realtime {
                Some(realtime) => realtime / 1_000_000_000 / 60,
                None => 1,
            },
        );
        let sample_width = decimal_width(
            match end.sample_floor() {
                Some(sample) => if sample > u64::MAX as u128 {
                    u64::MAX as u128
                } else {
                    sample
                },
                None => 1,
            },
        );
        MidiTimeDisplay {
            time: start,
            widths: UnitWidths {
                delta: decimal_width(delta_max as u128) + 1,
                pulse: decimal_width(end.pulse as u128),
                beat: beat_qn_width + 1 + beat_pulse_width,
                beat_qn: beat_qn_width,
                beat_pulse: beat_pulse_width,
                minutes: minutes_width,
                sample: sample_width + 3,
            },
        }
    }

    /// The start of a track, with columns that are wide enough for all of it.
    pub fn new(timing: &Timing, track: &[TrackEvent], samplerate: Option<u32>) -> (display:
        MidiTimeDisplay)
        requires
            timing.spec_ppqn() is Some,
            total_delta(track@) <= u64::MAX,
        ensures
            display.time@ == TimeModel::start(timing.spec_ppqn().unwrap() as nat, samplerate),
            display.widths == widths_for(display.time@.after(track@), max_delta(track@)),
    {
        let time_init = MidiTime::new(timing, samplerate);
        let mut delta_max: u32 = 0;
        let mut end = time_init;
        let mut i: usize = 0;
        while i < track.len()
            invariant
                i <= track.len(),
                time_init@.pulse == 0,
                total_delta(track@) <= u64::MAX,
                end@ == time_init@.after(track@.take(i as int)),
                delta_max == max_delta(track@.take(i as int)),
            decreases track.len() - i,
        {
            proof {
                assert(track@.take(i + 1).drop_last() =~= track@.take(i as int));
                lemma_pulse_is_total_delta(time_init@, track@.take(i as int));
                lemma_pulse_is_total_delta(time_init@, track@.take(i + 1));
                lemma_total_delta_grows(track@, i + 1);
            }
            if track[i].delta > delta_max {
                delta_max = track[i].delta;
            }
            end = end.advance(&track[i]);
            i += 1;
        }
        proof {
            assert(track@.take(i as int) =~= track@);
        }
        Self::with_limits(time_init, &end, delta_max)
    }

    /// The end of a sequence, with columns that are just wide enough for it.
    pub fn new_at_end(smf: &Smf, samplerate: Option<u32>) -> (display: MidiTimeDisplay)
        requires
            smf.header.timing.spec_ppqn() is Some,
            pulses_fit(smf@.tracks),
        ensures
            (display.time@, display.widths) == end_display(smf@, samplerate),
            display.time@.pulse == end_pulse(smf@.tracks),
    {
        let time_init = MidiTime::new(&smf.header.timing, samplerate);
        let mut end = time_init;
        let mut i: usize = 0;
        while i < smf.tracks.len()
            invariant
                i <= smf.tracks.len(),
                time_init@.pulse == 0,
                pulses_fit(smf@.tracks),
                end@ == end_time(smf@.tracks.take(i as int), time_init@),
                end@.pulse == end_pulse(smf@.tracks.take(i as int)),
            decreases smf.tracks.len() - i,
        {
            proof {
                assert(smf@.tracks.take(i + 1).drop_last() =~= smf@.tracks.take(i as int));
                assert(smf@.tracks[i as int] == smf.tracks@[i as int]@);
                lemma_end_track(smf@.tracks.take(i as int));
            }
            let track_end = time_init.advance_through(smf.tracks[i].as_slice());
            if i == 0 || track_end.pulse >= end.pulse {
                end = track_end;
            }
            i += 1;
        }
        proof {
            assert(smf@.tracks.take(i as int) =~= smf@.tracks);
        }
        Self::with_limits(end, &end, 0)
    }

    /// The widths of the columns.
    pub fn widths(&self) -> (widths: UnitWidths)
        ensures
            widths == self.widths,
    {
        self.widths
    }

    /// The pulse alone.
    pub fn display_pulse(&self) -> (display: MidiTimeDisplayPulse<'_>)
        ensures
            display.text() == pulse_text(self.time@, self.widths),
    {
        MidiTimeDisplayPulse(self)
    }

    /// The beat alone.
    pub fn display_beat(&self) -> (display: MidiTimeDisplayBeat<'_>)
        ensures
            display.text() == beat_text(self.time@, self.widths),
    {
        MidiTimeDisplayBeat(self)
    }

    /// The pulse, at the right end of its column.
    fn pulse_string(&self) -> (text: String)
        ensures
            text@ == pulse_text(self.time@, self.widths),
    {
        padded(self.time.pulse as u128, self.widths.pulse, false)
    }

    /// The beat as `quarter notes:pulses`.
    fn beat_string(&self) -> (text: String)
        ensures
            text@ == beat_text(self.time@, self.widths),
    {
        proof {
            use_type_invariant(&self.time);
        }
        let qn = self.time.pulse / (self.time.ppqn as u64);
        let pulse = self.time.pulse % (self.time.ppqn as u64);
        let mut text = padded(qn as u128, self.widths.beat_qn, false);
        text.append(":");
        text.append(padded(pulse as u128, self.widths.beat_pulse, true).as_str());
        text
    }

    /// The time in minutes, seconds and milliseconds, where the time runs.
    fn realtime_string(&self) -> (text: String)
        ensures
            text@ == realtime_text(self.time@, self.widths),
    {
        match self.time.total_millis() {
            Some(total_millis) => {
                let millis = total_millis % 1_000;
                let seconds = total_millis / 1_000 % 60;
                let minutes = total_millis / 1_000 / 60 % 60;
                let mut text = String::from_str(" / ");
                text.append(padded(minutes, self.widths.minutes, false).as_str());
                text.append(":");
                text.append(padded(seconds, 2, true).as_str());
                text.append(":");
                text.append(padded(millis, 3, true).as_str());
                text.append("m");
                text
            },
            None => String::new(),
        }
    }

    /// The sample with two digits behind the point, where there is one.
    fn sample_string(&self) -> (text: String)
        ensures
            text@ == sample_text(self.time@, self.widths),
    {
        match self.time.sample_hundredths() {
            Some(hundredths) => {
                let mut sample = decimal_string(hundredths / 100);
                sample.append(".");
                sample.append(padded(hundredths % 100, 2, true).as_str());
                let mut text = String::from_str(" / sample ");
                text.append(text_padded(sample.as_str(), self.widths.sample, false).as_str());
                text
            },
            None => String::new(),
        }
    }

    /// The time in every unit that it has.
    pub fn to_string(&self) -> (text: String)
        ensures
            text@ == self.text(),
    {
        let mut text = String::from_str("pulse ");
        text.append(self.pulse_string().as_str());
        text.append(" / beat ");
        text.append(self.beat_string().as_str());
        text.append(self.realtime_string().as_str());
        text.append(self.sample_string().as_str());
        text
    }
}

impl<'a> MidiTimeDisplayPulse<'a> {
    /// The pulse, at the right end of its column.
    pub closed spec fn text(&self) -> Seq<char> {
        pulse_text(self.0.time@, self.0.widths)
    }

    /// The pulse, at the right end of its column.
    pub fn to_string(&self) -> (text: String)
        ensures
            text@ == self.text(),
    {
        self.0.pulse_string()
    }
}

impl<'a> MidiTimeDisplayBeat<'a> {
    /// The beat as `quarter notes:pulses`.
    pub closed spec fn text(&self) -> Seq<char> {
        beat_text(self.0.time@, self.0.widths)
    }

    /// The beat as `quarter notes:pulses`.
    pub fn to_string(&self) -> (text: String)
        ensures
            text@ == self.text(),
    {
        self.0.beat_string()
    }
}

/// A pulse that lies behind the end of a sequence, and that end.
#[derive(Clone, Copy, Debug)]
pub struct PulseOutOfRange {
    pub pulse: u64,
    pub len: MidiTimeDisplay,
}

impl PulseOutOfRange {
    /// What is wrong, as `pulse P out of range (sequence ends at ...)`.
    pub open spec fn text(&self) -> Seq<char> {
        "pulse "@ + decimal(self.pulse as nat) + " out of range (sequence ends at "@
            + self.len.text() + ")"@
    }

    /// What is wrong, as `pulse P out of range (sequence ends at ...)`.
    pub fn to_string(&self) -> (text: String)
        ensures
            text@ == self.text(),
    {
        let mut text = String::from_str("pulse ");
        text.append(decimal_string(self.pulse as u128).as_str());
        text.append(" out of range (sequence ends at ");
        text.append(self.len.to_string().as_str());
        text.append(")");
        text
    }
}

/// The end of a sequence as it stands in a `PulseOutOfRange`.
pub open spec fn is_end_display(smf: SmfModel, len: MidiTimeDisplay) -> bool {
    (len.time@, len.widths) == end_display(smf, None)
}

/// Tells whether a pulse lies within a sequence, its end included.
pub fn validate_pulse(smf: &Smf, pulse: u64) -> (valid: Result<(), PulseOutOfRange>)
    requires
        smf.header.timing.spec_ppqn() is Some,
        pulses_fit(smf@.tracks),
    ensures
        valid is Ok <==> pulse <= end_pulse(smf@.tracks),
        valid matches Err(e) ==> e.pulse == pulse && is_end_display(smf@, e.len),
{
    let len = MidiTimeDisplay::new_at_end(smf, None);
    if pulse > len.time.pulse() {
        return Err(PulseOutOfRange { pulse, len });
    }
    Ok(())
}

/// Tells whether both ends of a range of pulses lie within a sequence, and
/// gives the range, which ends with the sequence where no end is given.
pub fn validate_pulse_range(smf: &Smf, range: (u64, Option<u64>)) -> (valid: Result<
    core::ops::Range<u64>,
    PulseOutOfRange,
>)
    requires
        smf.header.timing.spec_ppqn() is Some,
        pulses_fit(smf@.tracks),
    ensures
        match valid {
            Ok(pulses) => {
                &&& pulses.start == range.0
                &&& pulses.end == spec_range_end(smf@.tracks, range)
                &&& pulses.start <= end_pulse(smf@.tracks)
                &&& pulses.end <= end_pulse(smf@.tracks)
            },
            Err(e) => {
                &&& is_end_display(smf@, e.len)
                &&& e.pulse > end_pulse(smf@.tracks)
                &&& e.pulse == if range.0 > end_pulse(smf@.tracks) {
                    range.0 as nat
                } else {
                    spec_range_end(smf@.tracks, range)
                }
            },
        },
{
    let len = MidiTimeDisplay::new_at_end(smf, None);
    let ret = range.0..(match range.1 {
        Some(end) => end,
        None => len.time.pulse(),
    });
    if ret.start > len.time.pulse() {
        let pulse = ret.start;
        return Err(PulseOutOfRange { pulse, len });
    } else if ret.end > len.time.pulse() {
        let pulse = ret.end;
        return Err(PulseOutOfRange { pulse, len });
    }
    Ok(ret)
}

/// The end of a range of pulses: the end that is given, and else the end of
/// the sequence.
pub open spec fn spec_range_end(tracks: Seq<Seq<TrackEvent>>, range: (u64, Option<u64>)) -> nat {
    match range.1 {
        Some(end) => end as nat,
        None => end_pulse(tracks),
    }
}

/// The point at which a sequence ends, and the widths of the columns that
/// are just wide enough for it.
pub open spec fn end_display(smf: SmfModel, samplerate: Option<u32>) -> (TimeModel, UnitWidths) {
    let end = end_time(
        smf.tracks,
        TimeModel::start(smf.header.timing.spec_ppqn().unwrap() as nat, samplerate),
    );
    (end, widths_for(end, 0))
}

/// The end of a sequence in every unit of time that it has.
pub fn duration(smf: &Smf, samplerate: Option<u32>) -> (text: String)
    requires
        smf.header.timing.spec_ppqn() is Some,
        pulses_fit(smf@.tracks),
    ensures
        text@ == time_text(end_display(smf@, samplerate).0, end_display(smf@, samplerate).1),
{
    let end = MidiTimeDisplay::new_at_end(smf, samplerate);
    end.to_string()
}

} // verus!
