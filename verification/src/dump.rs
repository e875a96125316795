//! MIDI event dumping.

use vstd::prelude::*;
use vstd::string::StringExecFns;
use crate::event::{MetaMessage, TrackEvent, TrackEventKind};
use crate::smf::{Smf, SmfModel};
use crate::text::{decimal, decimal_string, lemma_concat_associates, pad_left, text_padded};
use crate::time::{
    beat_text, lemma_pulse_is_total_delta, lemma_total_delta_grows, max_delta, pulse_text,
    pulses_fit, total_delta, widths_for, MidiTimeDisplay, TimeModel, UnitWidths,
};

verus! {

/// The character of one hexadecimal digit, in upper case.
pub open spec fn hex_digit(digit: nat) -> char {
    if digit == 0 {
        '0'
    } else if digit == 1 {
        '1'
    } else if digit == 2 {
        '2'
    } else if digit == 3 {
        '3'
    } else if digit == 4 {
        '4'
    } else if digit == 5 {
        '5'
    } else if digit == 6 {
        '6'
    } else if digit == 7 {
        '7'
    } else if digit == 8 {
        '8'
    } else if digit == 9 {
        '9'
    } else if digit == 10 {
        'A'
    } else if digit == 11 {
        'B'
    } else if digit == 12 {
        'C'
    } else if digit == 13 {
        'D'
    } else if digit == 14 {
        'E'
    } else {
        'F'
    }
}

/// Bytes as two hexadecimal digits each, with a space between bytes.
pub open spec fn hex_text(bytes: Seq<u8>) -> Seq<char>
    decreases bytes.len(),
{
    if bytes.len() == 0 {
        Seq::empty()
    } else {
        hex_text(bytes.drop_last()) + (if bytes.len() > 1 {
            seq![' ']
        } else {
            Seq::empty()
        }) + seq![hex_digit(bytes.last() as nat / 16), hex_digit(bytes.last() as nat % 16)]
    }
}

/// The text of one hexadecimal digit.
fn hex_digit_str(digit: u8) -> (text: &'static str)
    requires
        digit < 16,
    ensures
        text@ == seq![hex_digit(digit as nat)],
{
    proof {
        reveal_strlit("0");
        reveal_strlit("1");
        reveal_strlit("2");
        reveal_strlit("3");
        reveal_strlit("4");
        reveal_strlit("5");
        reveal_strlit("6");
        reveal_strlit("7");
        reveal_strlit("8");
        reveal_strlit("9");
        reveal_strlit("A");
        reveal_strlit("B");
        reveal_strlit("C");
        reveal_strlit("D");
        reveal_strlit("E");
        reveal_strlit("F");
    }
    let text = if digit == 0 {
        "0"
    } else if digit == 1 {
        "1"
    } else if digit == 2 {
        "2"
    } else if digit == 3 {
        "3"
    } else if digit == 4 {
        "4"
    } else if digit == 5 {
        "5"
    } else if digit == 6 {
        "6"
    } else if digit == 7 {
        "7"
    } else if digit == 8 {
        "8"
    } else if digit == 9 {
        "9"
    } else if digit == 10 {
        "A"
    } else if digit == 11 {
        "B"
    } else if digit == 12 {
        "C"
    } else if digit == 13 {
        "D"
    } else if digit == 14 {
        "E"
    } else {
        "F"
    };
    assert(text@ =~= seq![hex_digit(digit as nat)]);
    text
}

/// Bytes in hexadecimal digits.
pub fn hex(bytes: &[u8]) -> (text: String)
    ensures
        text@ == hex_text(bytes@),
{
    let mut text = String::new();
    let mut i: usize = 0;
    assert(bytes@.take(0) =~= Seq::<u8>::empty());
    while i < bytes.len()
        invariant
            i <= bytes.len(),
            text@ == hex_text(bytes@.take(i as int)),
        decreases bytes.len() - i,
    {
        proof {
            reveal_strlit(" ");
            assert(" "@ =~= seq![' ']);
            assert(bytes@.take(i + 1).drop_last() =~= bytes@.take(i as int));
        }
        if i != 0 {
            text.append(" ");
        } else {
            assert(text@ + Seq::<char>::empty() =~= text@);
        }
        let mut digits = String::from_str(hex_digit_str(bytes[i] / 16));
        digits.append(hex_digit_str(bytes[i] % 16));
        assert(digits@ =~= seq![
            hex_digit(bytes@[i as int] as nat / 16),
            hex_digit(bytes@[i as int] as nat % 16),
        ]);
        text.append(digits.as_str());
        i += 1;
    }
    assert(bytes@.take(i as int) =~= bytes@);
    text
}

/// The name under which the bytes of an event are dumped, and the bytes,
/// where the event is one that carries bytes of any number.
pub open spec fn bytes_of<'a>(kind: TrackEventKind<'a>) -> Option<(Seq<char>, &'a [u8])> {
    match kind {
        TrackEventKind::SysEx(b) => Some(("SysEx("@, b)),
        TrackEventKind::Meta(MetaMessage::Text(b)) => Some(("Meta(Text("@, b)),
        TrackEventKind::Meta(MetaMessage::Copyright(b)) => Some(("Meta(Copyright("@, b)),
        TrackEventKind::Meta(MetaMessage::TrackName(b)) => Some(("Meta(TrackName("@, b)),
        TrackEventKind::Meta(MetaMessage::Marker(b)) => Some(("Meta(Marker("@, b)),
        TrackEventKind::Meta(MetaMessage::InstrumentName(b)) => Some(("Meta(InstrumentName("@, b)),
        TrackEventKind::Meta(MetaMessage::Lyric(b)) => Some(("Meta(Lyric("@, b)),
        TrackEventKind::Meta(MetaMessage::CuePoint(b)) => Some(("Meta(CuePoint("@, b)),
        TrackEventKind::Meta(MetaMessage::ProgramName(b)) => Some(("Meta(ProgramName("@, b)),
        TrackEventKind::Meta(MetaMessage::DeviceName(b)) => Some(("Meta(DeviceName("@, b)),
        TrackEventKind::Meta(MetaMessage::SequencerSpecific(b)) => Some(
            ("Meta(SequencerSpecific("@, b),
        ),
        _ => None,
    }
}

/// An event that carries bytes of any number, with its bytes in hexadecimal
/// digits.
pub open spec fn kind_text(kind: TrackEventKind) -> Option<Seq<char>> {
    match bytes_of(kind) {
        Some((name, bytes)) => Some(
            name + hex_text(bytes@) + (if kind is Meta {
                "))"@
            } else {
                ")"@
            }),
        ),
        None => None,
    }
}

/// The text of an event that carries bytes of any number, with its bytes in
/// hexadecimal digits. Other events have no text here.
pub fn kind_display(kind: &TrackEventKind) -> (text: Option<String>)
    ensures
        match text {
            Some(text) => kind_text(*kind) == Some(text@),
            None => kind_text(*kind) is None,
        },
{
    let (name, bytes, meta) = match *kind {
        TrackEventKind::SysEx(b) => ("SysEx(", b, false),
        TrackEventKind::Meta(meta) => match meta {
            MetaMessage::Text(b) => ("Meta(Text(", b, true),
            MetaMessage::Copyright(b) => ("Meta(Copyright(", b, true),
            MetaMessage::TrackName(b) => ("Meta(TrackName(", b, true),
            MetaMessage::Marker(b) => ("Meta(Marker(", b, true),
            MetaMessage::InstrumentName(b) => ("Meta(InstrumentName(", b, true),
            MetaMessage::Lyric(b) => ("Meta(Lyric(", b, true),
            MetaMessage::CuePoint(b) => ("Meta(CuePoint(", b, true),
            MetaMessage::ProgramName(b) => ("Meta(ProgramName(", b, true),
            MetaMessage::DeviceName(b) => ("Meta(DeviceName(", b, true),
            MetaMessage::SequencerSpecific(b) => ("Meta(SequencerSpecific(", b, true),
            _ => {
                return None;
            },
        },
        _ => {
            return None;
        },
    };
    let mut text = String::from_str(name);
    text.append(hex(bytes).as_str());
    text.append(if meta {
        "))"
    } else {
        ")"
    });
    Some(text)
}

/// The larger of two widths.
pub open spec fn wider(a: nat, b: nat) -> nat {
    if a >= b {
        a
    } else {
        b
    }
}

/// The lines above the events of track number `track`: an empty line
/// behind another track, the number of the track, an empty line, and the
/// names of the columns. The names stand at the right end of their columns,
/// which are as wide as the widest delta time, pulse and beat of the track,
/// and as wide as the names at least.
pub open spec fn head_lines(track: nat, widths: UnitWidths) -> Seq<char> {
    (if track != 0 {
        "\n"@
    } else {
        Seq::empty()
    }) + "## Track "@ + decimal(track) + "\n\n"@ + pad_left(
        "Delta"@,
        wider(5, widths.delta as nat),
        ' ',
    ) + "\t"@ + pad_left("Pulse"@, wider(5, widths.pulse as nat), ' ') + "\t"@ + pad_left(
        "Beat"@,
        wider(4, widths.beat as nat),
        ' ',
    ) + "\tEvent\n"@
}

/// The line of one event: its delta time with a plus sign, at the right end
/// of the column of the delta times; the pulse and the beat at which it
/// comes, each as wide as the widest of the track; and what it is.
pub open spec fn event_line(
    delta: u32,
    time: TimeModel,
    widths: UnitWidths,
    kind: Seq<char>,
) -> Seq<char> {
    pad_left("+"@ + decimal(delta as nat), wider(5, widths.delta as nat), ' ') + "\t"@ + pulse_text(
        time,
        widths,
    ) + "\t"@ + beat_text(time, widths) + "\t"@ + kind + "\n"@
}

/// The lines of the first `n` events of a track.
pub open spec fn event_lines(
    track: Seq<TrackEvent>,
    kinds: Seq<Seq<char>>,
    start: TimeModel,
    widths: UnitWidths,
    n: int,
) -> Seq<char>
    decreases n,
{
    if n <= 0 {
        Seq::empty()
    } else {
        event_lines(track, kinds, start, widths, n - 1) + event_line(
            track[n - 1].delta,
            start.after(track.take(n)),
            widths,
            kinds[n - 1],
        )
    }
}

/// The dump of one track.
pub open spec fn track_text(
    number: nat,
    track: Seq<TrackEvent>,
    kinds: Seq<Seq<char>>,
    ppqn: nat,
) -> Seq<char> {
    let start = TimeModel::start(ppqn, None);
    let widths = widths_for(start.after(track), max_delta(track));
    head_lines(number, widths) + event_lines(track, kinds, start, widths, track.len() as int)
}

/// The dump of the first `n` tracks of a sequence.
pub open spec fn dump_text(smf: SmfModel, kinds: Seq<Seq<Seq<char>>>, n: int) -> Seq<char>
    decreases n,
{
    if n <= 0 {
        Seq::empty()
    } else {
        dump_text(smf, kinds, n - 1) + track_text(
            (n - 1) as nat,
            smf.tracks[n - 1],
            kinds[n - 1],
            smf.header.timing.spec_ppqn().unwrap() as nat,
        )
    }
}

/// The texts of the kinds of the events of some tracks.
pub open spec fn kinds_view(kinds: Seq<Vec<String>>) -> Seq<Seq<Seq<char>>> {
    Seq::new(kinds.len(), |track: int| Seq::new(kinds[track]@.len(), |i: int| kinds[track]@[i]@))
}

/// The line of one event.
fn event_line_string(delta: u32, time: &MidiTimeDisplay, delta_width: usize, kind: &str) -> (text:
    String)
    requires
        delta_width == wider(5, time.widths.delta as nat),
    ensures
        text@ == event_line(delta, time.time@, time.widths, kind@),
{
    let mut signed = String::from_str("+");
    signed.append(decimal_string(delta as u128).as_str());
    let mut text = text_padded(signed.as_str(), delta_width, false);
    text.append("\t");
    text.append(time.display_pulse().to_string().as_str());
    text.append("\t");
    text.append(time.display_beat().to_string().as_str());
    text.append("\t");
    text.append(kind);
    text.append("\n");
    text
}

/// The lines above the events of a track.
fn head_lines_string(track: usize, widths: &UnitWidths) -> (text: String)
    ensures
        text@ == head_lines(track as nat, *widths),
{
    let delta_width = if widths.delta > 5 {
        widths.delta
    } else {
        5
    };
    let pulse_width = if widths.pulse > 5 {
        widths.pulse
    } else {
        5
    };
    let beat_width = if widths.beat > 4 {
        widths.beat
    } else {
        4
    };
    let mut text = if track != 0 {
        String::from_str("\n")
    } else {
        String::new()
    };
    text.append("## Track ");
    text.append(decimal_string(track as u128).as_str());
    text.append("\n\n");
    text.append(text_padded("Delta", delta_width, false).as_str());
    text.append("\t");
    text.append(text_padded("Pulse", pulse_width, false).as_str());
    text.append("\t");
    text.append(text_padded("Beat", beat_width, false).as_str());
    text.append("\tEvent\n");
    text
}

/// The dump of a sequence: for each track a head and a line for each of
/// its events. `kinds` holds, for each event of each track, the text that
/// tells what the event is.
pub fn dump(smf: &Smf, kinds: &Vec<Vec<String>>) -> (text: String)
    requires
        smf.header.timing.spec_ppqn() is Some,
        pulses_fit(smf@.tracks),
        kinds.len() == smf.tracks.len(),
        forall|track: int|
            0 <= track < kinds.len() ==> (#[trigger] kinds@[track]).len() == smf.tracks@[track].len(),
    ensures
        text@ == dump_text(smf@, kinds_view(kinds@), smf.tracks.len() as int),
{
    let mut out = String::new();
    let ghost all_kinds = kinds_view(kinds@);
    let mut track_i: usize = 0;
    while track_i < smf.tracks.len()
        invariant
            track_i <= smf.tracks.len(),
            smf.header.timing.spec_ppqn() is Some,
            pulses_fit(smf@.tracks),
            kinds.len() == smf.tracks.len(),
            forall|track: int|
                0 <= track < kinds.len() ==> (#[trigger] kinds@[track]).len()
                    == smf.tracks@[track].len(),
            all_kinds == kinds_view(kinds@),
            out@ == dump_text(smf@, all_kinds, track_i as int),
        decreases smf.tracks.len() - track_i,
    {
        let track = smf.tracks[track_i].as_slice();
        let track_kinds = &kinds[track_i];
        assert(smf@.tracks[track_i as int] == track@);
        assert(kinds@[track_i as int].len() == track@.len());
        let mut time = MidiTimeDisplay::new(&smf.header.timing, track, None);
        let widths = time.widths();
        let ghost start = time.time@;
        let delta_width = if widths.delta > 5 {
            widths.delta
        } else {
            5
        };
        let ghost before_track = out@;
        out.append(head_lines_string(track_i, &widths).as_str());
        let ghost head = out@;
        let mut i: usize = 0;
        assert(out@ + event_lines(track@, all_kinds[track_i as int], start, widths, 0) =~= out@);
        while i < track.len()
            invariant
                i <= track.len(),
                track_kinds@.len() == track@.len(),
                track_i < kinds.len(),
                *track_kinds == kinds@[track_i as int],
                all_kinds == kinds_view(kinds@),
                start.pulse == 0,
                total_delta(track@) <= u64::MAX,
                time.time@ == start.after(track@.take(i as int)),
                time.widths == widths,
                delta_width == wider(5, widths.delta as nat),
                out@ == head + event_lines(track@, all_kinds[track_i as int], start, widths, i as int),
            decreases track.len() - i,
        {
            proof {
                assert(track@.take(i + 1).drop_last() =~= track@.take(i as int));
                lemma_pulse_is_total_delta(start, track@.take(i as int));
                lemma_pulse_is_total_delta(start, track@.take(i + 1));
                lemma_total_delta_grows(track@, i + 1);
            }
            let ev = &track[i];
            time.time = time.time.advance(ev);
            out.append(
                event_line_string(ev.delta, &time, delta_width, track_kinds[i].as_str()).as_str(),
            );
            proof {
                assert(all_kinds[track_i as int][i as int] == track_kinds@[i as int]@);
                lemma_concat_associates(
                    head,
                    event_lines(track@, all_kinds[track_i as int], start, widths, i as int),
                    event_line(ev.delta, time.time@, widths, track_kinds@[i as int]@),
                );
            }
            i += 1;
        }
        proof {
            lemma_concat_associates(
                before_track,
                head_lines(track_i as nat, widths),
                event_lines(track@, all_kinds[track_i as int], start, widths, track@.len() as int),
            );
        }
        track_i += 1;
    }
    out
}

} // verus!
