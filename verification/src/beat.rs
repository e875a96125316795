//! Pulses as a user writes them: in total, or as quarter notes and pulses.

use vstd::prelude::*;
use vstd::string::StringExecFns;
use crate::error::Error;
use crate::smf::Timing;
use crate::text::decimal;

verus! {

/// The largest number of pulses that the pulse part of a beat can hold.
pub const MAX_BEAT_PULSE: u16 = 0x7FFF;

/// Stores a MIDI pulse in either total pulse or quarter-note:pulse format.
#[derive(Clone, Copy, Debug, PartialEq, Eq, Structural)]
pub enum PulseOrBeatValue {
    Pulse(u64),
    Beat(u64, u16),
}

/// A pulse or beat as a user has written it.
#[derive(Clone, Debug)]
pub struct PulseOrBeat {
    pub input: String,
    pub value: PulseOrBeatValue,
}

/// The value of a decimal digit.
pub open spec fn digit_value(c: char) -> Option<nat> {
    if '0' <= c <= '9' {
        Some((c as nat - '0' as nat) as nat)
    } else {
        None
    }
}

/// The number that a text of decimal digits stands for.
pub open spec fn digits_value(text: Seq<char>) -> Option<nat>
    decreases text.len(),
{
    if text.len() == 0 {
        Some(0)
    } else {
        match (digits_value(text.drop_last()), digit_value(text.last())) {
            (Some(value), Some(digit)) => Some(10 * value + digit),
            _ => None,
        }
    }
}

/// The number up to `max` that a text stands for: at least one decimal
/// digit, with or without a plus sign in front.
pub open spec fn parse_unsigned(text: Seq<char>, max: nat) -> Option<nat> {
    let digits = if text.len() > 0 && text[0] == '+' {
        text.drop_first()
    } else {
        text
    };
    if digits.len() == 0 {
        None
    } else {
        match digits_value(digits) {
            Some(value) if value <= max => Some(value),
            _ => None,
        }
    }
}

/// One side of a beat: a number, or nothing for 0.
pub open spec fn parse_side(text: Seq<char>, max: nat) -> Option<nat> {
    if text.len() == 0 {
        Some(0)
    } else {
        parse_unsigned(text, max)
    }
}

/// The pulse or beat that a text stands for: with a colon, the quarter notes
/// before the first colon and the pulses behind it, either of which may be
/// left out, and without a colon the total pulses.
pub open spec fn parse_value(text: Seq<char>) -> Option<PulseOrBeatValue> {
    match text.index_of_first(':') {
        Some(colon) => match (
            parse_side(text.take(colon), u64::MAX as nat),
            parse_side(text.skip(colon + 1), MAX_BEAT_PULSE as nat),
        ) {
            (Some(qn), Some(pulse)) => Some(PulseOrBeatValue::Beat(qn as u64, pulse as u16)),
            _ => None,
        },
        None => match parse_unsigned(text, u64::MAX as nat) {
            Some(pulse) => Some(PulseOrBeatValue::Pulse(pulse as u64)),
            None => None,
        },
    }
}

impl PulseOrBeatValue {
    /// The pulse in total, in a sequence of `ppqn` pulses per quarter note.
    pub open spec fn total(self, ppqn: nat) -> nat {
        match self {
            PulseOrBeatValue::Pulse(pulse) => pulse as nat,
            PulseOrBeatValue::Beat(qn, pulse) => (qn * ppqn + pulse) as nat,
        }
    }

    /// The pulse in total, in a sequence of the given timing. A beat has
    /// none in a timing in pulses per second.
    pub open spec fn total_in(self, timing: Timing) -> Option<nat> {
        match (self, timing) {
            (PulseOrBeatValue::Pulse(pulse), _) => Some(pulse as nat),
            (PulseOrBeatValue::Beat(_, _), Timing::Metrical(ppqn)) => Some(self.total(ppqn as nat)),
            (PulseOrBeatValue::Beat(_, _), Timing::Timecode(_, _)) => None,
        }
    }
}

/// The bytes are the characters of a text, none of which needs more than
/// one byte.
spec fn spells(bytes: Seq<u8>, text: Seq<char>) -> bool {
    &&& bytes.len() == text.len()
    &&& forall|i: int|
        #![trigger text[i]]
        0 <= i < text.len() ==> '\0' <= text[i] <= '\u{7f}' && bytes[i] == text[i] as u8
}

/// A text with a digit that is none has no value.
proof fn lemma_digits_value_needs_digits(text: Seq<char>, index: int)
    requires
        0 <= index < text.len(),
        digit_value(text[index]) is None,
    ensures
        digits_value(text) is None,
    decreases text.len(),
{
    if index < text.len() - 1 {
        lemma_digits_value_needs_digits(text.drop_last(), index);
    }
}

/// More digits do not make a number smaller.
proof fn lemma_digits_value_grows(text: Seq<char>, n: int)
    requires
        0 <= n <= text.len(),
        digits_value(text) is Some,
    ensures
        digits_value(text.take(n)) is Some,
        digits_value(text.take(n)).unwrap() <= digits_value(text).unwrap(),
    decreases text.len() - n,
{
    if n < text.len() {
        lemma_digits_value_grows(text.drop_last(), n);
        assert(text.drop_last().take(n) =~= text.take(n));
    } else {
        assert(text.take(n) =~= text);
    }
}

/// The number up to `max` that the characters from `from` up to `to` stand
/// for. The characters are given as bytes.
fn parse_number(bytes: &[u8], Ghost(text): Ghost<Seq<char>>, from: usize, to: usize, max: u64) -> (value:
    Option<u64>)
    requires
        from <= to <= bytes.len(),
        spells(bytes@, text),
    ensures
        match value {
            Some(value) => parse_unsigned(text.subrange(from as int, to as int), max as nat) == Some(
                value as nat,
            ),
            None => parse_unsigned(text.subrange(from as int, to as int), max as nat) is None,
        },
{
    let ghost part = text.subrange(from as int, to as int);
    let first = if from < to && bytes[from] == 43 {
        from + 1
    } else {
        from
    };
    let ghost digits = if part.len() > 0 && part[0] == '+' {
        part.drop_first()
    } else {
        part
    };
    assert(digits =~= text.subrange(first as int, to as int)) by {
        if from < to {
            assert(part[0] == text[from as int]);
        }
    }
    if first == to {
        return None;
    }
    let mut value: u64 = 0;
    let mut i = first;
    while i < to
        invariant
            first <= i <= to <= bytes.len(),
            spells(bytes@, text),
            digits == text.subrange(first as int, to as int),
            digits.len() > 0,
            parse_unsigned(text.subrange(from as int, to as int), max as nat) == (
            match digits_value(digits) {
                Some(value) if value <= max => Some(value),
                _ => None,
            }),
            digits_value(digits.take(i - first)) == Some(value as nat),
            value <= max,
        decreases to - i,
    {
        let byte = bytes[i];
        assert(digits[i - first] == text[i as int]);
        assert(digits.take(i - first + 1).drop_last() =~= digits.take(i - first));
        if byte < 48 || byte > 57 {
            proof {
                lemma_digits_value_needs_digits(digits, i - first);
            }
            return None;
        }
        let digit = (byte - 48) as u64;
        assert(digit_value(digits[i - first]) == Some(digit as nat));
        if digit > max || value > (max - digit) / 10 {
            proof {
                if digits_value(digits) is Some {
                    lemma_digits_value_grows(digits, i - first + 1);
                }
            }
            return None;
        }
        value = 10 * value + digit;
        i += 1;
    }
    assert(digits.take(i - first) =~= digits);
    Some(value)
}

impl PulseOrBeat {
    /// Reads a pulse or beat.
    pub fn parse(s: &str) -> (parsed: Result<PulseOrBeat, Error>)
        ensures
            match parsed {
                Ok(parsed) => parsed.input@ == s@ && parse_value(s@) == Some(parsed.value),
                Err(Error::BadPulseOrBeat) => parse_value(s@) is None,
                Err(_) => false,
            },
    {
        broadcast use vstd::string::is_ascii_spec_bytes;

        proof {
            s@.index_of_first_ensures(':');
        }
        if !s.is_ascii() {
            proof {
                let bad = choose|i: int|
                    0 <= i < s@.len() && !('\0' <= #[trigger] s@[i] <= '\u{7f}');
                lemma_not_a_number(s@, bad);
            }
            return Err(Error::BadPulseOrBeat);
        }
        let bytes = s.as_bytes();
        let ghost text = s@;
        assert(bytes@ =~= Seq::new(s@.len(), |i: int| s@.index(i) as u8));
        assert(spells(bytes@, text));
        let mut colon: usize = 0;
        while colon < bytes.len() && bytes[colon] != 58
            invariant
                colon <= bytes.len(),
                spells(bytes@, text),
                forall|j: int| 0 <= j < colon ==> text[j] != ':',
            decreases bytes.len() - colon,
        {
            colon += 1;
        }
        let value = if colon < bytes.len() {
            assert(text[colon as int] == ':');
            assert(text.index_of_first(':') == Some(colon as int));
            assert(text.take(colon as int) =~= text.subrange(0, colon as int));
            assert(text.skip(colon + 1) =~= text.subrange(colon + 1, text.len() as int));
            let qn = if colon == 0 {
                Some(0)
            } else {
                parse_number(bytes, Ghost(text), 0, colon, u64::MAX)
            };
            let pulse = if colon + 1 == bytes.len() {
                Some(0)
            } else {
                parse_number(bytes, Ghost(text), colon + 1, bytes.len(), MAX_BEAT_PULSE as u64)
            };
            match (qn, pulse) {
                (Some(qn), Some(pulse)) => Some(PulseOrBeatValue::Beat(qn, pulse as u16)),
                _ => None,
            }
        } else {
            assert(!text.contains(':'));
            assert(text =~= text.subrange(0, text.len() as int));
            match parse_number(bytes, Ghost(text), 0, bytes.len(), u64::MAX) {
                Some(pulse) => Some(PulseOrBeatValue::Pulse(pulse)),
                None => None,
            }
        };
        match value {
            Some(value) => {
                let input = String::from_str(s);
                Ok(PulseOrBeat { input, value })
            },
            None => Err(Error::BadPulseOrBeat),
        }
    }

    /// Whether a 64-bit number holds the pulse in total, in a sequence of
    /// the given timing.
    pub fn total_fits(&self, timing: &Timing) -> (fits: bool)
        ensures
            fits == (self.value.total_in(*timing) matches Some(total) ==> total <= u64::MAX),
    {
        match (self.value, timing) {
            (PulseOrBeatValue::Beat(qn, pulse), Timing::Metrical(ppqn)) => {
                match qn.checked_mul(*ppqn as u64) {
                    Some(pulses) => pulses.checked_add(pulse as u64).is_some(),
                    None => false,
                }
            },
            _ => true,
        }
    }

    /// The pulse in total, in a sequence of the given timing.
    pub fn total_pulse(&self, timing: &Timing) -> (total: Result<u64, Error>)
        requires
            self.value.total_in(*timing) matches Some(total) ==> total <= u64::MAX,
        ensures
            match self.value.total_in(*timing) {
                Some(pulse) => total == Ok::<u64, Error>(pulse as u64),
                None => total == Err::<u64, Error>(Error::UnsupportedTiming),
            },
    {
        match self.value {
            PulseOrBeatValue::Pulse(pulse) => Ok(pulse),
            PulseOrBeatValue::Beat(qn, pulse) => match timing {
                Timing::Metrical(ppqn) => {
                    assert(qn * *ppqn <= qn * *ppqn + pulse);
                    Ok(qn * (*ppqn as u64) + pulse as u64)
                },
                Timing::Timecode(_, _) => Err(Error::UnsupportedTiming),
            },
        }
    }
}

impl core::str::FromStr for PulseOrBeat {
    type Err = Error;

    /// Reads a pulse or beat, as `parse` does: the text is kept, and its
    /// value is the pulse or beat that it stands for; a text that stands for
    /// none is refused.
    fn from_str(s: &str) -> (parsed: Result<PulseOrBeat, Error>)
        ensures
            match parsed {
                Ok(parsed) => parsed.input@ == s@ && parse_value(s@) == Some(parsed.value),
                Err(Error::BadPulseOrBeat) => parse_value(s@) is None,
                Err(_) => false,
            },
    {
        PulseOrBeat::parse(s)
    }
}

/// What `total_pulse_of_range` gives for a start and an end in a timing.
pub open spec fn is_total_pulse_of_range(
    start: PulseOrBeat,
    end: Option<PulseOrBeat>,
    timing: Timing,
    range: Result<(u64, Option<u64>), Error>,
) -> bool {
    match (start.value.total_in(timing), end) {
        (None, _) => range == Err::<(u64, Option<u64>), Error>(Error::UnsupportedTiming),
        (Some(start_pulse), None) => range == Ok::<(u64, Option<u64>), Error>(
            (start_pulse as u64, None),
        ),
        (Some(start_pulse), Some(end)) => match end.value.total_in(timing) {
            None => range == Err::<(u64, Option<u64>), Error>(Error::UnsupportedTiming),
            Some(end_pulse) => if start_pulse > end_pulse {
                &&& range matches Err(
                    Error::RangeOrder { start: from, start_pulse: from_pulse, end: to, end_pulse: to_pulse },
                )
                &&& from@ == start.input@
                &&& from_pulse == start_pulse
                &&& to@ == end.input@
                &&& to_pulse == end_pulse
            } else {
                range == Ok::<(u64, Option<u64>), Error>((start_pulse as u64, Some(end_pulse as u64)))
            },
        },
    }
}

/// The total pulses of the start and the end of a range. A start behind
/// the end is refused.
pub fn total_pulse_of_range(start: &PulseOrBeat, end: &Option<PulseOrBeat>, timing: &Timing) -> (range:
    Result<(u64, Option<u64>), Error>)
    requires
        start.value.total_in(*timing) matches Some(total) ==> total <= u64::MAX,
        end matches Some(end) ==> (end.value.total_in(*timing) matches Some(total) ==> total
            <= u64::MAX),
    ensures
        is_total_pulse_of_range(*start, *end, *timing, range),
{
    let start_pulse = match start.total_pulse(timing) {
        Ok(start_pulse) => start_pulse,
        Err(_) => {
            return Err(Error::UnsupportedTiming);
        },
    };
    let end_pulse = if let Some(end) = end {
        let end_pulse = match end.total_pulse(timing) {
            Ok(end_pulse) => end_pulse,
            Err(_) => {
                return Err(Error::UnsupportedTiming);
            },
        };
        if start_pulse > end_pulse {
            return Err(
                Error::RangeOrder {
                    start: start.input.clone(),
                    start_pulse,
                    end: end.input.clone(),
                    end_pulse,
                },
            );
        }
        Some(end_pulse)
    } else {
        None
    };
    Ok((start_pulse, end_pulse))
}

/// A number in decimal digits has digits only.
proof fn lemma_decimal_has_digits(n: nat, index: int)
    requires
        0 <= index < decimal(n).len(),
    ensures
        digit_value(decimal(n)[index]) is Some,
        decimal(n)[index] != ':',
        decimal(n)[index] != '+',
    decreases n,
{
    if n >= 10 && index < decimal(n / 10).len() {
        lemma_decimal_has_digits(n / 10, index);
    }
}

/// A number in decimal digits stands for itself.
proof fn lemma_decimal_value(n: nat)
    ensures
        decimal(n).len() > 0,
        digits_value(decimal(n)) == Some(n),
    decreases n,
{
    if n < 10 {
        assert(decimal(n).drop_last() =~= Seq::<char>::empty());
    } else {
        lemma_decimal_value(n / 10);
        assert(decimal(n).drop_last() =~= decimal(n / 10));
    }
}

/// A number in decimal digits is read as itself, as long as it does not go
/// beyond the largest number that is taken.
proof fn lemma_decimal_parses(n: nat, max: nat)
    requires
        n <= max,
    ensures
        parse_unsigned(decimal(n), max) == Some(n),
        parse_side(decimal(n), max) == Some(n),
{
    lemma_decimal_value(n);
    lemma_decimal_has_digits(n, 0);
}

/// A total pulse that is written in decimal digits is read as that pulse.
pub proof fn lemma_pulse_round_trip(pulse: u64, timing: Timing)
    ensures
        parse_value(decimal(pulse as nat)) == Some(PulseOrBeatValue::Pulse(pulse)),
        PulseOrBeatValue::Pulse(pulse).total_in(timing) == Some(pulse as nat),
{
    let text = decimal(pulse as nat);
    text.index_of_first_ensures(':');
    if text.contains(':') {
        let colon = text.index_of_first(':').unwrap();
        lemma_decimal_has_digits(pulse as nat, colon);
    }
    lemma_decimal_parses(pulse as nat, u64::MAX as nat);
}

/// A beat that is written as quarter notes, a colon and pulses, each in
/// decimal digits, is read as that beat, and its total pulse is the quarter
/// notes times the pulses per quarter note, plus the pulses.
pub proof fn lemma_beat_round_trip(qn: u64, pulse: u16, ppqn: u16)
    requires
        pulse <= MAX_BEAT_PULSE,
    ensures
        parse_value(decimal(qn as nat) + seq![':'] + decimal(pulse as nat)) == Some(
            PulseOrBeatValue::Beat(qn, pulse),
        ),
        PulseOrBeatValue::Beat(qn, pulse).total_in(Timing::Metrical(ppqn)) == Some(
            (qn * ppqn + pulse) as nat,
        ),
{
    let qn_text = decimal(qn as nat);
    let pulse_text = decimal(pulse as nat);
    let text = qn_text + seq![':'] + pulse_text;
    let colon = qn_text.len() as int;
    text.index_of_first_ensures(':');
    assert(text[colon] == ':');
    assert(text.contains(':'));
    let first = text.index_of_first(':').unwrap();
    if first < colon {
        assert(text[first] == qn_text[first]);
        lemma_decimal_has_digits(qn as nat, first);
    }
    assert(first == colon);
    assert(text.take(colon) =~= qn_text);
    assert(text.skip(colon + 1) =~= pulse_text);
    lemma_decimal_parses(qn as nat, u64::MAX as nat);
    lemma_decimal_parses(pulse as nat, MAX_BEAT_PULSE as nat);
}

/// Either side of the colon of a beat may be left out, and stands for 0.
pub proof fn lemma_beat_sides_may_be_left_out(qn: u64, pulse: u16)
    requires
        pulse <= MAX_BEAT_PULSE,
    ensures
        parse_value(decimal(qn as nat) + seq![':']) == Some(PulseOrBeatValue::Beat(qn, 0)),
        parse_value(seq![':'] + decimal(pulse as nat)) == Some(PulseOrBeatValue::Beat(0, pulse)),
        parse_value(seq![':']) == Some(PulseOrBeatValue::Beat(0, 0)),
{
    let qn_text = decimal(qn as nat);
    let pulse_text = decimal(pulse as nat);
    lemma_decimal_parses(qn as nat, u64::MAX as nat);
    lemma_decimal_parses(pulse as nat, MAX_BEAT_PULSE as nat);
    {
        let text = qn_text + seq![':'];
        let colon = qn_text.len() as int;
        text.index_of_first_ensures(':');
        assert(text[colon] == ':');
        assert(text.contains(':'));
        let first = text.index_of_first(':').unwrap();
        if first < colon {
            assert(text[first] == qn_text[first]);
            lemma_decimal_has_digits(qn as nat, first);
        }
        assert(text.take(colon) =~= qn_text);
        assert(text.skip(colon + 1) =~= Seq::<char>::empty());
    }
    {
        let text = seq![':'] + pulse_text;
        text.index_of_first_ensures(':');
        assert(text[0] == ':');
        assert(text.contains(':'));
        assert(text.take(0) =~= Seq::<char>::empty());
        assert(text.skip(1) =~= pulse_text);
    }
    {
        let text = seq![':'];
        text.index_of_first_ensures(':');
        assert(text[0] == ':');
        assert(text.contains(':'));
        assert(text.take(0) =~= Seq::<char>::empty());
        assert(text.skip(1) =~= Seq::<char>::empty());
    }
}

/// A text with a character that is neither a digit, a plus sign nor a colon
/// is neither a pulse nor a beat.
proof fn lemma_not_a_number(text: Seq<char>, bad: int)
    requires
        0 <= bad < text.len(),
        !('\0' <= text[bad] <= '\u{7f}'),
    ensures
        parse_value(text) is None,
{
    text.index_of_first_ensures(':');
    match text.index_of_first(':') {
        Some(colon) => {
            if bad < colon {
                lemma_bad_side(text.take(colon), bad, u64::MAX as nat);
            } else {
                lemma_bad_side(text.skip(colon + 1), bad - colon - 1, MAX_BEAT_PULSE as nat);
            }
        },
        None => {
            lemma_bad_side(text, bad, u64::MAX as nat);
        },
    }
}

/// A text with a character that is neither a digit nor a plus sign is no
/// number.
proof fn lemma_bad_side(text: Seq<char>, bad: int, max: nat)
    requires
        0 <= bad < text.len(),
        !('\0' <= text[bad] <= '\u{7f}'),
    ensures
        parse_unsigned(text, max) is None,
        parse_side(text, max) is None,
{
    if text[0] == '+' {
        lemma_digits_value_needs_digits(text.drop_first(), bad - 1);
    } else {
        lemma_digits_value_needs_digits(text, bad);
    }
}

} // verus!
