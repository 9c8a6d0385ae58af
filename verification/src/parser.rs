//! Decoding of the textual request fields: pitch names and pitchbend streams.

use vstd::prelude::*;
use vstd::string::*;
use crate::text::{
    parse_i32_in, parse_signed, parse_unsigned, parse_unsigned_in, split_seq, split_spans,
    spans_split,
};

verus! {

/// Why a pitchbend string was rejected.
#[derive(Debug, Clone, Copy, PartialEq, Eq)]
pub enum PitchbendError {
    /// A run length is not an unsigned decimal number that fits the machine word.
    InvalidRunLength,
    /// A run length asks to repeat the last value of a stream that is still empty.
    EmptyStream,
}

/// Why a pitch was rejected.
#[derive(Debug, Clone, Copy, PartialEq, Eq)]
pub enum PitchError {
    /// The text is no number and has fewer than two characters.
    InvalidFormat,
    /// The text does not start with one of the twelve note names.
    InvalidNote,
    /// What follows the note name is no 32-bit decimal number.
    InvalidOctave,
    /// The semitone number does not fit 32 bits.
    OutOfRange,
}

/// The six-bit value that one byte of a pitchbend stream stands for.
///
/// The alphabet is `A`–`Z`, `a`–`z`, `0`–`9`, `+`, `/`, in this order; any
/// other byte counts as zero.
pub open spec fn uint6_of(c: u8) -> int {
    if c == 43 {
        62
    } else if c == 47 {
        63
    } else if 48 <= c <= 57 {
        c + 4
    } else if 65 <= c <= 90 {
        c - 65
    } else if 97 <= c <= 122 {
        c - 71
    } else {
        0
    }
}

/// The signed twelve-bit number that a pair of stream bytes stands for: the
/// first byte gives the high six bits, and the result is in two's complement.
pub open spec fn int12_of(hi: u8, lo: u8) -> int {
    let raw = uint6_of(hi) * 64 + uint6_of(lo);
    if raw >= 2048 {
        raw - 4096
    } else {
        raw
    }
}

/// The numbers that a stream stands for, one per pair of bytes; an odd byte
/// at the end is ignored.
pub open spec fn int12_stream(bytes: Seq<u8>) -> Seq<i16> {
    Seq::new((bytes.len() / 2) as nat, |i: int| int12_of(bytes[2 * i], bytes[2 * i + 1]) as i16)
}

/// The byte of the alphabet that stands for the six-bit value `v`.
pub open spec fn uint6_byte(v: int) -> u8
    recommends
        0 <= v < 64,
{
    if v < 26 {
        (65 + v) as u8
    } else if v < 52 {
        (71 + v) as u8
    } else if v < 62 {
        (v - 4) as u8
    } else if v == 62 {
        43u8
    } else {
        47u8
    }
}

/// The pair of bytes that writes the signed twelve-bit number `x`.
pub open spec fn int12_bytes(x: int) -> (u8, u8)
    recommends
        -2048 <= x < 2048,
{
    let raw = if x < 0 {
        x + 4096
    } else {
        x
    };
    (uint6_byte(raw / 64), uint6_byte(raw % 64))
}

/// Every six-bit value has its byte in the alphabet, and decoding that byte
/// gives the value back.
pub proof fn lemma_uint6_round_trip(v: int)
    requires
        0 <= v < 64,
    ensures
        uint6_of(uint6_byte(v)) == v,
{
}

/// Every number from -2048 to 2047 is written by a pair of bytes, and
/// decoding the pair gives the number back.
pub proof fn lemma_int12_round_trip(x: int)
    requires
        -2048 <= x < 2048,
    ensures
        int12_of(int12_bytes(x).0, int12_bytes(x).1) == x,
{
    let raw = if x < 0 {
        x + 4096
    } else {
        x
    };
    assert(0 <= raw / 64 < 64 && 0 <= raw % 64 < 64 && (raw / 64) * 64 + raw % 64 == raw);
    lemma_uint6_round_trip(raw / 64);
    lemma_uint6_round_trip(raw % 64);
}

/// `s` followed by `n` more copies of its last value.
pub open spec fn repeat_last(s: Seq<i16>, n: nat) -> Seq<i16>
    recommends
        s.len() > 0,
{
    s + Seq::new(n, |i: int| s.last())
}

/// Decoding of the parts of a pitchbend string from part `idx` on, with
/// `acc` decoded so far.
///
/// The parts alternate between a stream and a run length; a run length
/// repeats the last value decoded so far. A stream without a run length may
/// end the string.
pub open spec fn decode_parts(parts: Seq<Seq<u8>>, idx: int, acc: Seq<i16>) -> Result<
    Seq<i16>,
    PitchbendError,
>
    decreases parts.len() - idx,
{
    if idx + 1 < parts.len() {
        let stream = acc + int12_stream(parts[idx]);
        match parse_unsigned(parts[idx + 1], usize::MAX as nat) {
            None => Err(PitchbendError::InvalidRunLength),
            Some(n) => if n == 0 {
                decode_parts(parts, idx + 2, stream)
            } else if stream.len() == 0 {
                Err(PitchbendError::EmptyStream)
            } else {
                decode_parts(parts, idx + 2, repeat_last(stream, n))
            },
        }
    } else if idx < parts.len() {
        Ok(acc + int12_stream(parts[idx]))
    } else {
        Ok(acc)
    }
}

/// The cent values that a pitchbend string stands for: its parts between
/// `#` decoded in turn, and a zero at the end.
pub open spec fn pitchbend_cents(bytes: Seq<u8>) -> Result<Seq<i16>, PitchbendError> {
    match decode_parts(split_seq(bytes, 35), 0, Seq::<i16>::empty()) {
        Ok(cents) => Ok(cents.push(0i16)),
        Err(e) => Err(e),
    }
}

/// Maps one byte of a pitchbend stream to its six-bit value.
pub fn to_uint6(c: u8) -> (r: u8)
    ensures
        r == uint6_of(c),
        r < 64,
{
    if c == 43 {
        62
    } else if c == 47 {
        63
    } else if 48 <= c && c <= 57 {
        c + 4
    } else if 65 <= c && c <= 90 {
        c - 65
    } else if 97 <= c && c <= 122 {
        c - 71
    } else {
        0
    }
}

/// Decodes one pair of stream bytes into a signed twelve-bit number.
pub fn to_int12(hi: u8, lo: u8) -> (r: i16)
    ensures
        r == int12_of(hi, lo),
        -2048 <= r < 2048,
{
    let raw: u16 = (to_uint6(hi) as u16) * 64 + (to_uint6(lo) as u16);
    if raw >= 2048 {
        (raw as i16) - 4096
    } else {
        raw as i16
    }
}

/// Appends to `out` the numbers of the stream `bytes[from..to]`.
fn extend_int12_stream(out: &mut Vec<i16>, bytes: &[u8], from: usize, to: usize)
    requires
        from <= to <= bytes.len(),
    ensures
        final(out)@ == old(out)@ + int12_stream(bytes@.subrange(from as int, to as int)),
{
    let ghost part = bytes@.subrange(from as int, to as int);
    let ghost before = out@;
    let pairs: usize = (to - from) / 2;
    let mut k: usize = 0;
    while k < pairs
        invariant
            from <= to <= bytes.len(),
            pairs == (to - from) / 2,
            k <= pairs,
            part == bytes@.subrange(from as int, to as int),
            out@.len() == before.len() + k,
            forall|j: int| 0 <= j < before.len() ==> out@[j] == before[j],
            forall|j: int| 0 <= j < k ==> out@[before.len() + j] == int12_stream(part)[j],
        decreases pairs - k,
    {
        let hi = bytes[from + 2 * k];
        let lo = bytes[from + 2 * k + 1];
        assert(part[2 * k] == hi && part[2 * k + 1] == lo);
        out.push(to_int12(hi, lo));
        k += 1;
    }
    assert(out@ =~= before + int12_stream(part));
}

/// Decodes a pitchbend stream: every two bytes give one signed twelve-bit
/// number, and an odd byte at the end is ignored.
pub fn to_int12_stream(b64: &str) -> (r: Vec<i16>)
    ensures
        r@ == int12_stream(b64.spec_bytes()),
{
    let bytes = b64.as_bytes();
    let mut out: Vec<i16> = Vec::new();
    extend_int12_stream(&mut out, bytes, 0, bytes.len());
    assert(bytes@.subrange(0, bytes@.len() as int) =~= bytes@);
    assert(Seq::<i16>::empty() + int12_stream(bytes@) =~= int12_stream(bytes@));
    out
}

/// Decodes a run-length encoded pitchbend string into cents.
///
/// The string is a list of parts between `#`: a stream, a run length, a
/// stream, a run length and so on. Each run length repeats the last value
/// decoded so far that many times. The result ends with one more zero.
pub fn pitch_string_to_cents(string: &str) -> (r: Result<Vec<i16>, PitchbendError>)
    ensures
        match r {
            Ok(cents) => pitchbend_cents(string.spec_bytes()) == Ok::<Seq<i16>, PitchbendError>(
                cents@,
            ) && cents@.len() >= 1 && cents@.last() == 0,
            Err(e) => pitchbend_cents(string.spec_bytes()) == Err::<Seq<i16>, PitchbendError>(e),
        },
{
    let bytes = string.as_bytes();
    let spans = split_spans(bytes, 35);
    let ghost parts = split_seq(bytes@, 35);
    let mut res: Vec<i16> = Vec::new();
    let mut idx: usize = 0;
    while idx < spans.len() - 1
        invariant
            spans_split(spans@, bytes@, 35),
            bytes@ == string.spec_bytes(),
            parts == split_seq(bytes@, 35),
            idx <= spans.len(),
            decode_parts(parts, 0, Seq::<i16>::empty()) == decode_parts(parts, idx as int, res@),
        decreases spans.len() - idx,
    {
        let (from, to) = spans[idx];
        let (count_from, count_to) = spans[idx + 1];
        extend_int12_stream(&mut res, bytes, from, to);
        let ghost stream = res@;
        match parse_unsigned_in(bytes, count_from, count_to, usize::MAX as u64) {
            None => {
                return Err(PitchbendError::InvalidRunLength);
            },
            Some(count) => {
                if count > 0 {
                    if res.len() == 0 {
                        return Err(PitchbendError::EmptyStream);
                    }
                    let last = res[res.len() - 1];
                    let mut k: u64 = 0;
                    while k < count
                        invariant
                            k <= count,
                            stream.len() > 0,
                            last == stream.last(),
                            res@ == stream + Seq::new(k as nat, |i: int| last),
                        decreases count - k,
                    {
                        res.push(last);
                        k += 1;
                        assert(res@ =~= stream + Seq::new(k as nat, |i: int| last));
                    }
                    assert(res@ =~= repeat_last(stream, count as nat));
                }
            },
        }
        idx += 2;
    }
    if idx < spans.len() {
        let (from, to) = spans[idx];
        extend_int12_stream(&mut res, bytes, from, to);
    }
    res.push(0);
    Ok(res)
}

/// How many bytes the character takes whose encoding starts with `b`.
pub open spec fn first_char_width(b: u8) -> int {
    if b < 0x80 {
        1
    } else if b < 0xE0 {
        2
    } else if b < 0xF0 {
        3
    } else {
        4
    }
}

/// The semitone of a note name within its octave: `C`, `C#`, `D`, `D#`, `E`,
/// `F`, `F#`, `G`, `G#`, `A`, `A#`, `B` count from 0 to 11.
pub open spec fn note_value(name: Seq<u8>) -> Option<int> {
    if name.len() == 1 {
        if name[0] == 67 {
            Some(0int)
        } else if name[0] == 68 {
            Some(2int)
        } else if name[0] == 69 {
            Some(4int)
        } else if name[0] == 70 {
            Some(5int)
        } else if name[0] == 71 {
            Some(7int)
        } else if name[0] == 65 {
            Some(9int)
        } else if name[0] == 66 {
            Some(11int)
        } else {
            None
        }
    } else if name.len() == 2 && name[1] == 35 {
        if name[0] == 67 {
            Some(1int)
        } else if name[0] == 68 {
            Some(3int)
        } else if name[0] == 70 {
            Some(6int)
        } else if name[0] == 71 {
            Some(8int)
        } else if name[0] == 65 {
            Some(10int)
        } else {
            None
        }
    } else {
        None
    }
}

/// The semitone number that a pitch text stands for.
///
/// A 32-bit decimal number stands for itself. Otherwise the text is a note
/// name, which takes two bytes where the second character is `#` and one
/// byte else, followed by a 32-bit decimal octave; octave -1 starts at
/// semitone 0. A text of fewer than two characters has no such form.
pub open spec fn pitch_of(s: Seq<u8>) -> Result<int, PitchError> {
    match parse_signed(s, i32::MIN as int, i32::MAX as int) {
        Some(v) => Ok(v),
        None => if s.len() == 0 || s.len() <= first_char_width(s[0]) {
            Err(PitchError::InvalidFormat)
        } else {
            let cut: int = if s[1] == 35 {
                2
            } else {
                1
            };
            match note_value(s.subrange(0, cut)) {
                None => Err(PitchError::InvalidNote),
                Some(note) => match parse_signed(
                    s.subrange(cut, s.len() as int),
                    i32::MIN as int,
                    i32::MAX as int,
                ) {
                    None => Err(PitchError::InvalidOctave),
                    Some(octave) => {
                        let v = (octave + 1) * 12 + note;
                        if i32::MIN <= v <= i32::MAX {
                            Ok(v)
                        } else {
                            Err(PitchError::OutOfRange)
                        }
                    },
                },
            }
        },
    }
}

/// Reads the note name `bytes[..cut]`, where `cut` is 1 or 2.
fn note_of(bytes: &[u8], cut: usize) -> (r: Option<i64>)
    requires
        1 <= cut <= 2,
        cut <= bytes.len(),
        cut == 2 ==> bytes[1] == 35,
    ensures
        match r {
            Some(v) => note_value(bytes@.subrange(0, cut as int)) == Some(v as int) && 0 <= v < 12,
            None => note_value(bytes@.subrange(0, cut as int)).is_none(),
        },
{
    let ghost name = bytes@.subrange(0, cut as int);
    assert(name[0] == bytes@[0]);
    assert(cut == 2 ==> name[1] == bytes@[1]);
    let letter = bytes[0];
    if cut == 1 {
        if letter == 67 {
            Some(0)
        } else if letter == 68 {
            Some(2)
        } else if letter == 69 {
            Some(4)
        } else if letter == 70 {
            Some(5)
        } else if letter == 71 {
            Some(7)
        } else if letter == 65 {
            Some(9)
        } else if letter == 66 {
            Some(11)
        } else {
            None
        }
    } else {
        if letter == 67 {
            Some(1)
        } else if letter == 68 {
            Some(3)
        } else if letter == 70 {
            Some(6)
        } else if letter == 71 {
            Some(8)
        } else if letter == 65 {
            Some(10)
        } else {
            None
        }
    }
}

/// Reads a pitch: a semitone number, or a note name with an octave such as
/// `C4` (60) or `A#3` (58).
pub fn pitch_parser(arg: &str) -> (r: Result<i32, PitchError>)
    ensures
        match r {
            Ok(v) => pitch_of(arg.spec_bytes()) == Ok::<int, PitchError>(v as int),
            Err(e) => pitch_of(arg.spec_bytes()) == Err::<int, PitchError>(e),
        },
{
    let bytes = arg.as_bytes();
    let len = bytes.len();
    assert(bytes@.subrange(0, len as int) =~= bytes@);
    if let Some(v) = parse_i32_in(bytes, 0, len) {
        return Ok(v);
    }
    if len == 0 {
        return Err(PitchError::InvalidFormat);
    }
    let first = bytes[0];
    let width: usize = if first < 0x80 {
        1
    } else if first < 0xE0 {
        2
    } else if first < 0xF0 {
        3
    } else {
        4
    };
    if len <= width {
        return Err(PitchError::InvalidFormat);
    }
    let cut: usize = if bytes[1] == 35 {
        2
    } else {
        1
    };
    let note = match note_of(bytes, cut) {
        Some(n) => n,
        None => {
            return Err(PitchError::InvalidNote);
        },
    };
    let octave = match parse_i32_in(bytes, cut, len) {
        Some(o) => o,
        None => {
            return Err(PitchError::InvalidOctave);
        },
    };
    let v: i64 = (octave as i64 + 1) * 12 + note;
    if v < -2147483648 || v > 2147483647 {
        return Err(PitchError::OutOfRange);
    }
    Ok(v as i32)
}

} // verus!
