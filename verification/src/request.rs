//! The request line: two file names that may hold spaces, then eleven fields.

use vstd::prelude::*;
use vstd::string::*;
use vstd::utf8::*;
use crate::text::{
    find_bytes, first_occurrence, join_seq, lemma_join_prefix, lemma_leading_run, occurs_at,
    separated_at, spans_split, split_seq, split_spans, trim_start_seq,
};

verus! {

/// Why a request line was rejected.
#[derive(Debug, Clone, Copy, PartialEq, Eq)]
pub enum ArgumentError {
    /// The line has fewer than eleven fields between spaces.
    TooFewFields,
    /// What stands before the last eleven fields does not hold `.wav` and a
    /// space, so the two file names cannot be told apart.
    MissingWavSplit,
}

/// The number of fields that follow the two file names.
pub const TAIL_FIELDS: usize = 11;

/// The bytes of `.wav` followed by a space: where the input file's name ends.
pub open spec fn wav_marker() -> Seq<u8> {
    seq![46u8, 119u8, 97u8, 118u8, 32u8]
}

/// The arguments that a request line stands for.
///
/// The last eleven fields between spaces are taken as they are. What stands
/// before them is the two file names: the first ends with the first `.wav`
/// that a space follows, the second is the rest without the spaces at its
/// front.
pub open spec fn split_arguments_of(s: Seq<u8>) -> Result<Seq<Seq<u8>>, ArgumentError> {
    let tokens = split_seq(s, 32);
    if tokens.len() < 11 {
        Err(ArgumentError::TooFewFields)
    } else {
        let head = join_seq(tokens.subrange(0, tokens.len() - 11), 32);
        match first_occurrence(head, wav_marker()) {
            None => Err(ArgumentError::MissingWavSplit),
            Some(at) => Ok(
                seq![
                    head.subrange(0, at + 4),
                    trim_start_seq(head.subrange(at + 4, head.len() as int), 32),
                ] + tokens.subrange(tokens.len() - 11, tokens.len() as int),
            ),
        }
    }
}

/// A place in valid UTF-8 text is a character boundary if it is an end of the
/// text, holds an ASCII byte or follows one.
proof fn lemma_boundary_by_ascii(bytes: Seq<u8>, p: int)
    requires
        valid_utf8(bytes),
        0 <= p <= bytes.len(),
        p == 0 || p == bytes.len() || bytes[p] < 0x80 || bytes[p - 1] < 0x80,
    ensures
        is_char_boundary(bytes, p),
{
    is_char_boundary_start_end_of_seq(bytes);
    if p == 0 || p == bytes.len() {
    } else if bytes[p] < 0x80 {
        is_char_boundary_iff_not_is_continuation_byte(bytes, p);
    } else {
        is_char_boundary_iff_not_is_continuation_byte(bytes, p - 1);
        valid_utf8_split(bytes, p - 1);
        let tail = bytes.subrange(p - 1, bytes.len() as int);
        assert(tail[0] == bytes[p - 1]);
        assert(valid_first_scalar(tail) && valid_utf8(pop_first_scalar(tail)));
        assert(length_of_first_scalar(tail) == 1);
        let rest = pop_first_scalar(tail);
        assert(rest =~= bytes.subrange(p, bytes.len() as int));
        assert(rest[0] == bytes[p]);
        assert(valid_first_scalar(rest));
        assert(!is_continuation_byte(rest[0]));
        is_char_boundary_iff_not_is_continuation_byte(bytes, p);
    }
}

/// Copies the characters that `s` holds from byte `from` up to byte `to`.
fn owned_slice(s: &str, from: usize, to: usize) -> (r: String)
    requires
        from <= to <= s.spec_bytes().len(),
        is_char_boundary(s.spec_bytes(), from as int),
        is_char_boundary(s.spec_bytes(), to as int),
    ensures
        encode_utf8(r@) == s.spec_bytes().subrange(from as int, to as int),
{
    let ghost all = s.spec_bytes();
    let (head, _) = s.split_at(to);
    proof {
        let front = head.spec_bytes();
        encode_utf8_valid_utf8(s@);
        encode_utf8_valid_utf8(head@);
        assert(front =~= all.subrange(0, to as int));
        is_char_boundary_start_end_of_seq(front);
        if 0 < from && from < to {
            is_char_boundary_iff_not_is_continuation_byte(all, from as int);
            assert(front[from as int] == all[from as int]);
            is_char_boundary_iff_not_is_continuation_byte(front, from as int);
        }
    }
    let (_, mid) = head.split_at(from);
    assert(mid.spec_bytes() =~= all.subrange(from as int, to as int));
    mid.to_owned()
}

/// Where the two file names end: the end of the field before the last eleven.
fn names_end(bytes: &[u8], spans: &Vec<(usize, usize)>) -> (end: usize)
    requires
        spans_split(spans@, bytes@, 32),
        spans.len() >= 11,
    ensures
        end <= bytes.len(),
        end == 0 || (end < bytes.len() && bytes@[end as int] == 32),
        bytes@.subrange(0, end as int) == join_seq(
            split_seq(bytes@, 32).subrange(0, spans.len() - 11),
            32,
        ),
{
    let first_field: usize = spans.len() - TAIL_FIELDS;
    if first_field == 0 {
        proof {
            assert(split_seq(bytes@, 32).subrange(0, 0).len() == 0);
            assert(bytes@.subrange(0, 0) =~= Seq::<u8>::empty());
        }
        0
    } else {
        proof {
            lemma_join_prefix(spans@, bytes@, 32, first_field as int);
            assert(separated_at(spans@, bytes@, 32, first_field - 1));
        }
        spans[first_field - 1].1
    }
}

/// Finds in `bytes[..end]` where the first file name ends and where the
/// second one starts.
fn split_names(bytes: &[u8], end: usize) -> (r: Option<(usize, usize)>)
    requires
        end <= bytes.len(),
    ensures
        match r {
            Some((cut, rest)) => {
                let head = bytes@.subrange(0, end as int);
                &&& 4 <= cut < rest <= end
                &&& first_occurrence(head, wav_marker()) == Some(cut - 4)
                &&& bytes@[cut as int] == 32
                &&& bytes@[rest - 1] == 32
                &&& trim_start_seq(head.subrange(cut as int, head.len() as int), 32)
                    == bytes@.subrange(rest as int, end as int)
            },
            None => first_occurrence(bytes@.subrange(0, end as int), wav_marker()).is_none(),
        },
{
    let ghost head = bytes@.subrange(0, end as int);
    let mut marker: Vec<u8> = Vec::new();
    marker.push(46);
    marker.push(119);
    marker.push(97);
    marker.push(118);
    marker.push(32);
    assert(marker@ =~= wav_marker());
    let at = match find_bytes(bytes, end, marker.as_slice()) {
        Some(at) => at,
        None => {
            return None;
        },
    };
    proof {
        assert(occurs_at(head, wav_marker(), at as int));
        assert(head.subrange(at as int, at + 5)[4] == wav_marker()[4]);
    }
    let cut: usize = at + 4;
    let mut rest: usize = cut;
    while rest < end && bytes[rest] == 32
        invariant
            cut <= rest <= end <= bytes.len(),
            forall|j: int| cut <= j < rest ==> bytes@[j] == 32,
        decreases end - rest,
    {
        rest += 1;
    }
    proof {
        let second = head.subrange(cut as int, head.len() as int);
        assert forall|j: int| 0 <= j < rest - cut implies second[j] == 32 by {
            assert(second[j] == bytes@[cut + j]);
        }
        if rest < end {
            assert(second[rest - cut] == bytes@[rest as int]);
        }
        lemma_leading_run(second, 32, rest - cut);
        assert(trim_start_seq(second, 32) =~= bytes@.subrange(rest as int, end as int));
    }
    Some((cut, rest))
}

/// Appends to `args` the last eleven fields of the line.
fn push_tail_fields(args: &mut Vec<String>, input: &str, spans: &Vec<(usize, usize)>)
    requires
        spans_split(spans@, input.spec_bytes(), 32),
        spans.len() >= 11,
    ensures
        final(args)@.len() == old(args)@.len() + 11,
        forall|j: int| 0 <= j < old(args)@.len() ==> final(args)@[j] == old(args)@[j],
        forall|j: int|
            0 <= j < 11 ==> encode_utf8(#[trigger] final(args)@[old(args)@.len() + j]@)
                == split_seq(input.spec_bytes(), 32)[spans.len() - 11 + j],
{
    let ghost bytes = input.spec_bytes();
    let ghost start = args@;
    let n = spans.len();
    let first_field: usize = n - TAIL_FIELDS;
    let mut k: usize = first_field;
    proof {
        encode_utf8_valid_utf8(input@);
    }
    while k < n
        invariant
            first_field <= k <= n,
            n == spans.len(),
            n == first_field + 11,
            bytes == input.spec_bytes(),
            valid_utf8(bytes),
            spans_split(spans@, bytes, 32),
            args@.len() == start.len() + (k - first_field),
            forall|j: int| 0 <= j < start.len() ==> args@[j] == start[j],
            forall|j: int|
                0 <= j < k - first_field ==> encode_utf8(#[trigger] args@[start.len() + j]@)
                    == split_seq(bytes, 32)[first_field + j],
        decreases n - k,
    {
        let (from, to) = spans[k];
        proof {
            if k > 0 {
                assert(separated_at(spans@, bytes, 32, k - 1));
            }
            if k + 1 < n {
                assert(separated_at(spans@, bytes, 32, k as int));
            }
            lemma_boundary_by_ascii(bytes, from as int);
            lemma_boundary_by_ascii(bytes, to as int);
        }
        let ghost before = args@;
        args.push(owned_slice(input, from, to));
        proof {
            assert forall|j: int| 0 <= j < k + 1 - first_field implies encode_utf8(
                #[trigger] args@[start.len() + j]@,
            ) == split_seq(bytes, 32)[first_field + j] by {
                if j < k - first_field {
                    assert(args@[start.len() + j] == before[start.len() + j]);
                }
            }
        }
        k += 1;
    }
}

/// Splits a request line into its thirteen arguments: the input file, the
/// output file and the eleven fields that follow them.
pub fn split_arguments(input: &str) -> (r: Result<Vec<String>, ArgumentError>)
    ensures
        match r {
            Ok(args) => args@.len() == 13 && split_arguments_of(input.spec_bytes()) == Ok::<
                Seq<Seq<u8>>,
                ArgumentError,
            >(Seq::new(13, |i: int| encode_utf8(args@[i]@))),
            Err(e) => split_arguments_of(input.spec_bytes()) == Err::<
                Seq<Seq<u8>>,
                ArgumentError,
            >(e),
        },
{
    let bytes = input.as_bytes();
    let spans = split_spans(bytes, 32);
    if spans.len() < TAIL_FIELDS {
        return Err(ArgumentError::TooFewFields);
    }
    let head_end = names_end(bytes, &spans);
    let (cut, rest) = match split_names(bytes, head_end) {
        Some(found) => found,
        None => {
            return Err(ArgumentError::MissingWavSplit);
        },
    };
    proof {
        encode_utf8_valid_utf8(input@);
        lemma_boundary_by_ascii(bytes@, 0);
        lemma_boundary_by_ascii(bytes@, cut as int);
        lemma_boundary_by_ascii(bytes@, rest as int);
        lemma_boundary_by_ascii(bytes@, head_end as int);
    }
    let mut args: Vec<String> = Vec::new();
    args.push(owned_slice(input, 0, cut));
    args.push(owned_slice(input, rest, head_end));
    push_tail_fields(&mut args, input, &spans);
    proof {
        let tokens = split_seq(bytes@, 32);
        let head = bytes@.subrange(0, head_end as int);
        let got = Seq::new(13, |i: int| encode_utf8(args@[i]@));
        let want = seq![
            head.subrange(0, cut as int),
            trim_start_seq(head.subrange(cut as int, head.len() as int), 32),
        ] + tokens.subrange(tokens.len() - 11, tokens.len() as int);
        assert(head.subrange(0, cut as int) =~= bytes@.subrange(0, cut as int));
        assert forall|i: int| 0 <= i < 13 implies got[i] == want[i] by {
            if i >= 2 {
                assert(encode_utf8(args@[2 + (i - 2)]@) == tokens[spans.len() - 11 + (i - 2)]);
            }
        }
        assert(got =~= want);
    }
    Ok(args)
}

/// How a failed request is answered.
#[derive(Debug, Clone, Copy, PartialEq, Eq)]
pub enum Failure {
    /// The input file is missing.
    NotFound,
    /// Anything else went wrong.
    Internal,
}

/// The bytes of `not found`: what the message of a missing input holds.
pub open spec fn not_found_marker() -> Seq<u8> {
    seq![110u8, 111u8, 116u8, 32u8, 102u8, 111u8, 117u8, 110u8, 100u8]
}

/// Tells a missing input from other failures by the failure's message.
pub fn classify_failure(message: &str) -> (r: Failure)
    ensures
        r == if first_occurrence(message.spec_bytes(), not_found_marker()).is_some() {
            Failure::NotFound
        } else {
            Failure::Internal
        },
{
    let bytes = message.as_bytes();
    let mut marker: Vec<u8> = Vec::new();
    marker.push(110);
    marker.push(111);
    marker.push(116);
    marker.push(32);
    marker.push(102);
    marker.push(111);
    marker.push(117);
    marker.push(110);
    marker.push(100);
    assert(marker@ =~= not_found_marker());
    assert(bytes@.subrange(0, bytes@.len() as int) =~= bytes@);
    match find_bytes(bytes, bytes.len(), marker.as_slice()) {
        Some(_) => Failure::NotFound,
        None => Failure::Internal,
    }
}

} // verus!
