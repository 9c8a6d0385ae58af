//! Byte-level text bookkeeping: splitting on a separator, joining, searching
//! and decimal numbers, each with its mathematical model.

use vstd::prelude::*;
use vstd::string::*;

verus! {

/// The pieces of `s` between occurrences of `sep`, in order.
///
/// A sequence without the separator is one piece; `n` separators give
/// `n + 1` pieces, some of which may be empty.
pub open spec fn split_seq(s: Seq<u8>, sep: u8) -> Seq<Seq<u8>>
    decreases s.len(),
{
    if s.len() == 0 {
        seq![Seq::<u8>::empty()]
    } else {
        let head = split_seq(s.drop_last(), sep);
        if s.last() == sep {
            head.push(Seq::<u8>::empty())
        } else {
            head.update(head.len() - 1, head.last().push(s.last()))
        }
    }
}

/// The pieces put together again with `sep` between neighbours.
pub open spec fn join_seq(parts: Seq<Seq<u8>>, sep: u8) -> Seq<u8>
    decreases parts.len(),
{
    if parts.len() == 0 {
        Seq::<u8>::empty()
    } else if parts.len() == 1 {
        parts[0]
    } else {
        join_seq(parts.drop_last(), sep).push(sep) + parts.last()
    }
}

/// `spans` gives, as half-open index ranges into `s`, the pieces of
/// `split_seq(s, sep)`: consecutive ranges are one separator apart, the
/// first starts at 0 and the last ends at the end of `s`.
pub open spec fn spans_split(spans: Seq<(usize, usize)>, s: Seq<u8>, sep: u8) -> bool {
    &&& spans.len() == split_seq(s, sep).len()
    &&& spans.len() >= 1
    &&& spans[0].0 == 0
    &&& spans.last().1 == s.len()
    &&& forall|i: int|
        #![trigger spans[i]]
        0 <= i < spans.len() ==> spans[i].0 <= spans[i].1 <= s.len() && s.subrange(
            spans[i].0 as int,
            spans[i].1 as int,
        ) == split_seq(s, sep)[i]
    &&& forall|i: int| 0 <= i < spans.len() - 1 ==> #[trigger] separated_at(spans, s, sep, i)
}

/// Piece `i` ends at a separator, and piece `i + 1` starts right after it.
pub open spec fn separated_at(spans: Seq<(usize, usize)>, s: Seq<u8>, sep: u8, i: int) -> bool {
    s[spans[i].1 as int] == sep && spans[i + 1].0 == spans[i].1 + 1
}

/// Splitting always yields at least one piece.
pub proof fn lemma_split_nonempty(s: Seq<u8>, sep: u8)
    ensures
        split_seq(s, sep).len() >= 1,
    decreases s.len(),
{
    if s.len() > 0 {
        lemma_split_nonempty(s.drop_last(), sep);
    }
}

/// A separator at the end of the text closes the last piece and opens an
/// empty one.
proof fn lemma_spans_after_separator(spans: Seq<(usize, usize)>, s: Seq<u8>, sep: u8)
    requires
        s.len() > 0,
        s.len() <= usize::MAX,
        s.last() == sep,
        spans_split(spans, s.drop_last(), sep),
    ensures
        spans_split(spans.push((s.len() as usize, s.len() as usize)), s, sep),
{
    let before = s.drop_last();
    let end = s.len() as usize;
    let grown = spans.push((end, end));
    assert(split_seq(s, sep) == split_seq(before, sep).push(Seq::<u8>::empty()));
    assert forall|k: int| #![trigger grown[k]] 0 <= k < grown.len() implies {
        &&& grown[k].0 <= grown[k].1 <= s.len()
        &&& s.subrange(grown[k].0 as int, grown[k].1 as int) == split_seq(s, sep)[k]
    } by {
        if k < spans.len() {
            assert(grown[k] == spans[k]);
            assert(s.subrange(spans[k].0 as int, spans[k].1 as int) =~= before.subrange(
                spans[k].0 as int,
                spans[k].1 as int,
            ));
        } else {
            assert(s.subrange(end as int, end as int) =~= Seq::<u8>::empty());
        }
    }
    assert forall|i: int| 0 <= i < grown.len() - 1 implies #[trigger] separated_at(
        grown,
        s,
        sep,
        i,
    ) by {
        assert(grown[i] == spans[i]);
        if i + 1 < spans.len() {
            assert(separated_at(spans, before, sep, i));
            assert(grown[i + 1] == spans[i + 1]);
            assert(s[spans[i].1 as int] == before[spans[i].1 as int]);
        }
    }
}

/// Any other byte at the end of the text lengthens the last piece by one.
proof fn lemma_spans_after_other(spans: Seq<(usize, usize)>, s: Seq<u8>, sep: u8)
    requires
        s.len() > 0,
        s.len() <= usize::MAX,
        s.last() != sep,
        spans_split(spans, s.drop_last(), sep),
    ensures
        spans_split(spans.update(spans.len() - 1, (spans.last().0, s.len() as usize)), s, sep),
{
    let before = s.drop_last();
    let last = spans.len() - 1;
    let grown = spans.update(last, (spans.last().0, s.len() as usize));
    let pieces = split_seq(before, sep);
    assert(split_seq(s, sep) == pieces.update(pieces.len() - 1, pieces.last().push(s.last())));
    assert forall|k: int| #![trigger grown[k]] 0 <= k < grown.len() implies {
        &&& grown[k].0 <= grown[k].1 <= s.len()
        &&& s.subrange(grown[k].0 as int, grown[k].1 as int) == split_seq(s, sep)[k]
    } by {
        if k < last {
            assert(grown[k] == spans[k]);
            assert(s.subrange(spans[k].0 as int, spans[k].1 as int) =~= before.subrange(
                spans[k].0 as int,
                spans[k].1 as int,
            ));
        } else {
            assert(spans[last].1 == before.len());
            assert(s.subrange(spans[last].0 as int, s.len() as int) =~= before.subrange(
                spans[last].0 as int,
                before.len() as int,
            ).push(s.last()));
        }
    }
    assert forall|i: int| 0 <= i < grown.len() - 1 implies #[trigger] separated_at(
        grown,
        s,
        sep,
        i,
    ) by {
        assert(separated_at(spans, before, sep, i));
        assert(grown[i] == spans[i]);
        assert(grown[i + 1].0 == spans[i + 1].0);
        assert(s[spans[i].1 as int] == before[spans[i].1 as int]);
    }
}

/// Finds the pieces of `bytes` between occurrences of `sep`.
pub fn split_spans(bytes: &[u8], sep: u8) -> (spans: Vec<(usize, usize)>)
    ensures
        spans_split(spans@, bytes@, sep),
{
    let mut spans: Vec<(usize, usize)> = Vec::new();
    let mut start: usize = 0;
    let mut i: usize = 0;
    proof {
        let none = bytes@.subrange(0, 0);
        assert(none =~= Seq::<u8>::empty());
        assert(none.subrange(0, 0) =~= none);
    }
    while i < bytes.len()
        invariant
            i <= bytes.len(),
            start <= i,
            spans_split(spans@.push((start, i)), bytes@.subrange(0, i as int), sep),
        decreases bytes.len() - i,
    {
        let ghost seen = spans@.push((start, i));
        let ghost after = bytes@.subrange(0, i + 1);
        proof {
            assert(after.drop_last() =~= bytes@.subrange(0, i as int));
            assert(after.last() == bytes@[i as int]);
        }
        if bytes[i] == sep {
            spans.push((start, i));
            start = i + 1;
            proof {
                lemma_spans_after_separator(seen, after, sep);
            }
        } else {
            proof {
                lemma_spans_after_other(seen, after, sep);
                assert(spans@.push((start, (i + 1) as usize)) =~= seen.update(
                    seen.len() - 1,
                    (start, (i + 1) as usize),
                ));
            }
        }
        i += 1;
    }
    spans.push((start, i));
    assert(bytes@.subrange(0, i as int) =~= bytes@);
    spans
}

/// Joining the first `k` pieces of a split gives back the text up to the end
/// of the `k`-th piece.
pub proof fn lemma_join_prefix(spans: Seq<(usize, usize)>, s: Seq<u8>, sep: u8, k: int)
    requires
        spans_split(spans, s, sep),
        1 <= k <= spans.len(),
    ensures
        join_seq(split_seq(s, sep).subrange(0, k), sep) == s.subrange(0, spans[k - 1].1 as int),
    decreases k,
{
    let parts = split_seq(s, sep).subrange(0, k);
    if k == 1 {
        assert(parts[0] == split_seq(s, sep)[0]);
        assert(spans[0].0 == 0);
    } else {
        lemma_join_prefix(spans, s, sep, k - 1);
        assert(parts.drop_last() =~= split_seq(s, sep).subrange(0, k - 1));
        assert(parts.last() == split_seq(s, sep)[k - 1]);
        let before = spans[k - 2];
        let here = spans[k - 1];
        assert(separated_at(spans, s, sep, k - 2));
        assert(s.subrange(here.0 as int, here.1 as int) == split_seq(s, sep)[k - 1]);
        assert(s.subrange(0, before.1 as int).push(sep) + s.subrange(here.0 as int, here.1 as int)
            =~= s.subrange(0, here.1 as int));
    }
}

/// Splitting a text and joining the pieces gives the text back.
pub proof fn lemma_join_split(s: Seq<u8>, sep: u8)
    ensures
        join_seq(split_seq(s, sep), sep) == s,
    decreases s.len(),
{
    if s.len() == 0 {
        assert(join_seq(split_seq(s, sep), sep) =~= s);
    } else {
        let shorter = s.drop_last();
        let head = split_seq(shorter, sep);
        lemma_split_nonempty(shorter, sep);
        lemma_join_split(shorter, sep);
        if s.last() == sep {
            let pieces = head.push(Seq::<u8>::empty());
            assert(pieces.drop_last() =~= head);
            assert(join_seq(pieces, sep) =~= shorter.push(sep));
            assert(shorter.push(sep) =~= s);
        } else {
            let grown = head.last().push(s.last());
            let pieces = head.update(head.len() - 1, grown);
            if head.len() == 1 {
                assert(join_seq(head, sep) == head[0]);
                assert(join_seq(pieces, sep) == grown);
            } else {
                assert(pieces.drop_last() =~= head.drop_last());
                assert(join_seq(pieces, sep) =~= (join_seq(head.drop_last(), sep).push(sep)
                    + head.last()).push(s.last()));
            }
            assert(shorter.push(s.last()) =~= s);
        }
    }
}

/// `needle` stands in `hay` at index `i`.
pub open spec fn occurs_at(hay: Seq<u8>, needle: Seq<u8>, i: int) -> bool {
    0 <= i && i + needle.len() <= hay.len() && hay.subrange(i, i + needle.len()) == needle
}

/// `i` is the lowest index at which `needle` stands in `hay`.
pub open spec fn is_first_occurrence(hay: Seq<u8>, needle: Seq<u8>, i: int) -> bool {
    occurs_at(hay, needle, i) && forall|j: int| 0 <= j < i ==> !occurs_at(hay, needle, j)
}

/// The lowest index at which `needle` stands in `hay`, if it stands there at all.
pub open spec fn first_occurrence(hay: Seq<u8>, needle: Seq<u8>) -> Option<int> {
    if exists|i: int| occurs_at(hay, needle, i) {
        Some(choose|i: int| is_first_occurrence(hay, needle, i))
    } else {
        None
    }
}

/// A lowest index of occurrence is the value of `first_occurrence`.
pub proof fn lemma_first_occurrence(hay: Seq<u8>, needle: Seq<u8>, i: int)
    requires
        is_first_occurrence(hay, needle, i),
    ensures
        first_occurrence(hay, needle) == Some(i),
{
    let c = choose|c: int| is_first_occurrence(hay, needle, c);
    assert(is_first_occurrence(hay, needle, c));
    if c < i {
        assert(!occurs_at(hay, needle, c));
    }
    if i < c {
        assert(!occurs_at(hay, needle, i));
    }
}

/// Whether `needle` stands in `hay[..end]` at index `i`.
fn matches_at(hay: &[u8], end: usize, needle: &[u8], i: usize) -> (r: bool)
    requires
        end <= hay.len(),
        i + needle.len() <= end,
    ensures
        r == occurs_at(hay@.subrange(0, end as int), needle@, i as int),
{
    let ghost window = hay@.subrange(0, end as int);
    let mut k: usize = 0;
    while k < needle.len()
        invariant
            k <= needle.len(),
            end <= hay.len(),
            i + needle.len() <= end,
            window == hay@.subrange(0, end as int),
            forall|j: int| 0 <= j < k ==> hay@[i + j] == needle@[j],
        decreases needle.len() - k,
    {
        if hay[i + k] != needle[k] {
            proof {
                let got = window.subrange(i as int, i + needle@.len());
                assert(got[k as int] == hay@[i + k]);
            }
            return false;
        }
        k += 1;
    }
    assert(window.subrange(i as int, i + needle@.len()) =~= needle@);
    true
}

/// Searches `hay[..end]` for the first place where `needle` stands.
pub fn find_bytes(hay: &[u8], end: usize, needle: &[u8]) -> (r: Option<usize>)
    requires
        end <= hay.len(),
    ensures
        match r {
            Some(i) => is_first_occurrence(hay@.subrange(0, end as int), needle@, i as int)
                && first_occurrence(hay@.subrange(0, end as int), needle@) == Some(i as int),
            None => first_occurrence(hay@.subrange(0, end as int), needle@).is_none(),
        },
{
    let ghost window = hay@.subrange(0, end as int);
    if needle.len() > end {
        return None;
    }
    let last: usize = end - needle.len();
    let mut i: usize = 0;
    while i <= last
        invariant
            end <= hay.len(),
            needle.len() <= end,
            last == end - needle.len(),
            i <= last,
            window == hay@.subrange(0, end as int),
            forall|j: int| 0 <= j < i ==> !occurs_at(window, needle@, j),
        decreases last - i,
    {
        if matches_at(hay, end, needle, i) {
            proof {
                lemma_first_occurrence(window, needle@, i as int);
            }
            return Some(i);
        }
        if i == last {
            return None;
        }
        i += 1;
    }
    None
}

/// How many copies of `c` stand at the front of `s`.
pub open spec fn leading_run(s: Seq<u8>, c: u8) -> nat
    decreases s.len(),
{
    if s.len() > 0 && s[0] == c {
        1 + leading_run(s.drop_first(), c)
    } else {
        0
    }
}

/// `s` without the copies of `c` at its front.
pub open spec fn trim_start_seq(s: Seq<u8>, c: u8) -> Seq<u8> {
    s.subrange(leading_run(s, c) as int, s.len() as int)
}

/// A run of `k` copies of `c` that ends at the end of `s` or before another
/// byte is the whole leading run.
pub proof fn lemma_leading_run(s: Seq<u8>, c: u8, k: int)
    requires
        0 <= k <= s.len(),
        forall|j: int| 0 <= j < k ==> s[j] == c,
        k == s.len() || s[k] != c,
    ensures
        leading_run(s, c) == k,
    decreases k,
{
    if k > 0 {
        let rest = s.drop_first();
        assert forall|j: int| 0 <= j < k - 1 implies rest[j] == c by {
            assert(rest[j] == s[j + 1]);
        }
        lemma_leading_run(rest, c, k - 1);
    }
}

/// A decimal digit in ASCII.
pub open spec fn is_digit(b: u8) -> bool {
    48 <= b <= 57
}

/// Every byte of `s` is a decimal digit.
pub open spec fn all_digits(s: Seq<u8>) -> bool {
    forall|i: int| 0 <= i < s.len() ==> is_digit(#[trigger] s[i])
}

/// The number that a sequence of decimal digits writes.
pub open spec fn decimal_value(s: Seq<u8>) -> nat
    decreases s.len(),
{
    if s.len() == 0 {
        0
    } else {
        decimal_value(s.drop_last()) * 10 + (s.last() - 48) as nat
    }
}

/// The unsigned number that `s` writes: an optional `+`, then at least one
/// digit and nothing else, with a value of at most `max`.
pub open spec fn parse_unsigned(s: Seq<u8>, max: nat) -> Option<nat> {
    let digits = if s.len() > 0 && s[0] == 43 {
        s.drop_first()
    } else {
        s
    };
    if digits.len() > 0 && all_digits(digits) && decimal_value(digits) <= max {
        Some(decimal_value(digits))
    } else {
        None
    }
}

/// The signed number that `s` writes: an optional `+` or `-`, then at least
/// one digit and nothing else, with a value from `min` to `max`.
pub open spec fn parse_signed(s: Seq<u8>, min: int, max: int) -> Option<int>
    recommends
        min <= 0 <= max,
{
    if s.len() > 0 && s[0] == 45 {
        let digits = s.drop_first();
        if digits.len() > 0 && all_digits(digits) && min <= -(decimal_value(digits) as int) {
            Some(-(decimal_value(digits) as int))
        } else {
            None
        }
    } else {
        match parse_unsigned(s, max as nat) {
            Some(v) => Some(v as int),
            None => None,
        }
    }
}

/// A longer run of digits writes a number that is at least as large.
pub proof fn lemma_decimal_monotonic(s: Seq<u8>, k: int)
    requires
        0 <= k <= s.len(),
        all_digits(s),
    ensures
        decimal_value(s.subrange(0, k)) <= decimal_value(s),
    decreases s.len() - k,
{
    if k == s.len() {
        assert(s.subrange(0, k) =~= s);
    } else {
        let shorter = s.drop_last();
        assert(all_digits(shorter)) by {
            assert forall|i: int| 0 <= i < shorter.len() implies is_digit(
                #[trigger] shorter[i],
            ) by {
                assert(shorter[i] == s[i]);
            }
        }
        lemma_decimal_monotonic(shorter, k);
        assert(shorter.subrange(0, k) =~= s.subrange(0, k));
        assert(is_digit(s[s.len() - 1]));
    }
}

/// Reads `bytes[from..to]` as a run of one or more decimal digits whose value
/// is at most `max`.
pub fn parse_digits(bytes: &[u8], from: usize, to: usize, max: u64) -> (r: Option<u64>)
    requires
        from <= to <= bytes.len(),
    ensures
        ({
            let digits = bytes@.subrange(from as int, to as int);
            let accepted = digits.len() > 0 && all_digits(digits) && decimal_value(digits) <= max;
            match r {
                Some(v) => accepted && v == decimal_value(digits),
                None => !accepted,
            }
        }),
{
    let ghost digits = bytes@.subrange(from as int, to as int);
    if from == to {
        return None;
    }
    let mut acc: u64 = 0;
    let mut i: usize = from;
    while i < to
        invariant
            from <= i <= to <= bytes.len(),
            digits == bytes@.subrange(from as int, to as int),
            all_digits(digits.subrange(0, i - from)),
            acc == decimal_value(digits.subrange(0, i - from)),
            acc <= max,
        decreases to - i,
    {
        let b = bytes[i];
        let ghost seen = digits.subrange(0, i - from);
        let ghost next = digits.subrange(0, i + 1 - from);
        proof {
            assert(next.drop_last() =~= seen);
            assert(next.last() == b);
        }
        if b < 48 || b > 57 {
            assert(!is_digit(digits[i - from]));
            return None;
        }
        let d: u64 = (b - 48) as u64;
        proof {
            assert forall|j: int| 0 <= j < next.len() implies is_digit(#[trigger] next[j]) by {
                if j < seen.len() {
                    assert(next[j] == seen[j]);
                }
            }
        }
        if d > max || acc > (max - d) / 10 {
            proof {
                assert(decimal_value(next) == acc * 10 + d);
                assert(acc * 10 + d > max) by (nonlinear_arith)
                    requires
                        d > max || acc > (max - d) / 10,
                        0 <= d,
                        0 <= acc,
                ;
                if all_digits(digits) {
                    lemma_decimal_monotonic(digits, i + 1 - from);
                }
            }
            return None;
        }
        proof {
            assert(acc * 10 + d <= max) by (nonlinear_arith)
                requires
                    acc <= (max - d) / 10,
                    d <= max,
                    0 <= d,
            ;
        }
        acc = acc * 10 + d;
        i += 1;
    }
    assert(digits.subrange(0, i - from) =~= digits);
    Some(acc)
}

/// Reads `bytes[from..to]` as an unsigned decimal number of at most `max`.
pub fn parse_unsigned_in(bytes: &[u8], from: usize, to: usize, max: u64) -> (r: Option<u64>)
    requires
        from <= to <= bytes.len(),
    ensures
        match r {
            Some(v) => parse_unsigned(bytes@.subrange(from as int, to as int), max as nat) == Some(
                v as nat,
            ),
            None => parse_unsigned(bytes@.subrange(from as int, to as int), max as nat).is_none(),
        },
{
    let ghost text = bytes@.subrange(from as int, to as int);
    if from < to && bytes[from] == 43 {
        assert(text[0] == 43);
        assert(text.drop_first() =~= bytes@.subrange(from + 1, to as int));
        parse_digits(bytes, from + 1, to, max)
    } else {
        assert(from < to ==> text[0] == bytes@[from as int]);
        parse_digits(bytes, from, to, max)
    }
}

/// Reads `bytes[from..to]` as a signed decimal number that fits 32 bits.
pub fn parse_i32_in(bytes: &[u8], from: usize, to: usize) -> (r: Option<i32>)
    requires
        from <= to <= bytes.len(),
    ensures
        match r {
            Some(v) => parse_signed(
                bytes@.subrange(from as int, to as int),
                i32::MIN as int,
                i32::MAX as int,
            ) == Some(v as int),
            None => parse_signed(
                bytes@.subrange(from as int, to as int),
                i32::MIN as int,
                i32::MAX as int,
            ).is_none(),
        },
{
    let ghost text = bytes@.subrange(from as int, to as int);
    if from < to && bytes[from] == 45 {
        assert(text[0] == 45);
        assert(text.drop_first() =~= bytes@.subrange(from + 1, to as int));
        match parse_digits(bytes, from + 1, to, 2147483648) {
            Some(magnitude) => {
                let value: i64 = 0 - (magnitude as i64);
                Some(value as i32)
            },
            None => None,
        }
    } else {
        assert(from < to ==> text[0] == bytes@[from as int]);
        match parse_unsigned_in(bytes, from, to, 2147483647) {
            Some(value) => Some(value as i32),
            None => None,
        }
    }
}

/// The character that writes the digit `d`.
pub open spec fn digit_char(d: int) -> char
    recommends
        0 <= d < 10,
{
    if d == 0 {
        '0'
    } else if d == 1 {
        '1'
    } else if d == 2 {
        '2'
    } else if d == 3 {
        '3'
    } else if d == 4 {
        '4'
    } else if d == 5 {
        '5'
    } else if d == 6 {
        '6'
    } else if d == 7 {
        '7'
    } else if d == 8 {
        '8'
    } else {
        '9'
    }
}

/// The decimal digits that write `n`, without leading zeros.
pub open spec fn decimal_text(n: nat) -> Seq<char>
    decreases n,
{
    if n < 10 {
        seq![digit_char(n as int)]
    } else {
        decimal_text(n / 10).push(digit_char((n % 10) as int))
    }
}

/// The numbers of `list` in decimal, with a comma and a space between
/// neighbours.
pub open spec fn items_text(list: Seq<usize>) -> Seq<char>
    decreases list.len(),
{
    if list.len() == 0 {
        Seq::<char>::empty()
    } else if list.len() == 1 {
        decimal_text(list[0] as nat)
    } else {
        items_text(list.drop_last()) + ", "@ + decimal_text(list.last() as nat)
    }
}

/// A list of numbers as it is written: its items between square brackets.
pub open spec fn list_text(list: Seq<usize>) -> Seq<char> {
    "["@ + items_text(list) + "]"@
}

/// The text of one digit.
fn digit_text(d: usize) -> (r: &'static str)
    requires
        d < 10,
    ensures
        r@ == seq![digit_char(d as int)],
{
    proof {
        reveal_strlit("0");
        reveal_strlit("1");
        reveal_strlit("2");
        reveal_strlit("3");
        reveal_strlit("4");
        reveal_strlit("5");
        reveal_strlit("6");
        reveal_strlit("7");
        reveal_strlit("8");
        reveal_strlit("9");
    }
    let r = if d == 0 {
        "0"
    } else if d == 1 {
        "1"
    } else if d == 2 {
        "2"
    } else if d == 3 {
        "3"
    } else if d == 4 {
        "4"
    } else if d == 5 {
        "5"
    } else if d == 6 {
        "6"
    } else if d == 7 {
        "7"
    } else if d == 8 {
        "8"
    } else {
        "9"
    };
    assert(r@ =~= seq![digit_char(d as int)]);
    r
}

/// Appends `n` in decimal to `out`.
pub fn push_decimal(out: &mut String, n: usize)
    ensures
        final(out)@ == old(out)@ + decimal_text(n as nat),
    decreases n,
{
    let ghost before = out@;
    if n >= 10 {
        push_decimal(out, n / 10);
        out.append(digit_text(n % 10));
        assert(out@ =~= before + decimal_text(n as nat));
    } else {
        out.append(digit_text(n));
    }
}

/// Appends `list` to `out` as it is written.
pub fn push_list(out: &mut String, list: &[usize])
    ensures
        final(out)@ == old(out)@ + list_text(list@),
{
    let ghost before = out@;
    out.append("[");
    let mut i: usize = 0;
    assert(list@.subrange(0, 0) =~= Seq::<usize>::empty());
    assert(out@ =~= before + "["@ + items_text(list@.subrange(0, 0)));
    while i < list.len()
        invariant
            i <= list.len(),
            out@ == before + "["@ + items_text(list@.subrange(0, i as int)),
        decreases list.len() - i,
    {
        let ghost seen = list@.subrange(0, i as int);
        let ghost next = list@.subrange(0, i + 1);
        let ghost so_far = out@;
        proof {
            assert(next.drop_last() =~= seen);
            assert(next.last() == list@[i as int]);
        }
        if i > 0 {
            out.append(", ");
        }
        push_decimal(out, list[i]);
        assert(out@ =~= before + "["@ + items_text(next));
        i += 1;
    }
    assert(list@.subrange(0, i as int) =~= list@);
    out.append("]");
    assert(out@ =~= before + list_text(list@));
}

} // verus!
