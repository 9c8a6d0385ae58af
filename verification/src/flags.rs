//! The expressive flags of a request: a compact text such as `B50Hv70G`, in
//! which each recognised flag name may be followed by a decimal number.

use vstd::prelude::*;
use vstd::string::*;

verus! {

/// Why a flag text could not be read.
#[derive(Debug, Clone, Copy, PartialEq, Eq)]
pub enum FlagError {
    /// The pattern of the flag grammar was not accepted by the matcher.
    InvalidPattern,
}

/// One flag as it was written: its name, and the text of the number that
/// followed it, if one did.
#[derive(Debug, PartialEq, Eq)]
pub struct Flag {
    pub name: String,
    pub value: Option<String>,
}

impl View for Flag {
    type V = (Seq<char>, Option<Seq<char>>);

    open spec fn view(&self) -> (Seq<char>, Option<Seq<char>>) {
        (self.name@, text_view(self.value))
    }
}

/// The grammar of the flag text: one of the recognised names, then
/// optionally a signed decimal number with an optional fraction.
pub const FLAG_PATTERN: &'static str =
    "(fe|fl|fo|fv|fp|ve|vo|g|t|vl|A|B|G|P|S|p|R|D|C|Z|Hv|Hb|Ht|He|HG)([+-]?\\d+(\\.\\d+)?)?";

/// What the matcher finds for `pattern` in `haystack`: for each match, from
/// left to right and without overlap, the texts of the first and of the
/// second group, each absent where the group took no part in the match. It
/// is `None` where the matcher does not accept the pattern.
pub uninterp spec fn regex_groups(pattern: Seq<char>, haystack: Seq<char>) -> Option<
    Seq<(Option<Seq<char>>, Option<Seq<char>>)>,
>;

/// The characters of an optional text.
pub open spec fn text_view(text: Option<String>) -> Option<Seq<char>> {
    match text {
        Some(t) => Some(t@),
        None => None,
    }
}

/// The characters of each pair of optional texts.
pub open spec fn groups_view(groups: Seq<(Option<String>, Option<String>)>) -> Seq<
    (Option<Seq<char>>, Option<Seq<char>>),
> {
    Seq::new(groups.len(), |i: int| (text_view(groups[i].0), text_view(groups[i].1)))
}

/// The names and values of a list of flags.
pub open spec fn flags_view(flags: Seq<Flag>) -> Seq<(Seq<char>, Option<Seq<char>>)> {
    Seq::new(flags.len(), |i: int| flags[i]@)
}

/// The flags that a list of matches stands for: one per match whose first
/// group took part, in the order of the matches, each with the text of the
/// second group as its value.
pub open spec fn flags_of(groups: Seq<(Option<Seq<char>>, Option<Seq<char>>)>) -> Seq<
    (Seq<char>, Option<Seq<char>>),
>
    decreases groups.len(),
{
    if groups.len() == 0 {
        Seq::empty()
    } else {
        let head = flags_of(groups.drop_last());
        match groups.last().0 {
            Some(name) => head.push((name, groups.last().1)),
            None => head,
        }
    }
}

/// `i` is the last place in `flags` at which a flag named `name` stands.
pub open spec fn is_last_named(
    flags: Seq<(Seq<char>, Option<Seq<char>>)>,
    name: Seq<char>,
    i: int,
) -> bool {
    &&& 0 <= i < flags.len()
    &&& flags[i].0 == name
    &&& forall|j: int| i < j < flags.len() ==> (#[trigger] flags[j]).0 != name
}

/// `text` without the character `skip`.
pub open spec fn without_char_of(text: Seq<char>, skip: char) -> Seq<char> {
    text.filter(|c: char| c != skip)
}

/// `str::replace` with a character as the pattern and the empty text as the
/// replacement: the result holds the characters of `s` other than `c`, in
/// their order.
#[verifier::external_body]
fn without_char(s: &str, c: char) -> (r: String)
    ensures
        r@ == without_char_of(s@, c),
{
    s.replace(c, "")
}

/// `regex::Regex::new` followed by `Regex::captures_iter`, with
/// `Captures::get` for groups 1 and 2 of every match and `Match::as_str` for
/// their texts. The result is the matcher's answer for this pattern and
/// haystack, whatever that is: nothing is claimed of it but that the same
/// pattern and haystack give the same answer.
#[verifier::external_body]
fn capture_groups(pattern: &str, haystack: &str) -> (r: Option<
    Vec<(Option<String>, Option<String>)>,
>)
    ensures
        match r {
            Some(groups) => regex_groups(pattern@, haystack@) == Some(groups_view(groups@)),
            None => regex_groups(pattern@, haystack@).is_none(),
        },
{
    let re = match regex::Regex::new(pattern) {
        Ok(re) => re,
        Err(_) => return None,
    };
    Some(
        re.captures_iter(haystack).map(
            |c| (c.get(1).map(|m| m.as_str().to_string()), c.get(2).map(|m| m.as_str().to_string())),
        ).collect(),
    )
}

/// Turns the matches of the flag grammar into flags: every match whose first
/// group took part gives one flag, in order.
pub fn flags_from_groups(groups: Vec<(Option<String>, Option<String>)>) -> (r: Vec<Flag>)
    ensures
        flags_view(r@) == flags_of(groups_view(groups@)),
{
    let ghost all = groups_view(groups@);
    let mut flags: Vec<Flag> = Vec::new();
    let n = groups.len();
    let mut i: usize = 0;
    assert(all.subrange(0, 0) =~= Seq::empty());
    assert(flags_view(flags@) =~= Seq::empty());
    while i < n
        invariant
            i <= n,
            n == groups.len(),
            all == groups_view(groups@),
            flags_view(flags@) == flags_of(all.subrange(0, i as int)),
        decreases n - i,
    {
        let ghost before = flags_view(flags@);
        let name = clone_text(&groups[i].0);
        let value = clone_text(&groups[i].1);
        proof {
            let seen = all.subrange(0, i + 1);
            assert(seen.drop_last() =~= all.subrange(0, i as int));
            assert(seen.last() == all[i as int]);
        }
        match name {
            Some(name) => {
                flags.push(Flag { name, value });
                assert(flags_view(flags@) =~= before.push((name@, text_view(value))));
            },
            None => {},
        }
        i += 1;
    }
    assert(all.subrange(0, n as int) =~= all);
    flags
}

/// A copy of an optional text.
fn clone_text(text: &Option<String>) -> (r: Option<String>)
    ensures
        text_view(r) == text_view(*text),
{
    match text {
        Some(t) => Some(t.clone()),
        None => None,
    }
}

/// Reads a flag text: slashes are dropped, and every place where the flag
/// grammar matches what is left gives one flag, from left to right.
pub fn flag_parser(s: &str) -> (r: Result<Vec<Flag>, FlagError>)
    ensures
        match regex_groups(FLAG_PATTERN@, without_char_of(s@, '/')) {
            Some(groups) => match r {
                Ok(flags) => flags_view(flags@) == flags_of(groups),
                Err(_) => false,
            },
            None => r == Err::<Vec<Flag>, FlagError>(FlagError::InvalidPattern),
        },
{
    let input = without_char(s, '/');
    match capture_groups(FLAG_PATTERN, input.as_str()) {
        Some(groups) => Ok(flags_from_groups(groups)),
        None => Err(FlagError::InvalidPattern),
    }
}

/// Finds the flag named `name`. Where the name was written more than once,
/// the last one counts.
pub fn flag_index(flags: &Vec<Flag>, name: &str) -> (r: Option<usize>)
    ensures
        match r {
            Some(i) => is_last_named(flags_view(flags@), name@, i as int),
            None => forall|j: int|
                0 <= j < flags@.len() ==> (#[trigger] flags_view(flags@)[j]).0 != name@,
        },
{
    let key: String = name.to_owned();
    let mut i: usize = flags.len();
    while i > 0
        invariant
            i <= flags.len(),
            key@ == name@,
            forall|j: int| i <= j < flags@.len() ==> (#[trigger] flags_view(flags@)[j]).0 != name@,
        decreases i,
    {
        i -= 1;
        if flags[i].name == key {
            assert(flags_view(flags@)[i as int].0 == name@);
            return Some(i);
        }
    }
    None
}

} // verus!
