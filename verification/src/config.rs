//! Settings of the engine that are switches and counts, and how their texts
//! are read.

use vstd::prelude::*;
use vstd::string::*;
use crate::text::{parse_unsigned, parse_unsigned_in};

verus! {

/// The switches and counts that steer a render.
#[derive(Debug, Clone, Copy, PartialEq, Eq)]
pub struct RenderSettings {
    /// Normalise the loudness of the result.
    pub wave_norm: bool,
    /// Leave silence at the ends out of the loudness measurement.
    pub trim_silence: bool,
    /// Loop the sustained region instead of stretching it.
    pub loop_mode: bool,
    /// Frames of context that the vocoder gets on each side.
    pub fill: usize,
    /// Requests that are worked on at one time.
    pub max_workers: usize,
}

impl Default for RenderSettings {
    fn default() -> (r: RenderSettings)
        ensures
            r == default_settings(),
    {
        RenderSettings {
            wave_norm: true,
            trim_silence: true,
            loop_mode: true,
            fill: 6,
            max_workers: 2,
        }
    }
}

/// The settings that hold where nothing else is configured.
pub open spec fn default_settings() -> RenderSettings {
    RenderSettings {
        wave_norm: true,
        trim_silence: true,
        loop_mode: true,
        fill: 6,
        max_workers: 2,
    }
}

/// The switch that a text stands for: `true` or `false`, written exactly so.
pub open spec fn switch_of(text: Seq<u8>) -> Option<bool> {
    if text == seq![116u8, 114u8, 117u8, 101u8] {
        Some(true)
    } else if text == seq![102u8, 97u8, 108u8, 115u8, 101u8] {
        Some(false)
    } else {
        None
    }
}

/// Reads a switch; a text that is not one, or no text, gives `default`.
pub fn switch_setting(text: Option<&str>, default: bool) -> (r: bool)
    ensures
        r == match text {
            Some(t) => match switch_of(t.spec_bytes()) {
                Some(v) => v,
                None => default,
            },
            None => default,
        },
{
    match text {
        None => default,
        Some(t) => {
            let b = t.as_bytes();
            if b.len() == 4 && b[0] == 116 && b[1] == 114 && b[2] == 117 && b[3] == 101 {
                assert(b@ =~= seq![116u8, 114u8, 117u8, 101u8]);
                true
            } else if b.len() == 5 && b[0] == 102 && b[1] == 97 && b[2] == 108 && b[3] == 115
                && b[4] == 101 {
                assert(b@ =~= seq![102u8, 97u8, 108u8, 115u8, 101u8]);
                false
            } else {
                proof {
                    let yes = seq![116u8, 114u8, 117u8, 101u8];
                    let no = seq![102u8, 97u8, 108u8, 115u8, 101u8];
                    if b@ == yes {
                        assert(b@.len() == 4 && b@[0] == yes[0] && b@[1] == yes[1] && b@[2]
                            == yes[2] && b@[3] == yes[3]);
                    }
                    if b@ == no {
                        assert(b@.len() == 5 && b@[0] == no[0] && b@[1] == no[1] && b@[2] == no[2]
                            && b@[3] == no[3] && b@[4] == no[4]);
                    }
                }
                default
            }
        },
    }
}

/// Reads a count: an unsigned decimal number that fits the machine word. A
/// text that is not one, or no text, gives `default`.
pub fn count_setting(text: Option<&str>, default: usize) -> (r: usize)
    ensures
        r == match text {
            Some(t) => match parse_unsigned(t.spec_bytes(), usize::MAX as nat) {
                Some(v) => v as usize,
                None => default,
            },
            None => default,
        },
{
    match text {
        None => default,
        Some(t) => {
            let b = t.as_bytes();
            assert(b@.subrange(0, b@.len() as int) =~= b@);
            match parse_unsigned_in(b, 0, b.len(), usize::MAX as u64) {
                Some(v) => v as usize,
                None => default,
            }
        },
    }
}

} // verus!
