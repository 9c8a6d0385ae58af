//! The two-segment time warp of a note, as a map over real time.
//!
//! Times before the consonant's end are only scaled by the velocity; times
//! after it are stretched by the stretch ratio. The render evaluates this
//! map in machine arithmetic; what is stated here holds of the map itself.

use vstd::prelude::*;

verus! {

/// Where render time `t` lies in the sample while `t` is in the onset.
pub open spec fn onset_of(t: real, velocity: real) -> real {
    t / velocity
}

/// Where render time `t` lies in the sample once the onset is over.
pub open spec fn sustain_of(t: real, velocity: real, consonant: real, ratio: real) -> real {
    consonant + (t - velocity * consonant) / ratio
}

/// The warp: the onset up to `velocity * consonant`, the sustain from there.
pub open spec fn warp_of(t: real, velocity: real, consonant: real, ratio: real) -> real {
    if t < velocity * consonant {
        onset_of(t, velocity)
    } else {
        sustain_of(t, velocity, consonant, ratio)
    }
}

/// The two segments meet at the consonant boundary: there the onset and the
/// sustain both give the consonant time, for any stretch ratio of at least 1.
pub proof fn lemma_warp_continuous(velocity: real, consonant: real, ratio: real)
    requires
        velocity > 0real,
        ratio >= 1real,
    ensures
        onset_of(velocity * consonant, velocity) == consonant,
        sustain_of(velocity * consonant, velocity, consonant, ratio) == consonant,
        warp_of(velocity * consonant, velocity, consonant, ratio) == consonant,
{
    assert((velocity * consonant) / velocity == consonant) by (nonlinear_arith)
        requires
            velocity > 0real,
    ;
    assert(0real / ratio == 0real) by (nonlinear_arith)
        requires
            ratio >= 1real,
    ;
}

/// The warp never runs backwards: a later render time lies no earlier in
/// the sample.
pub proof fn lemma_warp_monotonic(
    earlier: real,
    later: real,
    velocity: real,
    consonant: real,
    ratio: real,
)
    requires
        velocity > 0real,
        ratio >= 1real,
        earlier <= later,
    ensures
        warp_of(earlier, velocity, consonant, ratio) <= warp_of(later, velocity, consonant, ratio),
{
    let edge = velocity * consonant;
    lemma_warp_continuous(velocity, consonant, ratio);
    if later < edge {
        assert(earlier / velocity <= later / velocity) by (nonlinear_arith)
            requires
                velocity > 0real,
                earlier <= later,
        ;
    } else if earlier >= edge {
        assert((earlier - edge) / ratio <= (later - edge) / ratio) by (nonlinear_arith)
            requires
                ratio >= 1real,
                earlier <= later,
        ;
    } else {
        assert(earlier / velocity <= edge / velocity) by (nonlinear_arith)
            requires
                velocity > 0real,
                earlier <= edge,
        ;
        assert(0real <= (later - edge) / ratio) by (nonlinear_arith)
            requires
                ratio >= 1real,
                edge <= later,
        ;
    }
}

/// Where the sustained region ends: a cutoff that is not negative is
/// measured back from the end of the sample, a negative one forward from the
/// offset.
pub open spec fn sustain_end_of(offset: real, cutoff: real, total: real) -> real {
    if cutoff < 0real {
        offset - cutoff
    } else {
        total - cutoff
    }
}

/// By how much the sustained region is stretched to fill the note: not at
/// all where it is long enough, else by the note's length over its own.
pub open spec fn stretch_ratio_of(requested: real, available: real) -> real {
    if available < requested {
        requested / available
    } else {
        1real
    }
}

/// The time of tick `i` of the pitch curve, at `tempo` ticks per minute.
pub open spec fn tick_time_of(i: int, tempo: real, start: real) -> real {
    60real * (i as real) / tempo + start
}

/// The stretch ratio is at least 1 for any region of positive length, so
/// the warp built on it is continuous and never runs backwards.
pub proof fn lemma_stretch_ratio_at_least_one(requested: real, available: real)
    requires
        available > 0real,
    ensures
        stretch_ratio_of(requested, available) >= 1real,
{
    if available < requested {
        assert(requested / available >= 1real) by (nonlinear_arith)
            requires
                available > 0real,
                available < requested,
        ;
    }
}

/// A negative cutoff puts the end of the sustained region after the offset,
/// whatever the sample's length.
pub proof fn lemma_negative_cutoff_from_offset(offset: real, cutoff: real, total: real)
    requires
        cutoff < 0real,
    ensures
        sustain_end_of(offset, cutoff, total) > offset,
        sustain_end_of(offset, cutoff, total) - offset == -cutoff,
{
}

/// The ticks of the pitch curve rise strictly in time for any positive
/// tempo.
pub proof fn lemma_tick_times_increase(i: int, j: int, tempo: real, start: real)
    requires
        tempo > 0real,
        i < j,
    ensures
        tick_time_of(i, tempo, start) < tick_time_of(j, tempo, start),
{
    assert((i as real) < (j as real));
    assert(60real * (i as real) / tempo < 60real * (j as real) / tempo) by (nonlinear_arith)
        requires
            tempo > 0real,
            (i as real) < (j as real),
    ;
}

} // verus!
