//! Names of the cache entries that belong to an input file.

use vstd::prelude::*;
use vstd::string::*;

verus! {

/// What the name of every feature cache ends with.
pub const FEATURE_EXT: &'static str = "hifi.npz";

/// The name of the feature cache for an input with the given stem and the
/// given texts of its breath, tension, voicing and gender flags: the stem,
/// then the four flags by name in ascending order, then the fixed ending.
pub open spec fn feature_cache_name_of(
    stem: Seq<char>,
    breath: Seq<char>,
    tension: Seq<char>,
    voicing: Seq<char>,
    gender: Seq<char>,
) -> Seq<char> {
    stem + "_Hb"@ + breath + "_Ht"@ + tension + "_Hv"@ + voicing + "_g"@ + gender + FEATURE_EXT@
}

/// The name of the separation cache for an input with the given stem.
pub open spec fn separation_cache_name_of(stem: Seq<char>) -> Seq<char> {
    stem + "_hnsep"@
}

/// Builds the name of the feature cache. Equal stems and flag texts give
/// equal names, in whatever order the flags were written.
pub fn feature_cache_name(stem: &str, breath: &str, tension: &str, voicing: &str, gender: &str) -> (r:
    String)
    ensures
        r@ == feature_cache_name_of(stem@, breath@, tension@, voicing@, gender@),
{
    let mut name = String::from_str(stem);
    name.append("_Hb");
    name.append(breath);
    name.append("_Ht");
    name.append(tension);
    name.append("_Hv");
    name.append(voicing);
    name.append("_g");
    name.append(gender);
    name.append(FEATURE_EXT);
    name
}

/// Builds the name of the separation cache.
pub fn separation_cache_name(stem: &str) -> (r: String)
    ensures
        r@ == separation_cache_name_of(stem@),
{
    let mut name = String::from_str(stem);
    name.append("_hnsep");
    name
}

/// What loading an entry comes to.
#[derive(Debug, Clone, Copy, PartialEq, Eq)]
pub enum LoadPlan {
    /// Nothing is read: the entry is to be made anew, or there is none.
    Miss,
    /// The entry is read under a shared lock.
    Read,
}

/// What saving an entry comes to, once the exclusive lock is held.
#[derive(Debug, Clone, Copy, PartialEq, Eq)]
pub enum SavePlan {
    /// Another writer made the entry: it is read and returned as it is.
    Reuse,
    /// There is nothing to write.
    RejectEmpty,
    /// The entry is written to the staging file, which is removed first
    /// where one was left behind, and then renamed into place.
    Write { clear_staging: bool },
}

/// One step of waiting for the exclusive lock.
#[derive(Debug, Clone, Copy, PartialEq, Eq)]
pub enum LockStep {
    /// The lock is held.
    Acquired,
    /// The lock is taken by another; try again after a pause.
    Retry,
    /// The lock is taken by another and the wait is over.
    TimedOut,
}

/// Whether an entry is read: only where it is there and is not to be made
/// anew.
pub open spec fn load_plan_of(force_regenerate: bool, exists: bool) -> LoadPlan {
    if force_regenerate || !exists {
        LoadPlan::Miss
    } else {
        LoadPlan::Read
    }
}

/// How an entry is saved. An entry that is there is never overwritten, and
/// an empty one is never written.
pub open spec fn save_plan_of(exists: bool, empty: bool, staging_exists: bool) -> SavePlan {
    if exists {
        SavePlan::Reuse
    } else if empty {
        SavePlan::RejectEmpty
    } else {
        SavePlan::Write { clear_staging: staging_exists }
    }
}

/// How the wait for the exclusive lock goes on after one try, `waited_ms`
/// after the first.
pub open spec fn lock_step_of(acquired: bool, waited_ms: u64, timeout_ms: u64) -> LockStep {
    if acquired {
        LockStep::Acquired
    } else if waited_ms >= timeout_ms {
        LockStep::TimedOut
    } else {
        LockStep::Retry
    }
}

/// Decides whether an entry is read.
pub fn load_plan(force_regenerate: bool, exists: bool) -> (r: LoadPlan)
    ensures
        r == load_plan_of(force_regenerate, exists),
{
    if force_regenerate || !exists {
        LoadPlan::Miss
    } else {
        LoadPlan::Read
    }
}

/// Decides how an entry is saved, once the exclusive lock is held.
pub fn save_plan(exists: bool, empty: bool, staging_exists: bool) -> (r: SavePlan)
    ensures
        r == save_plan_of(exists, empty, staging_exists),
{
    if exists {
        SavePlan::Reuse
    } else if empty {
        SavePlan::RejectEmpty
    } else {
        SavePlan::Write { clear_staging: staging_exists }
    }
}

/// Decides how the wait for the exclusive lock goes on after one try.
pub fn lock_step(acquired: bool, waited_ms: u64, timeout_ms: u64) -> (r: LockStep)
    ensures
        r == lock_step_of(acquired, waited_ms, timeout_ms),
{
    if acquired {
        LockStep::Acquired
    } else if waited_ms >= timeout_ms {
        LockStep::TimedOut
    } else {
        LockStep::Retry
    }
}

/// Saving twice writes once: after a write the entry is there, and the next
/// save reuses it. A wait that has reached its limit never goes on.
pub proof fn lemma_save_is_idempotent(empty: bool, staging_exists: bool, waited_ms: u64)
    ensures
        save_plan_of(true, empty, staging_exists) == SavePlan::Reuse,
        waited_ms >= LOCK_TIMEOUT_MS ==> lock_step_of(false, waited_ms, LOCK_TIMEOUT_MS)
            != LockStep::Retry,
{
}

/// How long a writer waits for the exclusive lock, in milliseconds.
pub const LOCK_TIMEOUT_MS: u64 = 5000;

/// The pause between two tries for the exclusive lock, in milliseconds.
pub const LOCK_RETRY_MS: u64 = 10;

} // verus!
