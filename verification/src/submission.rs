//! The submission gate: flag submissions deduplicated through the tried-flags
//! cache. A flag that was ever submitted for a challenge is never sent to the
//! remote again; it is answered `Incorrect` locally.

use vstd::prelude::*;
use crate::flag_cache::FlagCache;
use crate::models::SubmitFlagResult;

verus! {

/// The first half of the submission gate, run before any remote call: a previously
/// tried pair is answered `Incorrect` at once, `None` means the flag must be
/// sent to the remote.
pub fn gate_precheck(cache: &FlagCache, challenge: &str, flag: &str) -> (r: Option<
    SubmitFlagResult,
>)
    ensures
        cache.spec_contains(challenge@, flag@) ==> r == Some(SubmitFlagResult::Incorrect),
        !cache.spec_contains(challenge@, flag@) ==> r is None,
{
    if cache.contains(challenge, flag) {
        Some(SubmitFlagResult::Incorrect)
    } else {
        None
    }
}

/// Whether a submission outcome is recorded in the cache: every recognized
/// outcome is, an unrecognized one is not.
pub open spec fn outcome_recorded(outcome: SubmitFlagResult) -> bool {
    outcome != SubmitFlagResult::Unknown
}

/// The second half of the submission gate, run on the remote's answer: every recognized
/// outcome records the pair, correct or not; an unrecognized outcome is left
/// unrecorded and surfaced to the caller by the `false` result.
pub fn gate_settle(cache: &mut FlagCache, challenge: &str, flag: &str, outcome: SubmitFlagResult) -> (recorded: bool)
    ensures
        recorded == outcome_recorded(outcome),
        recorded ==> forall|c: Seq<char>, f: Seq<char>|
            final(cache).spec_contains(c, f)
                == (old(cache).spec_contains(c, f) || (c == challenge@ && f == flag@)),
        !recorded ==> *final(cache) == *old(cache),
{
    match outcome {
        SubmitFlagResult::Unknown => false,
        _ => {
            cache.record(challenge, flag);
            true
        }
    }
}

/// Law: the no-resubmit invariant. Once a pair has been recorded, the submission gate
/// short-circuits it: the precheck answers `Incorrect` itself, so the remote
/// is never contacted for that pair again.
pub fn no_resubmit(cache: &mut FlagCache, challenge: &str, flag: &str) -> (r: Option<
    SubmitFlagResult,
>)
    ensures
        r == Some(SubmitFlagResult::Incorrect),
{
    cache.record(challenge, flag);
    gate_precheck(cache, challenge, flag)
}

} // verus!
