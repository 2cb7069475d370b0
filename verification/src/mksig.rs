//! The rules of the signature-building command that do not need the images themselves: which
//! target flags are accepted and how hold-out results and negative hits are worded.

use vstd::prelude::*;

use crate::text::owned;

verus! {

/// The message when the target flags do not name exactly one target.
pub open spec fn target_flags_text() -> Seq<char> {
    "provide exactly one of --sig OR (--ref + --rva)"@
}

/// Exactly one target must be named: an existing signature, or a reference client with an
/// address.
pub fn check_target_flags(has_sig: bool, has_ref: bool) -> (r: Result<(), String>)
    ensures
        r is Ok <==> has_sig != has_ref,
        r matches Err(e) ==> e@ == target_flags_text(),
{
    if has_sig == has_ref {
        Err(owned("provide exactly one of --sig OR (--ref + --rva)"))
    } else {
        Ok(())
    }
}

/// The verdict on one held-out build.
pub open spec fn spec_holdout_verdict(matched: bool, generated: bool) -> Seq<char> {
    if matched {
        "ok"@
    } else if generated {
        "MISS, signature did not match the held-out build"@
    } else {
        "no signature from the remaining builds"@
    }
}

pub fn holdout_verdict(matched: bool, generated: bool) -> (r: &'static str)
    ensures
        r@ == spec_holdout_verdict(matched, generated),
{
    if matched {
        "ok"
    } else if generated {
        "MISS, signature did not match the held-out build"
    } else {
        "no signature from the remaining builds"
    }
}

/// The plural ending of "match" for a count.
pub fn match_plural(count: usize) -> (r: &'static str)
    ensures
        r@ == if count == 1 {
            ""@
        } else {
            "es"@
        },
{
    if count == 1 {
        ""
    } else {
        "es"
    }
}

} // verus!
