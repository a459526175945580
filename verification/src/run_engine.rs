//! Decisions the turn engine applies to its derived turns.
use vstd::prelude::*;
use crate::run_assembly::{is_mid_sentence_start, starts_mid_sentence};

verus! {

/// Farthest a silence-gap fragment may borrow a neighboring turn's speaker,
/// in milliseconds; the same cap as `commands::GAP_BORROW_MAX_MS`.
pub const BORROW_CAP_MS: i64 = 3_000;

/// The persisted continuation fact of a turn: the engine derived a
/// continuation, or the turn's first text begins mid-sentence.
pub fn effective_continuation(engine_flag: bool, first_text: &str) -> (r: bool)
    ensures
        r == (engine_flag || starts_mid_sentence(first_text@)),
{
    if engine_flag {
        true
    } else {
        is_mid_sentence_start(first_text)
    }
}

} // verus!
