//! The direct, non-interactive lookup path: one query string against the
//! index, the exact match on success, a specific error on a miss.

use vstd::prelude::*;
use crate::pair::EmojiPair;
use crate::tree::{BkTree, exact_found};
use crate::types::EmojiError;

verus! {

/// Look the description up exactly. `Ok` carries a dictionary entry with
/// that description and comes back iff one exists; otherwise the miss is
/// reported as `InvalidEmojiName` carrying the query.
pub fn search_exact(tree: &BkTree, description: String) -> (r: Result<EmojiPair, EmojiError>)
    requires
        tree.wf(),
    ensures
        match r {
            Ok(p) => exact_found(tree@, description@, Some(p@)),
            Err(e) => exact_found(tree@, description@, None) && (e matches
                EmojiError::InvalidEmojiName { description: d } && d@ == description@),
        },
{
    match tree.find_exact(description.as_str()) {
        Some(p) => Ok(p),
        None => Err(EmojiError::InvalidEmojiName { description }),
    }
}

} // verus!
