//! Checks on a table of best plans read back from the cache.
use vstd::prelude::*;
use crate::error::CacheError;
use crate::pmf::MAX_TOTAL_SCORE;

verus! {

/// Accepts a cached table of `actual` entries read from `path` when it has
/// one entry per score, and reports its size otherwise.
pub fn check_table_size(path: &str, actual: usize) -> (checked: Result<(), CacheError>)
    ensures
        checked is Ok <==> actual == MAX_TOTAL_SCORE + 1,
        checked is Err ==> (checked matches Err(CacheError::InvalidSize { path: p, expected, actual: a })
            && p@ == path@ && expected == MAX_TOTAL_SCORE + 1 && a == actual),
{
    if actual == MAX_TOTAL_SCORE + 1 {
        Ok(())
    } else {
        Err(CacheError::InvalidSize { path: String::from_str(path), expected: MAX_TOTAL_SCORE + 1, actual })
    }
}

} // verus!
