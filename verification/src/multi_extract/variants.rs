//! How many variants are to be extracted.

use vstd::prelude::*;

verus! {

/// Whether a number of variants can be of this sort.
pub fn counts_variants(sort: &str) -> (counts: bool)
    ensures
        counts == (sort@ == "i64"@),
{
    *sort == *"i64"
}

/// The number of variants to extract. It must be positive.
pub fn variant_count(n: i64) -> (count: Option<usize>)
    ensures
        count == if n > 0 {
            Some(n as usize)
        } else {
            None
        },
{
    if n > 0 {
        Some(n as usize)
    } else {
        None
    }
}

} // verus!
