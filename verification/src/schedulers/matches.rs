//! The matches that the engine hands to a scheduler.

use vstd::prelude::*;

use egglog::scheduler::Matches;

verus! {

/// The engine's collection of the matches that a rule produced. The scheduler
/// picks those that are to be applied; the others are kept for later.
#[verifier::external_type_specification]
#[verifier::external_body]
pub struct ExMatches(egglog::scheduler::Matches);

/// The matches that are picked, each by its number, counted from zero.
pub uninterp spec fn picked_matches(matches: egglog::scheduler::Matches) -> Set<int>;

/// How many matches there are in all.
pub uninterp spec fn match_count(matches: egglog::scheduler::Matches) -> usize;

/// The numbers of all of `count` matches.
pub open spec fn every_match(count: usize) -> Set<int> {
    Set::new(|i: int| 0 <= i < count)
}

/// Of `count` matches, the first has the number zero and the last `count - 1`.
pub proof fn law_every_match(count: usize, i: int)
    ensures
        every_match(count).contains(i) <==> 0 <= i < count,
{
}

/// Calls `Matches::match_size`, which returns the number of matches in all.
#[verifier::external_body]
pub(crate) fn match_size(matches: &Matches) -> (size: usize)
    ensures
        size == match_count(*matches),
{
    matches.match_size()
}

/// Calls `Matches::choose_all`, which picks every match and leaves the matches
/// themselves as they are.
#[verifier::external_body]
pub(crate) fn choose_all(matches: &mut Matches)
    ensures
        match_count(*final(matches)) == match_count(*old(matches)),
        picked_matches(*final(matches)) == every_match(match_count(*old(matches))),
{
    matches.choose_all()
}

} // verus!
