//! What decisions of the back-off scheduler make of a rule over time.

use vstd::prelude::*;

use crate::schedulers::back_off::{
    fast_forwarded, law_shortest_ban, names, shortest_ban, BackOffDecision, BackOffView, RuleStats,
};

verus! {

/// A rule's matches are turned down just while its ban lasts, and where there
/// are more of them than its limit, doubled with each ban it had.
pub proof fn law_when_matches_are_admitted(stats: RuleStats, match_size: usize)
    requires
        stats.times_banned < usize::BITS,
        stats.match_limit * vstd::arithmetic::power2::pow2(stats.times_banned as nat) <= usize::MAX,
    ensures
        stats.decision(match_size) is Admit <==> stats.iteration + 1 >= stats.banned_until
            && match_size <= stats.match_limit * vstd::arithmetic::power2::pow2(stats.times_banned as nat),
{
    vstd::bits::lemma_usize_shl_is_mul(stats.match_limit, stats.times_banned);
}

/// The same where the doubled limit does not fit in a word: the bits that leave
/// the word are lost.
pub proof fn law_when_matches_are_admitted_by_bits(stats: RuleStats, match_size: usize)
    ensures
        stats.decision(match_size) is Admit <==> stats.iteration + 1 >= stats.banned_until
            && match_size <= stats.match_limit << stats.times_banned,
{
}

/// Matches that are admitted leave a rule as it is, but for the counts of its
/// iterations and of its applications, which go up by one each.
pub proof fn law_admitting_changes_only_counts(stats: RuleStats, match_size: usize)
    requires
        stats.wf(),
        stats.has_room(match_size),
        stats.decision(match_size) is Admit,
    ensures
        ({
            let after = stats.decided(match_size);
            &&& after.iteration == stats.iteration + 1
            &&& after.times_applied == stats.times_applied + 1
            &&& after.times_banned == stats.times_banned
            &&& after.banned_until == stats.banned_until
            &&& after.match_limit == stats.match_limit
            &&& after.ban_length == stats.ban_length
        }),
{
}

/// Matches that are turned down while a ban lasts leave a rule as it is, but for
/// the count of its iterations. Matches that start a ban count as one ban, which
/// ends its length, doubled with each ban before, after the present iteration.
pub proof fn law_banning(stats: RuleStats, match_size: usize)
    requires
        stats.wf(),
        stats.has_room(match_size),
        stats.decision(match_size) is Ban,
    ensures
        ({
            let after = stats.decided(match_size);
            let starts = stats.iteration + 1 >= stats.banned_until;
            &&& after.iteration == stats.iteration + 1
            &&& after.times_applied == stats.times_applied
            &&& after.times_banned == stats.times_banned + if starts {
                1int
            } else {
                0
            }
            &&& !starts ==> after.banned_until == stats.banned_until
            &&& starts ==> after.banned_until == stats.iteration + 1 + (stats.ban_length
                << stats.times_banned)
            &&& starts && stats.ban_length * vstd::arithmetic::power2::pow2(stats.times_banned as nat) <= usize::MAX
                ==> after.banned_until == stats.iteration + 1 + stats.ban_length * vstd::arithmetic::power2::pow2(
                stats.times_banned as nat,
            )
            &&& after.match_limit == stats.match_limit
            &&& after.ban_length == stats.ban_length
        }),
{
    if stats.ban_length * vstd::arithmetic::power2::pow2(stats.times_banned as nat) <= usize::MAX && stats.times_banned
        < usize::BITS {
        vstd::bits::lemma_usize_shl_is_mul(stats.ban_length, stats.times_banned);
    }
}

/// There is room for a decision just if the next iteration can be counted and,
/// where the ban is over, the doubled limit can be had and the end of the ban
/// that may start can be counted.
pub proof fn law_room(stats: RuleStats, match_size: usize)
    ensures
        stats.has_room(match_size) <==> stats.iteration + 1 <= usize::MAX && (stats.iteration + 1
            < stats.banned_until || (stats.times_banned < usize::BITS && (match_size
            <= stats.match_limit << stats.times_banned || stats.iteration + 1 + (stats.ban_length
            << stats.times_banned) <= usize::MAX))),
{
}

/// What is known of a rule after decisions on so many matches each.
pub open spec fn decided_on(stats: RuleStats, sizes: Seq<usize>) -> RuleStats
    decreases sizes.len(),
{
    if sizes.len() == 0 {
        stats
    } else {
        decided_on(stats, sizes.drop_last()).decided(sizes.last())
    }
}

/// Whether there is room for all these decisions.
pub open spec fn have_room(stats: RuleStats, sizes: Seq<usize>) -> bool {
    forall|i: int|
        0 <= i < sizes.len() ==> decided_on(stats, #[trigger] sizes.take(i)).has_room(sizes[i])
}

/// How many of these decisions admit matches.
pub open spec fn admitted(stats: RuleStats, sizes: Seq<usize>) -> nat
    decreases sizes.len(),
{
    if sizes.len() == 0 {
        0
    } else {
        let front = sizes.drop_last();
        admitted(stats, front) + if decided_on(stats, front).decision(sizes.last()) is Admit {
            1nat
        } else {
            0
        }
    }
}

/// How many of these decisions start a ban.
pub open spec fn bans_started(stats: RuleStats, sizes: Seq<usize>) -> nat
    decreases sizes.len(),
{
    if sizes.len() == 0 {
        0
    } else {
        let front = sizes.drop_last();
        let before = decided_on(stats, front);
        bans_started(stats, front) + if before.decision(sizes.last()) is Ban && before.iteration + 1
            >= before.banned_until {
            1nat
        } else {
            0
        }
    }
}

/// A rule's counts are what they are called: of all decisions, of those that
/// admitted matches, and of those that started a ban. The last never goes down,
/// so neither do the limit and the length of the next ban. What a rule started
/// with never changes.
pub proof fn law_counts(stats: RuleStats, sizes: Seq<usize>)
    requires
        stats.wf(),
        have_room(stats, sizes),
    ensures
        ({
            let after = decided_on(stats, sizes);
            &&& after.wf()
            &&& after.iteration == stats.iteration + sizes.len()
            &&& after.times_applied == stats.times_applied + admitted(stats, sizes)
            &&& after.times_banned == stats.times_banned + bans_started(stats, sizes)
            &&& after.times_banned >= stats.times_banned
            &&& after.banned_until >= stats.banned_until
            &&& after.match_limit == stats.match_limit
            &&& after.ban_length == stats.ban_length
        }),
    decreases sizes.len(),
{
    if sizes.len() > 0 {
        let front = sizes.drop_last();
        assert(sizes.take(sizes.len() - 1) =~= front);
        assert forall|i: int| 0 <= i < front.len() implies decided_on(
            stats,
            #[trigger] front.take(i),
        ).has_room(front[i]) by {
            assert(front.take(i) =~= sizes.take(i));
        }
        law_counts(stats, front);
        let before = decided_on(stats, front);
        assert(before.has_room(sizes[sizes.len() - 1]));
        match before.decision(sizes.last()) {
            BackOffDecision::Admit => {
                law_admitting_changes_only_counts(before, sizes.last());
            },
            BackOffDecision::Ban => {
                law_banning(before, sizes.last());
            },
        }
    }
}

/// A rule that is not known starts with no iterations, no bans, and the limit
/// and the ban length of the scheduler. A rule is banned just if it is known and
/// its ban is not over.
pub proof fn law_what_is_known(view: BackOffView, rule: Seq<char>)
    ensures
        view.stats.contains_key(rule) ==> view.stats_of(rule) == view.stats[rule],
        !view.stats.contains_key(rule) ==> ({
            let stats = view.stats_of(rule);
            &&& stats.iteration == 0
            &&& stats.times_applied == 0
            &&& stats.banned_until == 0
            &&& stats.times_banned == 0
            &&& stats.match_limit == view.match_limit
            &&& stats.ban_length == view.ban_length
        }),
        view.bans(rule) <==> view.stats.contains_key(rule) && view.stats[rule].iteration
            < view.stats[rule].banned_until,
{
}

/// A decision on one rule makes the rule known and leaves all others, and the
/// scheduler's defaults, as they are.
pub proof fn law_decisions_are_on_one_rule(view: BackOffView, rule: Seq<char>, match_size: usize)
    ensures
        ({
            let after = view.decided(rule, match_size);
            &&& after.match_limit == view.match_limit
            &&& after.ban_length == view.ban_length
            &&& after.stats.contains_key(rule)
            &&& after.stats[rule] == view.stats_of(rule).decided(match_size)
            &&& forall|other: Seq<char>|
                #![trigger after.stats.contains_key(other)]
                other != rule ==> {
                    &&& after.stats.contains_key(other) <==> view.stats.contains_key(other)
                    &&& view.stats.contains_key(other) ==> after.stats[other] == view.stats[other]
                }
        }),
{
}

/// Waiting for the shortest ban shortens all bans of the given rules by as much
/// and changes nothing else of them; of those rules it forgets the ones that
/// are not banned; and it leaves all other rules as they are.
pub proof fn law_fast_forward(
    stats: Map<Seq<char>, RuleStats>,
    rules: Seq<Seq<char>>,
    rule: Seq<char>,
)
    ensures
        ({
            let after = fast_forwarded(stats, rules);
            &&& !rules.contains(rule) ==> {
                &&& after.contains_key(rule) <==> stats.contains_key(rule)
                &&& stats.contains_key(rule) ==> after[rule] == stats[rule]
            }
            &&& rules.contains(rule) ==> {
                &&& after.contains_key(rule) <==> stats.contains_key(rule) && stats[rule].iteration
                    < stats[rule].banned_until
                &&& after.contains_key(rule) ==> exists|first: Seq<char>|
                    {
                        let least = stats[first].banned_until - stats[first].iteration;
                        &&& #[trigger] rules.contains(first)
                        &&& stats.contains_key(first)
                        &&& 0 < least <= stats[rule].banned_until - stats[rule].iteration
                        &&& forall|other: Seq<char>| #[trigger]
                            rules.contains(other) && stats.contains_key(other)
                                && stats[other].iteration < stats[other].banned_until ==> least
                                <= stats[other].banned_until - stats[other].iteration
                        &&& after[rule].banned_until == stats[rule].banned_until - least
                        &&& after[rule].iteration == stats[rule].iteration
                        &&& after[rule].times_applied == stats[rule].times_applied
                        &&& after[rule].times_banned == stats[rule].times_banned
                        &&& after[rule].match_limit == stats[rule].match_limit
                        &&& after[rule].ban_length == stats[rule].ban_length
                    }
            }
        }),
{
    law_shortest_ban(stats, rules);
    let after = fast_forwarded(stats, rules);
    if rules.contains(rule) && after.contains_key(rule) {
        let least = shortest_ban(stats, rules)->0;
        let first = choose|first: Seq<char>| #[trigger]
            rules.contains(first) && stats.contains_key(first) && stats[first].is_banned()
                && stats[first].ban_left() == least;
        assert(rules.contains(first));
        assert(least <= stats[rule].ban_left());
    }
}

/// There is no shortest ban just if none of the rules is banned.
pub proof fn law_no_ban(stats: Map<Seq<char>, RuleStats>, rules: Seq<&str>)
    ensures
        shortest_ban(stats, names(rules)) is None <==> forall|i: int|
            #![trigger rules[i]]
            0 <= i < rules.len() ==> !(stats.contains_key(rules[i]@) && stats[rules[i]@].iteration
                < stats[rules[i]@].banned_until),
        names(rules).len() == rules.len(),
        forall|i: int| 0 <= i < rules.len() ==> names(rules)[i] == (#[trigger] rules[i])@,
{
    let all = names(rules);
    law_shortest_ban(stats, all);
    assert forall|i: int| 0 <= i < rules.len() implies all.contains(#[trigger] rules[i]@) by {
        assert(all[i] == rules[i]@);
    }
    if shortest_ban(stats, all) is Some {
        let rule = choose|rule: Seq<char>| #[trigger]
            all.contains(rule) && stats.contains_key(rule) && stats[rule].is_banned();
        let i = choose|i: int| 0 <= i < all.len() && all[i] == rule;
        assert(rules[i]@ == rule);
    }
}

} // verus!
