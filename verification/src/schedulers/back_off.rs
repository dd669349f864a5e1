//! The back-off scheduler.
//!
//! A rule that produces too many matches at once is banned for a while. With
//! each ban both the number of matches that it may produce and the length of
//! its next ban double.

use vstd::prelude::*;

use egglog::scheduler::Matches;

use crate::name_map::NameMap;
use crate::schedulers::history::law_no_ban;
use crate::schedulers::matches::{choose_all, every_match, match_count, match_size, picked_matches};

verus! {

/// What the scheduler knows of a rule.
#[derive(Debug, Clone, Copy)]
pub struct RuleStats {
    /// How often the rule came up for a decision.
    pub iteration: usize,
    /// How often its matches were applied.
    pub times_applied: usize,
    /// The iteration at which its ban ends.
    pub banned_until: usize,
    /// How often it was banned.
    pub times_banned: usize,
    /// The number of matches that it may produce before its first ban.
    pub match_limit: usize,
    /// The length of its first ban.
    pub ban_length: usize,
}

/// What is decided of a rule's matches.
#[derive(Debug, Clone, Copy, PartialEq, Eq, Structural)]
pub enum BackOffDecision {
    /// They are not applied.
    Ban,
    /// They are applied.
    Admit,
}

impl RuleStats {
    /// Each application and each ban took an iteration.
    pub open spec fn wf(self) -> bool {
        self.times_applied + self.times_banned <= self.iteration
    }

    /// Whether the rule is banned.
    pub open spec fn is_banned(self) -> bool {
        self.iteration < self.banned_until
    }

    /// How many iterations its ban lasts yet.
    pub open spec fn ban_left(self) -> int {
        self.banned_until - self.iteration
    }

    /// How many matches the rule may produce. Bits that leave the word are lost.
    pub open spec fn threshold(self) -> usize {
        self.match_limit << self.times_banned
    }

    /// How long the rule's next ban is. Bits that leave the word are lost.
    pub open spec fn next_ban(self) -> usize {
        self.ban_length << self.times_banned
    }

    /// Whether the numbers of the next decision fit in a word.
    pub open spec fn has_room(self, match_size: usize) -> bool {
        &&& self.iteration < usize::MAX
        &&& self.iteration + 1 >= self.banned_until ==> {
            &&& self.times_banned < usize::BITS
            &&& match_size > self.threshold() ==> self.iteration + 1 + self.next_ban()
                <= usize::MAX
        }
    }

    /// What is decided of `match_size` matches of the rule.
    pub open spec fn decision(self, match_size: usize) -> BackOffDecision {
        if self.iteration + 1 < self.banned_until || match_size > self.threshold() {
            BackOffDecision::Ban
        } else {
            BackOffDecision::Admit
        }
    }

    /// What is known of the rule after that decision. A rule that is banned
    /// comes closer to the end of its ban, and nothing else changes.
    pub open spec fn decided(self, match_size: usize) -> RuleStats {
        let iteration = (self.iteration + 1) as usize;
        if iteration < self.banned_until {
            RuleStats { iteration, ..self }
        } else if match_size > self.threshold() {
            RuleStats {
                iteration,
                times_banned: (self.times_banned + 1) as usize,
                banned_until: (iteration + self.next_ban()) as usize,
                ..self
            }
        } else {
            RuleStats { iteration, times_applied: (self.times_applied + 1) as usize, ..self }
        }
    }

    /// The same with a ban that ends `by` iterations earlier.
    pub open spec fn forwarded(self, by: nat) -> RuleStats {
        RuleStats { banned_until: (self.banned_until - by) as usize, ..self }
    }
}

/// A back-off scheduler, as contracts see it.
pub struct BackOffView {
    pub match_limit: usize,
    pub ban_length: usize,
    pub stats: Map<Seq<char>, RuleStats>,
}

impl BackOffView {
    /// What is known of a rule that comes up for the first time.
    pub open spec fn fresh_stats(self) -> RuleStats {
        RuleStats {
            iteration: 0,
            times_applied: 0,
            banned_until: 0,
            times_banned: 0,
            match_limit: self.match_limit,
            ban_length: self.ban_length,
        }
    }

    /// What is known of a rule.
    pub open spec fn stats_of(self, rule: Seq<char>) -> RuleStats {
        if self.stats.contains_key(rule) {
            self.stats[rule]
        } else {
            self.fresh_stats()
        }
    }

    /// Whether a rule is banned.
    pub open spec fn bans(self, rule: Seq<char>) -> bool {
        self.stats.contains_key(rule) && self.stats[rule].is_banned()
    }

    /// The scheduler after a decision on `match_size` matches of a rule.
    pub open spec fn decided(self, rule: Seq<char>, match_size: usize) -> BackOffView {
        BackOffView {
            stats: self.stats.insert(rule, self.stats_of(rule).decided(match_size)),
            ..self
        }
    }
}

/// The names of rules.
pub open spec fn names(rules: Seq<&str>) -> Seq<Seq<char>> {
    rules.map_values(|rule: &str| rule@)
}

/// The shortest time that a ban of one of these rules lasts yet, if one of them
/// is banned.
pub open spec fn shortest_ban(stats: Map<Seq<char>, RuleStats>, rules: Seq<Seq<char>>) -> Option<nat>
    decreases rules.len(),
{
    if rules.len() == 0 {
        None
    } else {
        let others = shortest_ban(stats, rules.drop_last());
        let rule = rules.last();
        if !stats.contains_key(rule) || !stats[rule].is_banned() {
            others
        } else {
            let left = stats[rule].ban_left() as nat;
            match others {
                Some(least) => if least <= left {
                    Some(least)
                } else {
                    Some(left)
                },
                None => Some(left),
            }
        }
    }
}

/// What is known of the rules once the shortest ban among `rules` is waited
/// for: the other bans among them are shorter by as much, and those of them
/// that were not banned are forgotten. Of other rules the same is known.
pub open spec fn fast_forwarded(
    stats: Map<Seq<char>, RuleStats>,
    rules: Seq<Seq<char>>,
) -> Map<Seq<char>, RuleStats> {
    Map::new(
        |rule: Seq<char>| stats.contains_key(rule) && (rules.contains(rule) ==> stats[rule].is_banned()),
        |rule: Seq<char>|
            match shortest_ban(stats, rules) {
                Some(least) => if rules.contains(rule) {
                    stats[rule].forwarded(least)
                } else {
                    stats[rule]
                },
                None => stats[rule],
            },
    )
}

/// The shortest ban is that of a banned rule, and no ban is shorter.
pub proof fn law_shortest_ban(stats: Map<Seq<char>, RuleStats>, rules: Seq<Seq<char>>)
    ensures
        match shortest_ban(stats, rules) {
            Some(least) => {
                &&& exists|rule: Seq<char>| #[trigger]
                    rules.contains(rule) && stats.contains_key(rule) && stats[rule].is_banned()
                        && stats[rule].ban_left() == least
                &&& forall|rule: Seq<char>|
                    #[trigger] rules.contains(rule) && stats.contains_key(rule)
                        && stats[rule].is_banned() ==> least <= stats[rule].ban_left()
            },
            None => forall|rule: Seq<char>|
                #[trigger] rules.contains(rule) && stats.contains_key(rule)
                    ==> !stats[rule].is_banned(),
        },
    decreases rules.len(),
{
    if rules.len() > 0 {
        let front = rules.drop_last();
        law_shortest_ban(stats, front);
        assert forall|rule: Seq<char>| #[trigger]
            rules.contains(rule) implies front.contains(rule) || rule == rules.last() by {
            let i = choose|i: int| 0 <= i < rules.len() && rules[i] == rule;
            if i < front.len() {
                assert(front[i] == rule);
            }
        }
        assert forall|rule: Seq<char>| #[trigger] front.contains(rule) implies rules.contains(
            rule,
        ) by {
            let i = choose|i: int| 0 <= i < front.len() && front[i] == rule;
            assert(rules[i] == rule);
        }
        assert(rules.contains(rules.last())) by {
            assert(rules[rules.len() - 1] == rules.last());
        }
        if let Some(least) = shortest_ban(stats, rules) {
            if shortest_ban(stats, front) == Some(least) {
                let rule = choose|rule: Seq<char>| #[trigger]
                    front.contains(rule) && stats.contains_key(rule) && stats[rule].is_banned()
                        && stats[rule].ban_left() == least;
                assert(rules.contains(rule));
            }
        }
    }
}

/// Waiting for the shortest ban ends a ban, and forgets no rule that is banned.
pub proof fn law_fast_forward_ends_a_ban(stats: Map<Seq<char>, RuleStats>, rules: Seq<Seq<char>>)
    ensures
        shortest_ban(stats, rules) is Some ==> exists|rule: Seq<char>| #[trigger]
            rules.contains(rule) && stats.contains_key(rule) && stats[rule].is_banned()
                && fast_forwarded(stats, rules).contains_key(rule) && !fast_forwarded(
                stats,
                rules,
            )[rule].is_banned(),
        forall|rule: Seq<char>| #[trigger]
            stats.contains_key(rule) && stats[rule].is_banned() ==> fast_forwarded(
                stats,
                rules,
            ).contains_key(rule),
{
    law_shortest_ban(stats, rules);
    if let Some(least) = shortest_ban(stats, rules) {
        let rule = choose|rule: Seq<char>| #[trigger]
            rules.contains(rule) && stats.contains_key(rule) && stats[rule].is_banned()
                && stats[rule].ban_left() == least;
        assert(rules.contains(rule));
        assert(fast_forwarded(stats, rules).contains_key(rule));
    }
}

/// A ban lasts for as many iterations as it is long: until then every decision
/// goes against the rule, whatever it produces, and changes nothing but the
/// count of iterations.
pub proof fn law_ban_lasts(stats: RuleStats, match_size: usize, waited: nat, later_size: usize)
    requires
        stats.has_room(match_size),
        !(stats.iteration + 1 < stats.banned_until),
        match_size > stats.threshold(),
        waited + 1 < stats.next_ban(),
    ensures
        ({
            let banned = stats.decided(match_size);
            let waiting = RuleStats { iteration: (banned.iteration + waited) as usize, ..banned };
            &&& waiting.is_banned()
            &&& waiting.has_room(later_size)
            &&& waiting.decision(later_size) is Ban
            &&& waiting.decided(later_size) == RuleStats {
                iteration: (banned.iteration + waited + 1) as usize,
                ..banned
            }
        }),
{
}

/// A rule is banned after a decision just if its ban was not over, or if it
/// produced too many matches and the ban for that is not empty. So a rule whose
/// matches are applied is not banned.
pub proof fn law_banned_after_decision(stats: RuleStats, match_size: usize)
    requires
        stats.has_room(match_size),
    ensures
        stats.decided(match_size).is_banned() <==> stats.iteration + 1 < stats.banned_until || (
        match_size > stats.threshold() && stats.next_ban() > 0),
        stats.decision(match_size) is Admit ==> !stats.decided(match_size).is_banned(),
{
}

/// What is known of the rules once the shortest ban among `rules` was waited
/// for so many times.
pub open spec fn fast_forwarded_by(
    stats: Map<Seq<char>, RuleStats>,
    rules: Seq<Seq<char>>,
    times: nat,
) -> Map<Seq<char>, RuleStats>
    decreases times,
{
    if times == 0 {
        stats
    } else {
        fast_forwarded(fast_forwarded_by(stats, rules, (times - 1) as nat), rules)
    }
}

/// The rules among `rules` that are banned.
pub open spec fn banned_among(
    stats: Map<Seq<char>, RuleStats>,
    rules: Seq<Seq<char>>,
) -> Set<Seq<char>> {
    rules.to_set().filter(|rule: Seq<char>| stats.contains_key(rule) && stats[rule].is_banned())
}

/// Rules can be considered saturated at last: once the shortest ban was waited
/// for as many times as there are rules, none of them is banned.
pub proof fn law_bans_come_to_an_end(stats: Map<Seq<char>, RuleStats>, rules: Seq<Seq<char>>)
    ensures
        shortest_ban(fast_forwarded_by(stats, rules, rules.len()), rules) is None,
{
    let last = fast_forwarded_by(stats, rules, rules.len());
    lemma_fewer_bans(stats, rules, rules.len());
    vstd::seq_lib::seq_to_set_is_finite(rules);
    law_shortest_ban(last, rules);
    if shortest_ban(last, rules) is Some {
        let rule = choose|rule: Seq<char>| #[trigger]
            rules.contains(rule) && last.contains_key(rule) && last[rule].is_banned();
        assert(banned_among(last, rules).contains(rule));
        assert(banned_among(last, rules).len() > 0);
    }
}

proof fn lemma_fewer_bans(stats: Map<Seq<char>, RuleStats>, rules: Seq<Seq<char>>, times: nat)
    requires
        times <= rules.len(),
    ensures
        banned_among(fast_forwarded_by(stats, rules, times), rules).finite(),
        banned_among(fast_forwarded_by(stats, rules, times), rules).len() <= rules.len() - times,
    decreases times,
{
    let now = fast_forwarded_by(stats, rules, times);
    let banned = banned_among(now, rules);
    vstd::seq_lib::seq_to_set_is_finite(rules);
    if times == 0 {
        rules.lemma_cardinality_of_set();
        vstd::set_lib::lemma_len_subset(banned, rules.to_set());
    } else {
        let before = fast_forwarded_by(stats, rules, (times - 1) as nat);
        let banned_before = banned_among(before, rules);
        lemma_fewer_bans(stats, rules, (times - 1) as nat);
        law_shortest_ban(before, rules);
        assert(banned.subset_of(banned_before)) by {
            assert forall|rule: Seq<char>| banned.contains(rule) implies banned_before.contains(
                rule,
            ) by {
                assert(rules.contains(rule));
            }
        }
        match shortest_ban(before, rules) {
            Some(least) => {
                let rule = choose|rule: Seq<char>| #[trigger]
                    rules.contains(rule) && before.contains_key(rule) && before[rule].is_banned()
                        && before[rule].ban_left() == least;
                assert(banned_before.contains(rule));
                assert(!banned.contains(rule));
                vstd::set_lib::lemma_len_subset(banned, banned_before.remove(rule));
            },
            None => {
                assert forall|rule: Seq<char>| !banned_before.contains(rule) by {
                    assert(banned_before.contains(rule) ==> rules.contains(rule));
                }
                assert(banned =~= Set::empty());
            },
        }
    }
}

/// With each ban, the number of matches that the rule may produce doubles, as
/// does the length of its next ban, while they fit in a word.
pub proof fn law_ban_doubles(stats: RuleStats, match_size: usize)
    requires
        stats.has_room(match_size),
        !(stats.iteration + 1 < stats.banned_until),
        match_size > stats.threshold(),
        stats.times_banned + 1 < usize::BITS,
    ensures
        2 * stats.threshold() <= usize::MAX ==> stats.decided(match_size).threshold() == 2
            * stats.threshold(),
        2 * stats.next_ban() <= usize::MAX ==> stats.decided(match_size).next_ban() == 2
            * stats.next_ban(),
{
    if 2 * stats.threshold() <= usize::MAX {
        lemma_shift_doubles(stats.match_limit, stats.times_banned);
    }
    if 2 * stats.next_ban() <= usize::MAX {
        lemma_shift_doubles(stats.ban_length, stats.times_banned);
    }
}

proof fn lemma_shift_doubles(word: usize, by: usize)
    requires
        by + 1 < usize::BITS,
        2 * (word << by) <= usize::MAX,
    ensures
        word << ((by + 1) as usize) == 2 * (word << by),
{
    let more = (by + 1) as usize;
    let twice = (2 * (word << by)) as usize;
    assert(word << more == twice) by (bit_vector)
        requires
            more == by + 1,
            more < usize::BITS,
            twice == 2 * (word << by),
    ;
}

/// The back-off scheduler.
#[derive(Debug, Clone)]
pub struct BackOffScheduler {
    default_match_limit: usize,
    default_ban_length: usize,
    stats: NameMap<RuleStats>,
}

impl View for BackOffScheduler {
    type V = BackOffView;

    closed spec fn view(&self) -> BackOffView {
        BackOffView {
            match_limit: self.default_match_limit,
            ban_length: self.default_ban_length,
            stats: self.stats@,
        }
    }
}

impl BackOffScheduler {
    /// Where a scheduler can be at all.
    pub closed spec fn wf(self) -> bool {
        &&& self.stats.wf()
        &&& forall|rule: Seq<char>|
            #[trigger] self.stats@.contains_key(rule) ==> self.stats@[rule].wf()
    }

    /// A scheduler that knows no rule yet.
    pub fn new(match_limit: usize, ban_length: usize) -> (scheduler: BackOffScheduler)
        ensures
            scheduler.wf(),
            scheduler@ == (BackOffView { match_limit, ban_length, stats: Map::empty() }),
    {
        BackOffScheduler {
            default_match_limit: match_limit,
            default_ban_length: ban_length,
            stats: NameMap::new(),
        }
    }

    /// Whether a rule is banned.
    pub fn is_banned(&self, rule: &str) -> (banned: bool)
        requires
            self.wf(),
        ensures
            banned == self@.bans(rule@),
    {
        match self.stats.get(rule) {
            Some(stats) => stats.iteration < stats.banned_until,
            None => false,
        }
    }

    /// What is known of a rule, to be changed. A rule that comes up for the
    /// first time is known from then on.
    pub fn get_stats(&mut self, rule: String) -> (stats: &mut RuleStats)
        requires
            old(self).wf(),
        ensures
            *stats == old(self)@.stats_of(rule@),
            final(stats).wf() ==> final(self).wf(),
            final(self)@ == (BackOffView {
                stats: old(self)@.stats.insert(rule@, *final(stats)),
                ..old(self)@
            }),
    {
        let fresh = RuleStats {
            iteration: 0,
            times_applied: 0,
            banned_until: 0,
            times_banned: 0,
            match_limit: self.default_match_limit,
            ban_length: self.default_ban_length,
        };
        self.stats.or_insert(rule, fresh)
    }

    /// Whether the numbers of the next decision on a rule fit in a word.
    pub fn has_room(&self, rule: &str, match_size: usize) -> (room: bool)
        requires
            self.wf(),
        ensures
            room == self@.stats_of(rule@).has_room(match_size),
    {
        let stats: RuleStats = match self.stats.get(rule) {
            Some(stats) => *stats,
            None => RuleStats {
                iteration: 0,
                times_applied: 0,
                banned_until: 0,
                times_banned: 0,
                match_limit: self.default_match_limit,
                ban_length: self.default_ban_length,
            },
        };
        if stats.iteration == usize::MAX {
            return false;
        }
        let iteration: usize = stats.iteration + 1;
        if iteration < stats.banned_until {
            return true;
        }
        if stats.times_banned >= usize::BITS as usize {
            return false;
        }
        if match_size > stats.match_limit << stats.times_banned {
            let ban_length: usize = stats.ban_length << stats.times_banned;
            return iteration <= usize::MAX - ban_length;
        }
        true
    }

    /// Decides whether `match_size` matches of a rule are applied.
    pub fn decide(&mut self, rule: &str, match_size: usize) -> (decision: BackOffDecision)
        requires
            old(self).wf(),
            old(self)@.stats_of(rule@).has_room(match_size),
        ensures
            final(self).wf(),
            final(self)@ == old(self)@.decided(rule@, match_size),
            decision == old(self)@.stats_of(rule@).decision(match_size),
    {
        let stats = self.get_stats(rule.to_owned());
        stats.iteration = stats.iteration + 1;
        if stats.iteration < stats.banned_until {
            return BackOffDecision::Ban;
        }
        let threshold: usize = stats.match_limit << stats.times_banned;
        if match_size > threshold {
            let ban_length: usize = stats.ban_length << stats.times_banned;
            stats.times_banned = stats.times_banned + 1;
            stats.banned_until = stats.iteration + ban_length;
            BackOffDecision::Ban
        } else {
            stats.times_applied = stats.times_applied + 1;
            BackOffDecision::Admit
        }
    }

    /// Whether the rules can be considered saturated, given that a run of them
    /// changed nothing. That is so unless one of them is banned. If one is, the
    /// shortest ban ends at once. Rules that are not banned are forgotten.
    pub fn can_stop(&mut self, rules: &[&str], ruleset: &str) -> (stop: bool)
        requires
            old(self).wf(),
        ensures
            final(self).wf(),
            final(self)@ == (BackOffView {
                stats: fast_forwarded(old(self)@.stats, names(rules@)),
                ..old(self)@
            }),
            stop == (shortest_ban(old(self)@.stats, names(rules@)) is None),
            stop <==> forall|i: int|
                0 <= i < rules@.len() ==> !old(self)@.bans((#[trigger] rules@[i])@),
    {
        proof {
            law_no_ban(self@.stats, rules@);
        }
        let ghost stats = self@.stats;
        let ghost all = names(rules@);
        let mut banned: Vec<(&str, RuleStats)> = Vec::new();
        let mut shortest: Option<usize> = None;
        let mut i: usize = 0;
        while i < rules.len()
            invariant
                i <= rules@.len(),
                stats == old(self)@.stats,
                all == names(rules@),
                old(self).wf(),
                self.wf(),
                self@.match_limit == old(self)@.match_limit,
                self@.ban_length == old(self)@.ban_length,
                forall|rule: Seq<char>|
                    #[trigger] self@.stats.contains_key(rule) <==> stats.contains_key(rule)
                        && !all.take(i as int).contains(rule),
                forall|rule: Seq<char>| #[trigger]
                    self@.stats.contains_key(rule) ==> self@.stats[rule] == stats[rule],
                forall|k: int|
                    0 <= k < banned@.len() ==> all.take(i as int).contains(
                        (#[trigger] banned@[k]).0@,
                    ) && stats.contains_key(banned@[k].0@) && banned@[k].1 == stats[banned@[k].0@]
                        && banned@[k].1.is_banned(),
                forall|rule: Seq<char>| #[trigger]
                    all.take(i as int).contains(rule) && stats.contains_key(rule)
                        && stats[rule].is_banned() ==> exists|k: int|
                        0 <= k < banned@.len() && (#[trigger] banned@[k]).0@ == rule,
                match shortest {
                    Some(least) => shortest_ban(stats, all.take(i as int)) == Some(least as nat),
                    None => shortest_ban(stats, all.take(i as int)) is None,
                },
            decreases rules@.len() - i,
        {
            let rule: &str = rules[i];
            let ghost before = self@.stats;
            let ghost had = banned@;
            let ghost front = all.take(i as int);
            let ghost longer = all.take(i + 1);
            proof {
                assert(all[i as int] == rule@);
                assert(longer.drop_last() =~= front);
                assert(longer.last() == rule@);
                law_shortest_ban(stats, front);
                assert forall|name: Seq<char>| #[trigger]
                    longer.contains(name) <==> front.contains(name) || name == rule@ by {
                    if longer.contains(name) {
                        let j = choose|j: int| 0 <= j < longer.len() && longer[j] == name;
                        if j < front.len() {
                            assert(front[j] == name);
                        }
                    }
                    if front.contains(name) {
                        let j = choose|j: int| 0 <= j < front.len() && front[j] == name;
                        assert(longer[j] == name);
                    }
                    assert(longer[i as int] == rule@);
                }
            }
            if let Some(found) = self.stats.remove(rule) {
                if found.banned_until > found.iteration {
                    let left: usize = found.banned_until - found.iteration;
                    shortest = match shortest {
                        Some(least) => if least <= left {
                            Some(least)
                        } else {
                            Some(left)
                        },
                        None => Some(left),
                    };
                    banned.push((rule, found));
                    proof {
                        assert forall|name: Seq<char>| #[trigger]
                            longer.contains(name) && stats.contains_key(name)
                                && stats[name].is_banned() implies exists|k: int|
                            0 <= k < banned@.len() && (#[trigger] banned@[k]).0@ == name by {
                            if name == rule@ {
                                assert(banned@[had.len() as int].0@ == name);
                            } else {
                                assert(front.contains(name));
                                let k = choose|k: int|
                                    0 <= k < had.len() && (#[trigger] had[k]).0@ == name;
                                assert(banned@[k].0@ == name);
                            }
                        }
                    }
                }
            } else {
                proof {
                    if stats.contains_key(rule@) {
                        assert(front.contains(rule@));
                    }
                }
            }
            i = i + 1;
        }
        assert(all.take(i as int) =~= all);
        let least: usize = match shortest {
            Some(least) => least,
            None => {
                proof {
                    law_shortest_ban(stats, all);
                    assert(self@.stats =~= fast_forwarded(stats, all));
                }
                return true;
            },
        };
        proof {
            law_shortest_ban(stats, all);
        }
        let mut j: usize = 0;
        while j < banned.len()
            invariant
                j <= banned@.len(),
                stats == old(self)@.stats,
                all == names(rules@),
                shortest_ban(stats, all) == Some(least as nat),
                old(self).wf(),
                self.wf(),
                self@.match_limit == old(self)@.match_limit,
                self@.ban_length == old(self)@.ban_length,
                forall|rule: Seq<char>| #[trigger]
                    all.contains(rule) && stats.contains_key(rule) && stats[rule].is_banned()
                        ==> least <= stats[rule].ban_left(),
                forall|k: int|
                    0 <= k < banned@.len() ==> all.contains((#[trigger] banned@[k]).0@)
                        && stats.contains_key(banned@[k].0@) && banned@[k].1 == stats[banned@[k].0@]
                        && banned@[k].1.is_banned(),
                forall|rule: Seq<char>|
                    #[trigger] self@.stats.contains_key(rule) <==> (stats.contains_key(rule)
                        && !all.contains(rule)) || exists|k: int|
                        0 <= k < j && (#[trigger] banned@[k]).0@ == rule,
                forall|rule: Seq<char>| #[trigger]
                    self@.stats.contains_key(rule) ==> self@.stats[rule] == (if all.contains(
                        rule,
                    ) {
                        stats[rule].forwarded(least as nat)
                    } else {
                        stats[rule]
                    }),
            decreases banned@.len() - j,
        {
            let (rule, found): (&str, RuleStats) = banned[j];
            let ghost before = self@.stats;
            proof {
                assert(banned@[j as int].0@ == rule@);
                assert(stats[rule@].wf());
            }
            let mut shorter: RuleStats = found;
            shorter.banned_until = found.banned_until - least;
            self.stats.insert(rule.to_owned(), shorter);
            j = j + 1;
        }
        assert(self@.stats =~= fast_forwarded(stats, all));
        false
    }

    /// The same as `filter_matches`, where the numbers of the decision fit in a
    /// word. Where they do not, nothing is decided and nothing changes.
    pub fn try_filter_matches(
        &mut self,
        rule: &str,
        ruleset: &str,
        matches: &mut Matches,
    ) -> (seek: Option<bool>)
        requires
            old(self).wf(),
        ensures
            final(self).wf(),
            match seek {
                Some(seek) => {
                    let count = match_count(*old(matches));
                    &&& old(self)@.stats_of(rule@).has_room(count)
                    &&& final(self)@ == old(self)@.decided(rule@, count)
                    &&& seek == (old(self)@.stats_of(rule@).decision(count) is Admit)
                    &&& match_count(*final(matches)) == count
                    &&& picked_matches(*final(matches)) == if seek {
                        every_match(count)
                    } else {
                        picked_matches(*old(matches))
                    }
                },
                None => {
                    &&& !old(self)@.stats_of(rule@).has_room(match_count(*old(matches)))
                    &&& *final(self) == *old(self)
                    &&& *final(matches) == *old(matches)
                },
            },
    {
        if self.has_room(rule, match_size(matches)) {
            Some(self.filter_matches(rule, ruleset, matches))
        } else {
            None
        }
    }

    /// Picks all matches of a rule, unless the rule is banned. Returns whether
    /// they were picked.
    pub fn filter_matches(&mut self, rule: &str, ruleset: &str, matches: &mut Matches) -> (seek:
        bool)
        requires
            old(self).wf(),
            old(self)@.stats_of(rule@).has_room(match_count(*old(matches))),
        ensures
            final(self).wf(),
            final(self)@ == old(self)@.decided(rule@, match_count(*old(matches))),
            seek == (old(self)@.stats_of(rule@).decision(match_count(*old(matches)))
                is Admit),
            match_count(*final(matches)) == match_count(*old(matches)),
            picked_matches(*final(matches)) == if seek {
                every_match(match_count(*old(matches)))
            } else {
                picked_matches(*old(matches))
            },
    {
        match self.decide(rule, match_size(matches)) {
            BackOffDecision::Ban => false,
            BackOffDecision::Admit => {
                choose_all(matches);
                true
            },
        }
    }
}

} // verus!
