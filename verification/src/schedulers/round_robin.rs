//! The round-robin back-off scheduler.
//!
//! It applies the matches of one rule in each call, and leaves to a back-off
//! scheduler whether they are applied at all. With `n` rules, a cycle takes
//! `n + 1` calls. In the first, the cache call, the rules are searched for
//! matches and all of these are kept. In each of the `n` drain calls that
//! follow, the matches that were kept for one rule are put to the back-off
//! scheduler.
//!
//! The order of the rules is that of the first cache call, so each ruleset
//! should have a scheduler of its own.

use vstd::prelude::*;

use egglog::scheduler::Matches;

use crate::name_map::NameMap;
use crate::schedulers::back_off::{
    fast_forwarded, names, shortest_ban, BackOffScheduler, BackOffView,
};
use crate::schedulers::matches::{every_match, match_count, match_size, picked_matches};

verus! {

/// Where in a cycle the scheduler is.
#[derive(Debug, Clone, Copy, PartialEq, Eq, Structural)]
pub enum Phase {
    /// In the cache call.
    Cache,
    /// In the drain call of the rule of this number.
    Drain(usize),
}

/// A round-robin back-off scheduler, as contracts see it.
#[verifier::ext_equal]
pub struct RoundRobinView {
    pub backoff: BackOffView,
    /// The rules, in the order in which they are drained.
    pub rule_order: Seq<Seq<char>>,
    pub phase: Phase,
    /// The rules that came up in the present call.
    pub seen_this_call: Set<Seq<char>>,
    /// Whether a match was found in the present cycle.
    pub any_collected_this_cycle: bool,
    /// Whether the order of the rules is settled.
    pub started: bool,
}

impl RoundRobinView {
    /// A scheduler before its first call.
    pub open spec fn fresh(backoff: BackOffView) -> RoundRobinView {
        RoundRobinView {
            backoff,
            rule_order: Seq::empty(),
            phase: Phase::Cache,
            seen_this_call: Set::empty(),
            any_collected_this_cycle: false,
            started: false,
        }
    }

    /// The scheduler in its next call. After the last drain call, a new cycle
    /// starts.
    pub open spec fn advanced(self) -> RoundRobinView {
        let n = self.rule_order.len();
        match self.phase {
            Phase::Cache => if n > 0 {
                RoundRobinView { phase: Phase::Drain(0), ..self }
            } else {
                self
            },
            Phase::Drain(i) => if i + 1 < n {
                RoundRobinView { phase: Phase::Drain((i + 1) as usize), ..self }
            } else {
                RoundRobinView { phase: Phase::Cache, any_collected_this_cycle: false, ..self }
            },
        }
    }

    /// The scheduler when a rule comes up. A rule that came up in this call
    /// already means that the next call has started.
    pub open spec fn noticing(self, rule: Seq<char>) -> RoundRobinView {
        if self.seen_this_call.contains(rule) {
            RoundRobinView { seen_this_call: Set::empty().insert(rule), ..self.advanced() }
        } else {
            RoundRobinView { seen_this_call: self.seen_this_call.insert(rule), ..self }
        }
    }

    /// Whether it is this rule's turn to be drained.
    pub open spec fn drains(self, rule: Seq<char>) -> bool {
        self.phase matches Phase::Drain(i) && i < self.rule_order.len() && self.rule_order[i as int]
            == rule
    }

    /// Whether the numbers of the decision on a rule's matches fit in a word.
    pub open spec fn has_room(self, rule: Seq<char>, count: usize) -> bool {
        self.noticing(rule).drains(rule) ==> self.backoff.stats_of(rule).has_room(count)
    }

    /// Whether a rule's matches are picked.
    pub open spec fn picks(self, rule: Seq<char>, count: usize) -> bool {
        self.noticing(rule).drains(rule) && self.backoff.stats_of(rule).decision(count) is Admit
    }

    /// The scheduler once `count` matches of a rule were put to it.
    pub open spec fn filtered(self, rule: Seq<char>, count: usize) -> RoundRobinView {
        let noticed = self.noticing(rule);
        match noticed.phase {
            Phase::Cache => RoundRobinView {
                rule_order: if noticed.started {
                    noticed.rule_order
                } else {
                    noticed.rule_order.push(rule)
                },
                any_collected_this_cycle: noticed.any_collected_this_cycle || count > 0,
                ..noticed
            },
            Phase::Drain(_) => RoundRobinView {
                started: true,
                backoff: if noticed.drains(rule) {
                    noticed.backoff.decided(rule, count)
                } else {
                    noticed.backoff
                },
                ..noticed
            },
        }
    }

    /// Whether the rule is to be searched again before its next turn: at the
    /// last drain call, and unless it is banned.
    pub open spec fn seeks(self, rule: Seq<char>, count: usize) -> bool {
        let after = self.filtered(rule, count);
        after.phase matches Phase::Drain(i) && i + 1 == after.rule_order.len()
            && !after.backoff.bans(rule)
    }
}

impl RoundRobinView {
    /// The scheduler, `calls` calls later.
    pub open spec fn advanced_by(self, calls: nat) -> RoundRobinView
        decreases calls,
    {
        if calls == 0 {
            self
        } else {
            self.advanced_by((calls - 1) as nat).advanced()
        }
    }

    /// The scheduler once each of these rules, with as many matches as stand
    /// beside it, was put to it in turn.
    pub open spec fn called(self, rules: Seq<(Seq<char>, usize)>) -> RoundRobinView
        decreases rules.len(),
    {
        if rules.len() == 0 {
            self
        } else {
            self.called(rules.drop_last()).filtered(rules.last().0, rules.last().1)
        }
    }
}

impl RoundRobinView {
    /// Where rules that come up one after the other can take a scheduler: no
    /// rule stands twice in the order, and until the order is settled, it holds
    /// just the rules of the present call, the cache call.
    pub open spec fn orderly(self) -> bool {
        &&& self.rule_order.no_duplicates()
        &&& self.phase matches Phase::Drain(i) ==> self.started && i < self.rule_order.len()
        &&& !self.started ==> self.seen_this_call == self.rule_order.to_set()
    }
}

/// Whatever comes up keeps a scheduler orderly.
pub proof fn law_stays_orderly(view: RoundRobinView, rule: Seq<char>, count: usize)
    requires
        view.orderly(),
    ensures
        view.filtered(rule, count).orderly(),
{
    let after = view.filtered(rule, count);
    if view.seen_this_call.contains(rule) {
        if !view.started {
            assert(view.rule_order.contains(rule));
        }
    } else if !view.started {
        assert(!view.rule_order.contains(rule));
        let order = view.rule_order.push(rule);
        assert(order.no_duplicates());
        assert(order.to_set() =~= view.rule_order.to_set().insert(rule)) by {
            assert forall|one: Seq<char>| #[trigger] order.contains(one)
                <==> view.rule_order.contains(one) || one == rule by {
                if view.rule_order.contains(one) {
                    let i = choose|i: int|
                        0 <= i < view.rule_order.len() && view.rule_order[i] == one;
                    assert(order[i] == one);
                }
                if order.contains(one) && one != rule {
                    let i = choose|i: int| 0 <= i < order.len() && order[i] == one;
                    assert(view.rule_order[i] == one);
                }
                assert(order[order.len() - 1] == rule);
            }
        }
    }
}

/// No rule stands twice in the order of a scheduler, whatever came up since its
/// start.
pub proof fn law_order_has_no_rule_twice(backoff: BackOffView, history: Seq<(Seq<char>, usize)>)
    ensures
        RoundRobinView::fresh(backoff).called(history).orderly(),
        RoundRobinView::fresh(backoff).called(history).rule_order.no_duplicates(),
    decreases history.len(),
{
    let fresh = RoundRobinView::fresh(backoff);
    if history.len() == 0 {
        assert(fresh.rule_order.to_set() =~= Set::empty());
    } else {
        law_order_has_no_rule_twice(backoff, history.drop_last());
        law_stays_orderly(
            fresh.called(history.drop_last()),
            history.last().0,
            history.last().1,
        );
    }
}

/// Whether no rule comes up twice.
pub open spec fn come_up_once(rules: Seq<(Seq<char>, usize)>) -> bool {
    forall|i: int, j: int| 0 <= i < j < rules.len() ==> (#[trigger] rules[i]).0 != (#[trigger] rules[j]).0
}

/// The rules that come up.
pub open spec fn rules_of(rules: Seq<(Seq<char>, usize)>) -> Seq<Seq<char>> {
    rules.map_values(|rule: (Seq<char>, usize)| rule.0)
}

/// A cycle over `n` rules takes `n + 1` calls: the cache call, and then one
/// drain call for each rule in turn. In the meantime nothing else changes, and
/// at the end the next cycle starts afresh.
pub proof fn law_cycle(view: RoundRobinView, calls: nat)
    requires
        view.phase is Cache,
        0 < view.rule_order.len() <= usize::MAX,
        calls <= view.rule_order.len(),
    ensures
        view.advanced_by(calls) == (RoundRobinView {
            phase: if calls == 0 {
                Phase::Cache
            } else {
                Phase::Drain((calls - 1) as usize)
            },
            ..view
        }),
        view.advanced_by(view.rule_order.len() + 1) == (RoundRobinView {
            phase: Phase::Cache,
            any_collected_this_cycle: false,
            ..view
        }),
{
    lemma_within_cycle(view, calls);
    lemma_within_cycle(view, view.rule_order.len());
}

proof fn lemma_within_cycle(view: RoundRobinView, calls: nat)
    requires
        view.phase is Cache,
        0 < view.rule_order.len() <= usize::MAX,
        calls <= view.rule_order.len(),
    ensures
        view.advanced_by(calls) == (RoundRobinView {
            phase: if calls == 0 {
                Phase::Cache
            } else {
                Phase::Drain((calls - 1) as usize)
            },
            ..view
        }),
    decreases calls,
{
    if calls > 0 {
        lemma_within_cycle(view, (calls - 1) as nat);
    }
}

/// In a cycle, each rule is drained in one call and no other: the rule of
/// number `i` in the `i`th call after the cache call, counted from one.
pub proof fn law_each_rule_has_its_turn(view: RoundRobinView, i: int, calls: nat)
    requires
        view.phase is Cache,
        view.rule_order.len() <= usize::MAX,
        view.rule_order.no_duplicates(),
        0 <= i < view.rule_order.len(),
        calls <= view.rule_order.len(),
    ensures
        view.advanced_by(calls).drains(view.rule_order[i]) <==> calls == i + 1,
{
    lemma_within_cycle(view, calls);
}

/// The first call settles the order of the rules: it is that in which they came
/// up. No ban is decided and no match is picked.
pub proof fn law_first_call(backoff: BackOffView, rules: Seq<(Seq<char>, usize)>)
    requires
        come_up_once(rules),
    ensures
        ({
            let after = RoundRobinView::fresh(backoff).called(rules);
            &&& after.phase is Cache
            &&& !after.started
            &&& after.rule_order == rules_of(rules)
            &&& after.backoff == backoff
            &&& after.seen_this_call == rules_of(rules).to_set()
            &&& forall|i: int|
                0 <= i < rules.len() ==> !#[trigger] RoundRobinView::fresh(backoff).called(
                    rules.take(i),
                ).picks(rules[i].0, rules[i].1)
        }),
    decreases rules.len(),
{
    let fresh = RoundRobinView::fresh(backoff);
    if rules.len() == 0 {
        assert(rules_of(rules) =~= Seq::empty());
        assert(rules_of(rules).to_set() =~= Set::empty());
    } else {
        let front = rules.drop_last();
        law_first_call(backoff, front);
        lemma_names_so_far(rules);
        assert forall|i: int| 0 <= i < rules.len() implies !#[trigger] fresh.called(
            rules.take(i),
        ).picks(rules[i].0, rules[i].1) by {
            if i < front.len() {
                assert(front.take(i) =~= rules.take(i));
                assert(!fresh.called(front.take(i)).picks(front[i].0, front[i].1));
            } else {
                assert(rules.take(i) =~= front);
            }
        }
    }
}

proof fn lemma_names_so_far(rules: Seq<(Seq<char>, usize)>)
    requires
        rules.len() > 0,
        come_up_once(rules),
    ensures
        come_up_once(rules.drop_last()),
        rules_of(rules) == rules_of(rules.drop_last()).push(rules.last().0),
        rules_of(rules).to_set() == rules_of(rules.drop_last()).to_set().insert(rules.last().0),
        !rules_of(rules.drop_last()).to_set().contains(rules.last().0),
{
    let front = rules_of(rules.drop_last());
    let all = rules_of(rules);
    assert(all =~= front.push(rules.last().0));
    assert forall|rule: Seq<char>| #[trigger] all.to_set().contains(rule) <==> front.to_set().insert(
        rules.last().0,
    ).contains(rule) by {
        if all.contains(rule) {
            let i = choose|i: int| 0 <= i < all.len() && all[i] == rule;
            if i < front.len() {
                assert(front[i] == rule);
            }
        }
        if front.contains(rule) {
            let i = choose|i: int| 0 <= i < front.len() && front[i] == rule;
            assert(all[i] == rule);
        }
        assert(all[all.len() - 1] == rules.last().0);
    }
    assert(all.to_set() =~= front.to_set().insert(rules.last().0));
    if front.contains(rules.last().0) {
        let i = choose|i: int| 0 <= i < front.len() && front[i] == rules.last().0;
        assert(rules[i].0 == rules[rules.len() - 1].0);
    }
}

/// Each call after the first takes the scheduler one step on in its cycle, and
/// puts the matches of no rule but the one whose turn it is to the back-off
/// scheduler.
pub proof fn law_call(view: RoundRobinView, rules: Seq<(Seq<char>, usize)>)
    requires
        view.phase matches Phase::Drain(i) ==> i < view.rule_order.len(),
        view.rule_order.len() <= usize::MAX,
        view.started || view.advanced().phase is Drain,
        rules.len() > 0,
        come_up_once(rules),
        forall|i: int| 0 <= i < rules.len() ==> view.seen_this_call.contains(#[trigger] rules[i].0),
    ensures
        ({
            let after = view.called(rules);
            &&& after.phase == view.advanced().phase
            &&& after.rule_order == view.rule_order
            &&& after.seen_this_call == rules_of(rules).to_set()
            &&& after.started
            &&& forall|rule: Seq<char>| #[trigger]
                after.backoff.stats.contains_key(rule) && !view.advanced().drains(rule)
                    ==> view.backoff.stats.contains_key(rule) && after.backoff.stats[rule]
                    == view.backoff.stats[rule]
            &&& forall|i: int|
                #![trigger rules[i]]
                0 <= i < rules.len() && view.advanced().drains(rules[i].0) ==> after.backoff
                    == view.backoff.decided(rules[i].0, rules[i].1)
            &&& (forall|i: int| 0 <= i < rules.len() ==> !view.advanced().drains(#[trigger] rules[i].0))
                ==> after.backoff == view.backoff
        }),
    decreases rules.len(),
{
    let front = rules.drop_last();
    lemma_names_so_far(rules);
    assert(rules.last() == rules[rules.len() - 1]);
    if front.len() == 0 {
        assert(view.called(front) == view);
        assert(rules_of(front).to_set() =~= Set::empty());
    } else {
        assert forall|i: int| 0 <= i < front.len() implies view.seen_this_call.contains(
            #[trigger] front[i].0,
        ) by {
            assert(front[i] == rules[i]);
        }
        law_call(view, front);
        assert forall|i: int| 0 <= i < front.len() implies #[trigger] rules[i] == front[i] by {}
    }
}

/// Before its first call a scheduler has seen no rule and found no match, and
/// its first call is a cache call.
pub proof fn law_fresh(backoff: BackOffView)
    ensures
        ({
            let view = RoundRobinView::fresh(backoff);
            &&& view.backoff == backoff
            &&& view.rule_order.len() == 0
            &&& view.phase is Cache
            &&& view.seen_this_call == Set::<Seq<char>>::empty()
            &&& !view.any_collected_this_cycle
            &&& !view.started
        }),
{
}

/// Where the next call finds a scheduler: behind the cache call comes the first
/// drain call, behind a drain call the next, and behind the last one the cache
/// call of a new cycle, in which no match was found yet.
pub proof fn law_next_call(view: RoundRobinView)
    requires
        view.rule_order.len() <= usize::MAX,
        view.phase matches Phase::Drain(i) ==> i < view.rule_order.len(),
    ensures
        ({
            let after = view.advanced();
            &&& after.backoff == view.backoff
            &&& after.rule_order == view.rule_order
            &&& after.seen_this_call == view.seen_this_call
            &&& after.started == view.started
            &&& match view.phase {
                Phase::Cache => {
                    &&& after.phase is Cache <==> view.rule_order.len() == 0
                    &&& after.phase matches Phase::Drain(i) ==> i == 0
                    &&& after.any_collected_this_cycle == view.any_collected_this_cycle
                },
                Phase::Drain(i) => {
                    &&& after.phase is Cache <==> i + 1 == view.rule_order.len()
                    &&& after.phase matches Phase::Drain(j) ==> j == i + 1
                    &&& after.any_collected_this_cycle <==> after.phase is Drain
                        && view.any_collected_this_cycle
                },
            }
        }),
{
}

/// A rule that comes up in the cache call is kept and not drained: nothing is
/// picked, decided or searched again. In the first cache call it takes its place
/// behind the rules before it.
pub proof fn law_caching(view: RoundRobinView, rule: Seq<char>, count: usize)
    requires
        ({
            let present = if view.seen_this_call.contains(rule) {
                view.advanced()
            } else {
                view
            };
            present.phase is Cache
        }),
    ensures
        ({
            let after = view.filtered(rule, count);
            let again = view.seen_this_call.contains(rule);
            &&& !view.picks(rule, count)
            &&& !view.seeks(rule, count)
            &&& view.has_room(rule, count)
            &&& after.phase is Cache
            &&& after.backoff == view.backoff
            &&& after.started == view.started
            &&& view.started ==> after.rule_order == view.rule_order
            &&& !view.started ==> after.rule_order == view.rule_order + seq![rule]
            &&& after.any_collected_this_cycle <==> count > 0 || (view.any_collected_this_cycle && !(
            again && view.phase is Drain))
            &&& after.seen_this_call == if again {
                set![rule]
            } else {
                view.seen_this_call.insert(rule)
            }
        }),
{
    assert(view.rule_order.push(rule) =~= view.rule_order + seq![rule]);
    assert(Set::empty().insert(rule) =~= set![rule]);
}

/// A rule that comes up in a drain call is put to the back-off scheduler just if
/// it is its turn, and its matches are picked just if that scheduler admits
/// them. It is searched again just if the drain call is the last of its cycle
/// and the rule is not banned then.
pub proof fn law_draining(view: RoundRobinView, rule: Seq<char>, count: usize, turn: usize)
    requires
        ({
            let present = if view.seen_this_call.contains(rule) {
                view.advanced()
            } else {
                view
            };
            present.phase == Phase::Drain(turn)
        }),
        turn < view.rule_order.len(),
    ensures
        ({
            let after = view.filtered(rule, count);
            let its_turn = view.rule_order[turn as int] == rule;
            &&& view.picks(rule, count) <==> its_turn && view.backoff.stats_of(rule).decision(count)
                is Admit
            &&& view.has_room(rule, count) <==> (its_turn ==> view.backoff.stats_of(rule).has_room(
                count,
            ))
            &&& after.phase == Phase::Drain(turn)
            &&& after.started
            &&& after.rule_order == view.rule_order
            &&& its_turn ==> after.backoff == view.backoff.decided(rule, count)
            &&& !its_turn ==> after.backoff == view.backoff
            &&& after.any_collected_this_cycle == view.any_collected_this_cycle
            &&& after.seen_this_call == if view.seen_this_call.contains(rule) {
                set![rule]
            } else {
                view.seen_this_call.insert(rule)
            }
            &&& view.seeks(rule, count) <==> turn + 1 == view.rule_order.len() && !(
            after.backoff.stats.contains_key(rule) && after.backoff.stats[rule].iteration
                < after.backoff.stats[rule].banned_until)
        }),
{
    assert(Set::empty().insert(rule) =~= set![rule]);
}

impl RoundRobinView {
    /// The scheduler after calls, one after the other.
    pub open spec fn called_by(self, calls: Seq<Seq<(Seq<char>, usize)>>) -> RoundRobinView
        decreases calls.len(),
    {
        if calls.len() == 0 {
            self
        } else {
            self.called_by(calls.drop_last()).called(calls.last())
        }
    }
}

/// Whether these are calls in each of which just the rules `all` come up, each
/// once.
pub open spec fn calls_of(calls: Seq<Seq<(Seq<char>, usize)>>, all: Set<Seq<char>>) -> bool {
    forall|c: int|
        0 <= c < calls.len() ==> (#[trigger] calls[c]).len() > 0 && come_up_once(calls[c])
            && rules_of(calls[c]).to_set() == all
}

proof fn lemma_all_seen(call: Seq<(Seq<char>, usize)>, all: Set<Seq<char>>)
    requires
        rules_of(call).to_set() == all,
    ensures
        forall|i: int| 0 <= i < call.len() ==> all.contains(#[trigger] call[i].0),
{
    assert forall|i: int| 0 <= i < call.len() implies all.contains(#[trigger] call[i].0) by {
        assert(rules_of(call)[i] == call[i].0);
        assert(rules_of(call).contains(call[i].0));
    }
}

/// Behind the cache call, each further call is the drain call of one rule, in
/// order.
pub proof fn law_calls_of_a_cycle(view: RoundRobinView, calls: Seq<Seq<(Seq<char>, usize)>>)
    requires
        view.phase is Cache,
        0 < view.rule_order.len() <= usize::MAX,
        calls.len() <= view.rule_order.len(),
        calls_of(calls, view.seen_this_call),
    ensures
        ({
            let after = view.called_by(calls);
            &&& after.rule_order == view.rule_order
            &&& after.seen_this_call == view.seen_this_call
            &&& calls.len() > 0 ==> after.started && after.phase == Phase::Drain(
                (calls.len() - 1) as usize,
            )
        }),
    decreases calls.len(),
{
    if calls.len() > 0 {
        let front = calls.drop_last();
        assert forall|c: int| 0 <= c < front.len() implies (#[trigger] front[c]).len() > 0
            && come_up_once(front[c]) && rules_of(front[c]).to_set() == view.seen_this_call by {
            assert(front[c] == calls[c]);
        }
        law_calls_of_a_cycle(view, front);
        let last = calls[calls.len() - 1];
        assert(last == calls.last());
        lemma_all_seen(last, view.seen_this_call);
        law_call(view.called_by(front), last);
    }
}

/// Within a call, the phase is that of the call, also when the next rule comes
/// up.
proof fn lemma_within_call(
    view: RoundRobinView,
    call: Seq<(Seq<char>, usize)>,
    k: int,
)
    requires
        view.phase matches Phase::Drain(i) ==> i < view.rule_order.len(),
        view.rule_order.len() <= usize::MAX,
        view.started || view.advanced().phase is Drain,
        0 <= k < call.len(),
        come_up_once(call),
        forall|i: int| 0 <= i < call.len() ==> view.seen_this_call.contains(#[trigger] call[i].0),
    ensures
        ({
            let before = view.called(call.take(k));
            let present = if before.seen_this_call.contains(call[k].0) {
                before.advanced()
            } else {
                before
            };
            &&& present.phase == view.advanced().phase
            &&& before.rule_order == view.rule_order
        }),
{
    let front = call.take(k);
    if k > 0 {
        assert forall|i: int| 0 <= i < front.len() implies view.seen_this_call.contains(
            #[trigger] front[i].0,
        ) by {
            assert(front[i] == call[i]);
        }
        assert forall|i: int, j: int| 0 <= i < j < front.len() implies (#[trigger] front[i]).0 != (
        #[trigger] front[j]).0 by {
            assert(call[i].0 != call[j].0);
        }
        law_call(view, front);
        if rules_of(front).contains(call[k].0) {
            let i = choose|i: int| 0 <= i < front.len() && rules_of(front)[i] == call[k].0;
            assert(call[i].0 == call[k].0);
        }
    } else {
        assert(front =~= Seq::empty());
    }
}

/// In a whole cycle, rules are searched again in its last drain call, each rule
/// that comes up then and is not banned by it, and in no other call. `c` is the
/// call behind the cache call, counted from zero; the one behind the last drain
/// call is the cache call of the next cycle.
pub proof fn law_rules_are_searched_once_a_cycle(
    view: RoundRobinView,
    calls: Seq<Seq<(Seq<char>, usize)>>,
    c: int,
    k: int,
)
    requires
        view.phase is Cache,
        0 < view.rule_order.len() < usize::MAX,
        calls.len() == view.rule_order.len() + 1,
        calls_of(calls, view.seen_this_call),
        0 <= c < calls.len(),
        0 <= k < calls[c].len(),
    ensures
        ({
            let before = view.called_by(calls.take(c)).called(calls[c].take(k));
            let (rule, count) = calls[c][k];
            let after = before.filtered(rule, count).backoff;
            before.seeks(rule, count) <==> c + 1 == view.rule_order.len() && !(
            after.stats.contains_key(rule) && after.stats[rule].iteration
                < after.stats[rule].banned_until)
        }),
{
    let n = view.rule_order.len();
    let so_far = calls.take(c);
    let call = calls[c];
    assert forall|d: int| 0 <= d < so_far.len() implies (#[trigger] so_far[d]).len() > 0
        && come_up_once(so_far[d]) && rules_of(so_far[d]).to_set() == view.seen_this_call by {
        assert(so_far[d] == calls[d]);
    }
    law_calls_of_a_cycle(view, so_far);
    lemma_all_seen(call, view.seen_this_call);
    let start = view.called_by(so_far);
    lemma_within_call(start, call, k);
    let before = start.called(call.take(k));
    if c < n {
        assert(start.advanced().phase == Phase::Drain(c as usize));
        law_draining(before, call[k].0, call[k].1, c as usize);
    } else {
        assert(start.advanced().phase is Cache);
        law_caching(before, call[k].0, call[k].1);
    }
}

/// The scheduler when the rule at place `k` of call `c` comes up.
pub open spec fn before_rule(
    view: RoundRobinView,
    calls: Seq<Seq<(Seq<char>, usize)>>,
    c: int,
    k: int,
) -> RoundRobinView {
    view.called_by(calls.take(c)).called(calls[c].take(k))
}

/// Whether it is this rule that comes up at place `k` of call `c`, and it is to
/// be searched again.
pub open spec fn searched_at(
    view: RoundRobinView,
    calls: Seq<Seq<(Seq<char>, usize)>>,
    rule: Seq<char>,
    c: int,
    k: int,
) -> bool {
    &&& 0 <= c < calls.len()
    &&& 0 <= k < calls[c].len()
    &&& calls[c][k].0 == rule
    &&& before_rule(view, calls, c, k).seeks(rule, calls[c][k].1)
}

/// Over a whole cycle, each rule that is not banned in it is searched again
/// exactly once.
pub proof fn law_each_rule_is_searched_once_a_cycle(
    view: RoundRobinView,
    calls: Seq<Seq<(Seq<char>, usize)>>,
    rule: Seq<char>,
)
    requires
        view.phase is Cache,
        0 < view.rule_order.len() < usize::MAX,
        calls.len() == view.rule_order.len() + 1,
        calls_of(calls, view.seen_this_call),
        view.seen_this_call.contains(rule),
        forall|c: int, k: int|
            0 <= c < calls.len() && 0 <= k < calls[c].len() && calls[c][k].0 == rule ==> !(
            #[trigger] before_rule(view, calls, c, k)).filtered(rule, calls[c][k].1).backoff.bans(
                rule,
            ),
    ensures
        exists|c: int, k: int| #[trigger] searched_at(view, calls, rule, c, k),
        forall|c: int, k: int, d: int, l: int|
            #![trigger searched_at(view, calls, rule, c, k), searched_at(view, calls, rule, d, l)]
            searched_at(view, calls, rule, c, k) && searched_at(view, calls, rule, d, l) ==> c == d
                && k == l,
{
    let last = view.rule_order.len() - 1;
    let call = calls[last];
    assert(rules_of(call).to_set().contains(rule));
    let k = choose|k: int| 0 <= k < rules_of(call).len() && rules_of(call)[k] == rule;
    assert(call[k].0 == rule);
    law_rules_are_searched_once_a_cycle(view, calls, last, k);
    assert(!before_rule(view, calls, last, k).filtered(rule, call[k].1).backoff.bans(rule));
    assert(searched_at(view, calls, rule, last, k));
    assert forall|c: int, k: int, d: int, l: int|
        #![trigger searched_at(view, calls, rule, c, k), searched_at(view, calls, rule, d, l)]
        searched_at(view, calls, rule, c, k) && searched_at(
            view,
            calls,
            rule,
            d,
            l,
        ) implies c == d && k == l by {
        law_rules_are_searched_once_a_cycle(view, calls, c, k);
        law_rules_are_searched_once_a_cycle(view, calls, d, l);
        assert(calls[c][k].0 == calls[c][l].0);
        assert(come_up_once(calls[c]));
    }
}

/// The round-robin back-off scheduler.
#[derive(Debug, Clone)]
pub struct RoundRobinBackoffScheduler {
    backoff: BackOffScheduler,
    rule_order: Vec<String>,
    phase: Phase,
    seen_this_call: NameMap<()>,
    any_collected_this_cycle: bool,
    started: bool,
}

impl View for RoundRobinBackoffScheduler {
    type V = RoundRobinView;

    closed spec fn view(&self) -> RoundRobinView {
        RoundRobinView {
            backoff: self.backoff@,
            rule_order: self.rule_order@.map_values(|rule: String| rule@),
            phase: self.phase,
            seen_this_call: self.seen_this_call@.dom(),
            any_collected_this_cycle: self.any_collected_this_cycle,
            started: self.started,
        }
    }
}

impl RoundRobinBackoffScheduler {
    /// Where a scheduler can be at all.
    pub closed spec fn wf(self) -> bool {
        &&& self.backoff.wf()
        &&& self.seen_this_call.wf()
        &&& self.phase matches Phase::Drain(i) ==> i < self.rule_order@.len()
    }

    /// A scheduler before its first call.
    pub fn new(backoff: BackOffScheduler) -> (scheduler: RoundRobinBackoffScheduler)
        requires
            backoff.wf(),
        ensures
            scheduler.wf(),
            scheduler@ == RoundRobinView::fresh(backoff@),
            scheduler@.orderly(),
    {
        let scheduler = RoundRobinBackoffScheduler {
            backoff,
            rule_order: Vec::new(),
            phase: Phase::Cache,
            seen_this_call: NameMap::new(),
            any_collected_this_cycle: false,
            started: false,
        };
        assert(scheduler@ =~= RoundRobinView::fresh(backoff@));
        proof {
            law_order_has_no_rule_twice(backoff@, Seq::empty());
        }
        scheduler
    }

    /// Goes to the next call.
    pub fn advance(&mut self)
        requires
            old(self).wf(),
        ensures
            final(self).wf(),
            final(self)@ == old(self)@.advanced(),
            old(self)@.orderly() && old(self)@.started ==> final(self)@.orderly(),
    {
        let next: Phase = self.next_phase();
        if let (Phase::Drain(_), Phase::Cache) = (self.phase, next) {
            self.any_collected_this_cycle = false;
        }
        self.phase = next;
    }

    /// The phase of the next call.
    fn next_phase(&self) -> (phase: Phase)
        requires
            self.wf(),
        ensures
            phase == self@.advanced().phase,
            phase matches Phase::Drain(i) ==> i < self.rule_order@.len(),
    {
        let n: usize = self.rule_order.len();
        match self.phase {
            Phase::Cache => if n > 0 {
                Phase::Drain(0)
            } else {
                Phase::Cache
            },
            Phase::Drain(i) => if i + 1 < n {
                Phase::Drain(i + 1)
            } else {
                Phase::Cache
            },
        }
    }

    /// Notices that a rule comes up.
    fn notice(&mut self, rule: &str)
        requires
            old(self).wf(),
        ensures
            final(self).wf(),
            final(self)@ == old(self)@.noticing(rule@),
    {
        if self.seen_this_call.contains_key(rule) {
            self.advance();
            self.seen_this_call = NameMap::new();
        }
        self.seen_this_call.insert(rule.to_owned(), ());
        assert(self@ =~= old(self)@.noticing(rule@));
    }

    /// Whether the rules can be considered saturated: only in the cache call,
    /// when no match was found in this cycle, and as the back-off scheduler says.
    pub fn can_stop(&mut self, rules: &[&str], ruleset: &str) -> (stop: bool)
        requires
            old(self).wf(),
        ensures
            final(self).wf(),
            old(self)@.orderly() ==> final(self)@.orderly(),
            stop <==> old(self)@.phase is Cache && !old(self)@.any_collected_this_cycle && forall|
                i: int,
            |
                0 <= i < rules@.len() ==> !old(self)@.backoff.bans((#[trigger] rules@[i])@),
            ({
                let idle = old(self)@.phase is Cache && !old(self)@.any_collected_this_cycle;
                let stats = old(self)@.backoff.stats;
                &&& stop == (idle && shortest_ban(stats, names(rules@)) is None)
                &&& final(self)@ == if idle {
                    RoundRobinView {
                        backoff: BackOffView {
                            stats: fast_forwarded(stats, names(rules@)),
                            ..old(self)@.backoff
                        },
                        ..old(self)@
                    }
                } else {
                    old(self)@
                }
            }),
    {
        match self.phase {
            Phase::Cache => !self.any_collected_this_cycle && self.backoff.can_stop(rules, ruleset),
            Phase::Drain(_) => false,
        }
    }

    /// Whether the numbers of the decision on a rule's matches fit in a word.
    pub fn has_room(&self, rule: &str, match_size: usize) -> (room: bool)
        requires
            self.wf(),
        ensures
            room == self@.has_room(rule@, match_size),
    {
        let n: usize = self.rule_order.len();
        let phase: Phase = if self.seen_this_call.contains_key(rule) {
            self.next_phase()
        } else {
            self.phase
        };
        match phase {
            Phase::Cache => true,
            Phase::Drain(i) => {
                if i < n && *self.rule_order[i].as_str() == *rule {
                    self.backoff.has_room(rule, match_size)
                } else {
                    true
                }
            },
        }
    }

    /// The same as `filter_matches`, where the numbers of the decision fit in a
    /// word. Where they do not, nothing is decided and nothing changes.
    pub fn try_filter_matches(
        &mut self,
        rule: &str,
        ruleset: &str,
        matches: &mut Matches,
    ) -> (seek: Option<bool>)
        requires
            old(self).wf(),
        ensures
            final(self).wf(),
            match seek {
                Some(seek) => {
                    let count = match_count(*old(matches));
                    &&& old(self)@.has_room(rule@, count)
                    &&& final(self)@ == old(self)@.filtered(rule@, count)
                    &&& old(self)@.orderly() ==> final(self)@.orderly()
                    &&& seek == old(self)@.seeks(rule@, count)
                    &&& match_count(*final(matches)) == count
                    &&& picked_matches(*final(matches)) == if old(self)@.picks(rule@, count) {
                        every_match(count)
                    } else {
                        picked_matches(*old(matches))
                    }
                },
                None => {
                    &&& !old(self)@.has_room(rule@, match_count(*old(matches)))
                    &&& *final(self) == *old(self)
                    &&& *final(matches) == *old(matches)
                },
            },
    {
        if self.has_room(rule, match_size(matches)) {
            Some(self.filter_matches(rule, ruleset, matches))
        } else {
            None
        }
    }

    /// Puts the matches of a rule to the scheduler. Returns whether the rule is
    /// to be searched again before its next turn.
    pub fn filter_matches(&mut self, rule: &str, ruleset: &str, matches: &mut Matches) -> (seek:
        bool)
        requires
            old(self).wf(),
            old(self)@.has_room(rule@, match_count(*old(matches))),
        ensures
            final(self).wf(),
            final(self)@ == old(self)@.filtered(rule@, match_count(*old(matches))),
            old(self)@.orderly() ==> final(self)@.orderly(),
            seek == old(self)@.seeks(rule@, match_count(*old(matches))),
            match_count(*final(matches)) == match_count(*old(matches)),
            picked_matches(*final(matches)) == if old(self)@.picks(
                rule@,
                match_count(*old(matches)),
            ) {
                every_match(match_count(*old(matches)))
            } else {
                picked_matches(*old(matches))
            },
    {
        proof {
            if self@.orderly() {
                law_stays_orderly(self@, rule@, match_count(*matches));
            }
        }
        self.notice(rule);
        match self.phase {
            Phase::Cache => {
                if !self.started {
                    self.rule_order.push(rule.to_owned());
                }
                if match_size(matches) > 0 {
                    self.any_collected_this_cycle = true;
                }
                assert(self@ =~= old(self)@.filtered(rule@, match_count(*old(matches))));
                false
            },
            Phase::Drain(i) => {
                self.started = true;
                let n: usize = self.rule_order.len();
                let is_last: bool = i + 1 == n;
                if *self.rule_order[i].as_str() == *rule {
                    let _: bool = self.backoff.filter_matches(rule, ruleset, matches);
                }
                is_last && !self.backoff.is_banned(rule)
            },
        }
    }
}

} // verus!
