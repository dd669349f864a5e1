use egglog::scheduler::{Matches, Scheduler, SchedulerId};
use egglog::{CommandOutput, EGraph};

use egglog_experimental::expr::{Expr, Literal};
use egglog_experimental::schedulers::back_off::BackOffScheduler;
use egglog_experimental::schedulers::round_robin::RoundRobinBackoffScheduler;
use egglog_experimental::schedulers::tags::new_round_robin_back_off_scheduler;

#[derive(Clone)]
struct BackOff(BackOffScheduler);

impl Scheduler for BackOff {
    fn can_stop(&mut self, rules: &[&str], ruleset: &str) -> bool {
        self.0.can_stop(rules, ruleset)
    }

    fn filter_matches(&mut self, rule: &str, ruleset: &str, matches: &mut Matches) -> bool {
        self.0.try_filter_matches(rule, ruleset, matches).unwrap()
    }
}

#[derive(Clone)]
struct RoundRobin(RoundRobinBackoffScheduler);

impl Scheduler for RoundRobin {
    fn can_stop(&mut self, rules: &[&str], ruleset: &str) -> bool {
        self.0.can_stop(rules, ruleset)
    }

    fn filter_matches(&mut self, rule: &str, ruleset: &str, matches: &mut Matches) -> bool {
        self.0.try_filter_matches(rule, ruleset, matches).unwrap()
    }
}

/// A scheduler that has run out of iterations.
#[derive(Clone)]
struct Full(BackOffScheduler);

impl Scheduler for Full {
    fn filter_matches(&mut self, rule: &str, ruleset: &str, matches: &mut Matches) -> bool {
        self.0.get_stats(rule.to_string()).iteration = usize::MAX;
        assert!(self.0.try_filter_matches(rule, ruleset, matches).is_none());
        false
    }
}

/// Three edges, and two rules that copy each edge.
fn graph() -> EGraph {
    let mut egraph = EGraph::default();
    egraph
        .parse_and_run_program(
            None,
            "(relation edge (i64 i64))
             (relation first (i64 i64))
             (relation second (i64 i64))
             (ruleset rules)
             (rule ((edge x y)) ((first x y)) :ruleset rules :name \"one\")
             (rule ((edge x y)) ((second x y)) :ruleset rules :name \"two\")
             (edge 1 2)
             (edge 2 3)
             (edge 3 4)",
        )
        .unwrap();
    egraph
}

fn size(egraph: &mut EGraph, relation: &str) -> usize {
    let outputs = egraph
        .parse_and_run_program(None, &format!("(print-size {relation})"))
        .unwrap();
    match &outputs[0] {
        CommandOutput::PrintFunctionSize(size) => *size,
        other => panic!("unexpected {other:?}"),
    }
}

fn sizes(egraph: &mut EGraph) -> (usize, usize) {
    (size(egraph, "first"), size(egraph, "second"))
}

fn step(egraph: &mut EGraph, scheduler: SchedulerId) -> bool {
    egraph
        .step_rules_with_scheduler(scheduler, "rules")
        .unwrap()
        .updated
}

#[test]
fn matches_within_the_limit_are_all_applied() {
    let mut egraph = graph();
    let scheduler = egraph.add_scheduler(Box::new(BackOff(BackOffScheduler::new(3, 5))));
    assert!(step(&mut egraph, scheduler));
    assert_eq!(sizes(&mut egraph), (3, 3));
}

#[test]
fn matches_beyond_the_limit_wait_for_the_ban_to_end() {
    let mut egraph = graph();
    let scheduler = egraph.add_scheduler(Box::new(BackOff(BackOffScheduler::new(2, 5))));
    // Nothing is applied, yet the rules are not saturated.
    assert!(step(&mut egraph, scheduler));
    assert_eq!(sizes(&mut egraph), (0, 0));
    // The ban ended at once, and the limit has doubled.
    assert!(step(&mut egraph, scheduler));
    assert_eq!(sizes(&mut egraph), (3, 3));
}

#[test]
fn round_robin_applies_one_rule_in_each_call() {
    let mut egraph = graph();
    let scheduler = RoundRobinBackoffScheduler::new(BackOffScheduler::new(3, 5));
    let scheduler = egraph.add_scheduler(Box::new(RoundRobin(scheduler)));
    assert!(step(&mut egraph, scheduler));
    assert_eq!(sizes(&mut egraph), (0, 0));
    assert!(step(&mut egraph, scheduler));
    let after_one = sizes(&mut egraph);
    assert!(after_one == (3, 0) || after_one == (0, 3));
    assert!(step(&mut egraph, scheduler));
    assert_eq!(sizes(&mut egraph), (3, 3));
}

#[test]
fn round_robin_comes_to_an_end() {
    let mut egraph = graph();
    let args = [
        Expr::Var(0, ":match-limit".to_string()),
        Expr::Lit(0, Literal::Int(2)),
    ];
    let scheduler = new_round_robin_back_off_scheduler(&args);
    let scheduler = egraph.add_scheduler(Box::new(RoundRobin(scheduler)));
    let mut calls = 0;
    while step(&mut egraph, scheduler) {
        calls += 1;
        assert!(calls < 100);
    }
    assert_eq!(sizes(&mut egraph), (3, 3));
}

#[test]
fn a_fresh_round_robin_scheduler_stays_in_its_cache_call() {
    let mut scheduler = RoundRobinBackoffScheduler::new(BackOffScheduler::new(3, 5));
    assert!(scheduler.has_room("one", 10));
    scheduler.advance();
    assert!(scheduler.can_stop(&["one"], "rules"));
}

#[test]
fn nothing_is_decided_where_the_numbers_do_not_fit() {
    let mut egraph = graph();
    let scheduler = egraph.add_scheduler(Box::new(Full(BackOffScheduler::new(3, 5))));
    assert!(!step(&mut egraph, scheduler));
    assert_eq!(sizes(&mut egraph), (0, 0));
}
