use egglog_experimental::schedulers::back_off::{BackOffDecision, BackOffScheduler};

#[test]
fn matches_up_to_the_limit_are_admitted() {
    let mut scheduler = BackOffScheduler::new(10, 5);
    assert_eq!(scheduler.decide("r", 10), BackOffDecision::Admit);
    assert!(!scheduler.is_banned("r"));
    let stats = scheduler.get_stats("r".to_string());
    assert_eq!(stats.iteration, 1);
    assert_eq!(stats.times_applied, 1);
    assert_eq!(stats.times_banned, 0);
}

#[test]
fn a_rule_that_produces_too_much_is_banned_for_a_while() {
    let mut scheduler = BackOffScheduler::new(10, 3);
    assert_eq!(scheduler.decide("r", 11), BackOffDecision::Ban);
    assert!(scheduler.is_banned("r"));
    assert_eq!(scheduler.get_stats("r".to_string()).banned_until, 4);
    // Iterations two and three, whatever the rule produces.
    assert_eq!(scheduler.decide("r", 0), BackOffDecision::Ban);
    assert_eq!(scheduler.decide("r", 1000), BackOffDecision::Ban);
    assert!(scheduler.is_banned("r"));
    assert_eq!(scheduler.decide("r", 11), BackOffDecision::Admit);
    assert!(!scheduler.is_banned("r"));
}

#[test]
fn limit_and_ban_double_with_each_ban() {
    let mut scheduler = BackOffScheduler::new(10, 1);
    assert_eq!(scheduler.decide("r", 11), BackOffDecision::Ban);
    assert_eq!(scheduler.get_stats("r".to_string()).banned_until, 2);
    assert_eq!(scheduler.decide("r", 20), BackOffDecision::Admit);
    assert_eq!(scheduler.decide("r", 21), BackOffDecision::Ban);
    assert_eq!(scheduler.get_stats("r".to_string()).banned_until, 5);
    assert_eq!(scheduler.get_stats("r".to_string()).times_banned, 2);
    assert_eq!(scheduler.decide("r", 0), BackOffDecision::Ban);
    assert_eq!(scheduler.decide("r", 40), BackOffDecision::Admit);
}

#[test]
fn rules_are_banned_each_for_itself() {
    let mut scheduler = BackOffScheduler::new(1, 5);
    assert_eq!(scheduler.decide("a", 2), BackOffDecision::Ban);
    assert_eq!(scheduler.decide("b", 1), BackOffDecision::Admit);
    assert!(scheduler.is_banned("a"));
    assert!(!scheduler.is_banned("b"));
    assert!(!scheduler.is_banned("c"));
}

#[test]
fn stats_can_be_changed_in_place() {
    let mut scheduler = BackOffScheduler::new(1, 5);
    scheduler.get_stats("a".to_string()).match_limit = 3;
    assert_eq!(scheduler.decide("a", 3), BackOffDecision::Admit);
    assert_eq!(scheduler.decide("b", 3), BackOffDecision::Ban);
}

#[test]
fn rules_can_stop_unless_one_is_banned() {
    let mut scheduler = BackOffScheduler::new(1, 5);
    assert!(scheduler.can_stop(&["a", "b"], ""));
    scheduler.decide("a", 1);
    assert!(scheduler.can_stop(&["a", "b"], ""));
    scheduler.decide("b", 2);
    assert!(!scheduler.can_stop(&["a", "b"], ""));
}

#[test]
fn the_shortest_ban_ends_at_once() {
    let mut scheduler = BackOffScheduler::new(1, 4);
    // The ban of `a` lasts for three iterations yet, the others for four.
    scheduler.decide("a", 2);
    scheduler.decide("a", 2);
    scheduler.decide("b", 2);
    scheduler.decide("other", 2);
    assert!(!scheduler.can_stop(&["a", "b"], ""));
    assert!(!scheduler.is_banned("a"));
    assert!(scheduler.is_banned("b"));
    assert_eq!(scheduler.get_stats("b".to_string()).banned_until, 2);
    assert!(scheduler.is_banned("other"));
    assert!(!scheduler.can_stop(&["a", "b"], ""));
    assert!(!scheduler.is_banned("b"));
    assert!(scheduler.can_stop(&["a", "b"], ""));
}

#[test]
fn rules_that_are_not_banned_are_forgotten() {
    let mut scheduler = BackOffScheduler::new(5, 4);
    scheduler.decide("a", 1);
    scheduler.decide("b", 1);
    assert!(scheduler.can_stop(&["a"], ""));
    assert_eq!(scheduler.get_stats("a".to_string()).iteration, 0);
    assert_eq!(scheduler.get_stats("b".to_string()).iteration, 1);
}

#[test]
fn the_same_rule_twice_counts_once() {
    let mut scheduler = BackOffScheduler::new(1, 4);
    scheduler.decide("a", 2);
    assert!(!scheduler.can_stop(&["a", "a"], ""));
    assert!(!scheduler.is_banned("a"));
}

#[test]
fn there_is_room_for_a_decision_while_its_numbers_fit() {
    let mut scheduler = BackOffScheduler::new(1, 4);
    assert!(scheduler.has_room("r", 100));
    scheduler.get_stats("r".to_string()).iteration = usize::MAX - 3;
    assert!(scheduler.has_room("r", 1));
    assert!(!scheduler.has_room("r", 2));
    scheduler.get_stats("r".to_string()).iteration = usize::MAX;
    assert!(!scheduler.has_room("r", 1));
    let stats = scheduler.get_stats("s".to_string());
    stats.iteration = usize::BITS as usize;
    stats.times_banned = usize::BITS as usize;
    assert!(!scheduler.has_room("s", 1));
}

#[test]
fn a_ban_of_no_length_is_over_at_once() {
    let mut scheduler = BackOffScheduler::new(1, 0);
    assert_eq!(scheduler.decide("r", 2), BackOffDecision::Ban);
    assert!(!scheduler.is_banned("r"));
    assert_eq!(scheduler.decide("r", 2), BackOffDecision::Admit);
}

#[test]
fn bans_come_to_an_end() {
    let mut scheduler = BackOffScheduler::new(1, 4);
    let rules = ["a", "b", "c"];
    for (i, rule) in rules.iter().enumerate() {
        for _ in 0..=i {
            scheduler.decide(rule, 2);
        }
    }
    for _ in rules {
        assert!(!scheduler.can_stop(&rules, ""));
    }
    assert!(scheduler.can_stop(&rules, ""));
}
