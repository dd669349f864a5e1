use egglog_experimental::expr::{Expr, Literal};
use egglog_experimental::schedulers::back_off::BackOffDecision;
use egglog_experimental::schedulers::tags::{
    check_back_off_args, check_tags, new_back_off_scheduler, parse_tags, usize_tag,
};

fn var(name: &str) -> Expr {
    Expr::Var(0, name.to_string())
}

fn number(n: i64) -> Expr {
    Expr::Lit(0, Literal::Int(n))
}

#[test]
fn tags_are_names_and_literals_by_turns() {
    assert!(check_tags(&[]));
    assert!(check_tags(&[var(":a"), number(1), var(":b"), Expr::Lit(0, Literal::Unit)]));
    assert!(!check_tags(&[var(":a")]));
    assert!(!check_tags(&[number(1), var(":a")]));
    assert!(!check_tags(&[var(":a"), var(":b")]));
    assert!(!check_tags(&[var(":a"), number(1), var(":a"), number(2)]));
}

#[test]
fn tags_read_back() {
    let tags = parse_tags(&[
        var(":a"),
        number(1),
        var(":b"),
        Expr::Lit(0, Literal::String("x".to_string())),
    ]);
    assert!(matches!(tags.get(":a"), Some(Literal::Int(1))));
    assert!(matches!(tags.get(":b"), Some(Literal::String(s)) if s == "x"));
    assert!(tags.get(":c").is_none());
}

#[test]
fn numbers_among_the_tags() {
    let tags = parse_tags(&[var(":a"), number(12)]);
    assert_eq!(usize_tag(&tags, ":a"), Some(12));
    assert_eq!(usize_tag(&tags, ":b"), None);
    let tags = parse_tags(&[var(":a"), number(-1)]);
    assert_eq!(usize_tag(&tags, ":a"), Some(usize::MAX));
}

#[test]
fn arguments_of_the_back_off_scheduler() {
    assert!(check_back_off_args(&[]));
    assert!(check_back_off_args(&[var(":match-limit"), number(3), var(":other"), Expr::Lit(0, Literal::Unit)]));
    assert!(!check_back_off_args(&[var(":match-limit"), Expr::Lit(0, Literal::Unit)]));
    assert!(!check_back_off_args(&[var(":ban-length"), Expr::Lit(0, Literal::Bool(true))]));
    assert!(!check_back_off_args(&[var(":ban-length")]));
}

#[test]
fn the_back_off_scheduler_has_defaults() {
    let mut scheduler = new_back_off_scheduler(&[]);
    assert_eq!(scheduler.decide("r", 1000), BackOffDecision::Admit);
    assert_eq!(scheduler.decide("r", 1001), BackOffDecision::Ban);
    assert_eq!(scheduler.get_stats("r".to_string()).banned_until, 7);
}

#[test]
fn the_back_off_scheduler_takes_its_tags() {
    let mut scheduler =
        new_back_off_scheduler(&[var(":ban-length"), number(2), var(":match-limit"), number(3)]);
    assert_eq!(scheduler.decide("r", 3), BackOffDecision::Admit);
    assert_eq!(scheduler.decide("r", 4), BackOffDecision::Ban);
    assert_eq!(scheduler.get_stats("r".to_string()).banned_until, 4);
}
