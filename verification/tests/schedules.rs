use egglog_experimental::expr::{Expr, Literal};
use egglog_experimental::schedule::command::RunExtendedSchedule;
use egglog_experimental::schedule::machine::{Fault, ScheduleState, Status};
use egglog_experimental::schedule::semantics::{Answer, RunKind};

fn var(name: &str) -> Expr {
    Expr::Var(0, name.to_string())
}

fn number(n: i64) -> Expr {
    Expr::Lit(0, Literal::Int(n))
}

fn call(head: &str, args: Vec<Expr>) -> Expr {
    Expr::Call(0, head.to_string(), args)
}

fn call_at(at: usize, head: &str, args: Vec<Expr>) -> Expr {
    Expr::Call(at, head.to_string(), args)
}

fn run(ruleset: &str) -> Expr {
    call("run", vec![var(ruleset)])
}

fn ran(updated: bool, report: usize) -> Answer {
    Answer::Ran { updated, report }
}

/// What the state asks for, in words.
fn asked(state: &ScheduleState) -> String {
    match state.status() {
        Status::Next(_) => "next".to_string(),
        Status::Run { kind, ruleset } => match kind {
            RunKind::Ruleset => format!("ruleset {ruleset}"),
            RunKind::Step => format!("step {ruleset}"),
            RunKind::StepWith(id) => format!("step {ruleset} with {id}"),
        },
        Status::Check { condition, .. } => format!("check {}", condition.position()),
        Status::Build { builder, args, .. } => format!("build {builder} from {}", args.len()),
        Status::Finished(report) => format!("finished {} {:?}", report.updated, report.parts),
        Status::Failed(fault) => format!("failed {fault:?}"),
        Status::Stuck(_) => "stuck".to_string(),
    }
}

/// Answers the state's requests one after the other, and lists them with the
/// end of the schedule.
fn trace(args: &[Expr], answers: &[Answer]) -> Vec<String> {
    let mut state = RunExtendedSchedule.start(args);
    let mut steps = vec![asked(&state)];
    for answer in answers {
        state.answer(*answer);
        state.advance();
        steps.push(asked(&state));
    }
    steps
}

#[test]
fn an_empty_schedule_is_finished_at_once() {
    assert_eq!(trace(&[], &[]), ["finished false []"]);
}

#[test]
fn a_bare_symbol_runs_its_ruleset() {
    assert_eq!(
        trace(&[var("rules")], &[ran(true, 7)]),
        ["ruleset rules", "finished true [7]"]
    );
}

#[test]
fn run_without_arguments_steps_the_default_ruleset() {
    assert_eq!(
        trace(&[call("run", vec![])], &[ran(false, 3)]),
        ["step ", "finished false [3]"]
    );
}

#[test]
fn schedules_are_run_in_order_and_their_reports_united() {
    let args = [run("a"), run("b"), run("c")];
    assert_eq!(
        trace(&args, &[ran(false, 1), ran(true, 2), ran(false, 3)]),
        ["step a", "step b", "step c", "finished true [1, 2, 3]"]
    );
}

#[test]
fn until_holds_and_nothing_is_run() {
    let condition = call_at(9, "goal", vec![]);
    let args = [call("run", vec![var("a"), var(":until"), condition])];
    assert_eq!(
        trace(&args, &[Answer::Checked { holds: true }]),
        ["check 9", "finished false []"]
    );
}

#[test]
fn until_does_not_hold_and_the_rules_are_run() {
    let condition = call_at(9, "goal", vec![]);
    let args = [call("run", vec![var(":until"), condition])];
    assert_eq!(
        trace(&args, &[Answer::Checked { holds: false }, ran(true, 4)]),
        ["check 9", "step ", "finished true [4]"]
    );
}

#[test]
fn saturate_runs_until_a_round_updates_nothing() {
    let args = [call("saturate", vec![run("a"), run("b")])];
    let answers = [
        ran(true, 0),
        ran(false, 1),
        ran(false, 2),
        ran(true, 3),
        ran(false, 4),
        ran(false, 5),
    ];
    assert_eq!(
        trace(&args, &answers),
        [
            "step a",
            "step b",
            "step a",
            "step b",
            "step a",
            "step b",
            "finished true [0, 1, 2, 3]"
        ]
    );
}

#[test]
fn saturate_drops_the_report_of_its_last_round() {
    let args = [call("saturate", vec![run("a")])];
    assert_eq!(
        trace(&args, &[ran(false, 5)]),
        ["step a", "finished false []"]
    );
}

#[test]
fn repeat_runs_so_many_rounds() {
    let args = [call("repeat", vec![number(2), run("a"), run("b")])];
    let answers = [ran(false, 0), ran(false, 1), ran(false, 2), ran(true, 3)];
    assert_eq!(
        trace(&args, &answers),
        ["step a", "step b", "step a", "step b", "finished true [0, 1, 2, 3]"]
    );
}

#[test]
fn repeat_of_nothing_and_less_than_nothing() {
    for n in [0, -3] {
        let args = [call("repeat", vec![number(n), run("a")])];
        assert_eq!(trace(&args, &[]), ["finished false []"]);
    }
}

#[test]
fn repeat_of_an_empty_body_ends() {
    let args = [call("repeat", vec![number(1000)]), run("a")];
    assert_eq!(
        trace(&args, &[ran(false, 1)]),
        ["step a", "finished false [1]"]
    );
}

#[test]
fn repeat_needs_a_number() {
    for args in [vec![], vec![var("x")], vec![Expr::Lit(0, Literal::Bool(true))]] {
        assert_eq!(
            trace(&[call_at(4, "repeat", args)], &[]),
            ["failed Invalid { at: 4 }"]
        );
    }
}

#[test]
fn a_scheduler_is_built_and_used() {
    let args = [
        call(
            "let-scheduler",
            vec![var("bo"), call("back-off", vec![var(":ban-length"), number(2)])],
        ),
        call("run-with", vec![var("bo"), var("rules")]),
    ];
    assert_eq!(
        trace(&args, &[Answer::Built { scheduler: 11 }, ran(true, 0)]),
        ["build back-off from 2", "step rules with 11", "finished true [0]"]
    );
}

#[test]
fn run_with_takes_a_condition() {
    let args = [
        call("let-scheduler", vec![var("bo"), call("back-off", vec![])]),
        call(
            "run-with",
            vec![var("bo"), var("rules"), var(":until"), call_at(6, "goal", vec![])],
        ),
    ];
    assert_eq!(
        trace(
            &args,
            &[
                Answer::Built { scheduler: 1 },
                Answer::Checked { holds: false },
                ran(false, 0)
            ]
        ),
        ["build back-off from 0", "check 6", "step rules with 1", "finished false [0]"]
    );
}

#[test]
fn schedulers_go_out_of_scope_with_their_sequence() {
    let define = || call_at(2, "let-scheduler", vec![var("s"), call("back-off", vec![])]);
    let args = [
        call("seq", vec![define(), call("run-with", vec![var("s")])]),
        define(),
        call("run-with", vec![var("s")]),
    ];
    let answers = [
        Answer::Built { scheduler: 0 },
        ran(false, 0),
        Answer::Built { scheduler: 1 },
        ran(false, 1),
    ];
    assert_eq!(
        trace(&args, &answers),
        [
            "build back-off from 0",
            "step  with 0",
            "build back-off from 0",
            "step  with 1",
            "finished false [0, 1]"
        ]
    );
}

#[test]
fn each_round_builds_its_own_scheduler() {
    let args = [call(
        "repeat",
        vec![
            number(2),
            call("let-scheduler", vec![var("s"), call("back-off", vec![])]),
        ],
    )];
    let answers = [Answer::Built { scheduler: 0 }, Answer::Built { scheduler: 1 }];
    assert_eq!(
        trace(&args, &answers),
        ["build back-off from 0", "build back-off from 0", "finished false []"]
    );
}

#[test]
fn a_scheduler_cannot_be_defined_twice() {
    let define = |at| call_at(at, "let-scheduler", vec![var("s"), call("back-off", vec![])]);
    let args = [define(1), call("seq", vec![define(8)])];
    assert_eq!(
        trace(&args, &[Answer::Built { scheduler: 0 }]),
        ["build back-off from 0", "failed Duplicate { at: 8, name: \"s\" }"]
    );
}

#[test]
fn what_is_no_schedule_is_invalid() {
    assert_eq!(
        trace(&[Expr::Lit(3, Literal::Int(1))], &[]),
        ["failed Invalid { at: 3 }"]
    );
    assert_eq!(
        trace(&[call_at(5, "walk", vec![])], &[]),
        ["failed Invalid { at: 5 }"]
    );
    assert_eq!(
        trace(&[call_at(6, "let-scheduler", vec![var("s")])], &[]),
        ["failed Invalid { at: 6 }"]
    );
    assert_eq!(
        trace(&[call_at(7, "run", vec![var("a"), var("b")])], &[]),
        ["failed Invalid { at: 7 }"]
    );
    assert_eq!(
        trace(&[call_at(8, "run-with", vec![number(1)])], &[]),
        ["failed Invalid { at: 8 }"]
    );
}

#[test]
fn until_needs_a_single_condition() {
    let args = [call_at(7, "run", vec![var(":until")])];
    assert_eq!(trace(&args, &[]), ["failed Invalid { at: 7 }"]);
    let args = [call_at(7, "run", vec![var("a"), var(":until"), var("b"), var("c")])];
    assert_eq!(trace(&args, &[]), ["failed Invalid { at: 7 }"]);
}

#[test]
fn a_schedule_without_meaning_is_stuck() {
    assert_eq!(trace(&[call("run-with", vec![])], &[]), ["stuck"]);
    assert_eq!(trace(&[call("run-with", vec![var("s")])], &[]), ["stuck"]);
    assert_eq!(trace(&[call("run", vec![number(1)])], &[]), ["stuck"]);
}

#[test]
fn an_error_of_the_engine_ends_the_schedule() {
    let args = [call("saturate", vec![run("a")]), run("b")];
    assert_eq!(
        trace(&args, &[ran(true, 0), Answer::Failed]),
        ["step a", "step a", "failed Engine"]
    );
}

#[test]
fn an_expression_gives_its_position() {
    assert_eq!(Expr::Var(4, "a".to_string()).position(), 4);
    assert_eq!(call_at(5, "a", vec![]).position(), 5);
    assert_eq!(Expr::Lit(6, Literal::Unit).position(), 6);
}

#[test]
fn faults_say_what_is_wrong() {
    assert_eq!(
        Fault::Invalid { at: 3 }.complaint(),
        Some((3, "Invalid schedule".to_string()))
    );
    assert_eq!(
        Fault::Duplicate { at: 4, name: "bo".to_string() }.complaint(),
        Some((4, "Scheduler bo already exists".to_string()))
    );
    assert_eq!(Fault::Engine.complaint(), None);
}

#[test]
fn a_finished_schedule_stays_finished() {
    let args = [run("a")];
    let mut state = RunExtendedSchedule.start(&args);
    state.answer(ran(true, 0));
    state.advance();
    assert_eq!(asked(&state), "finished true [0]");
    state.advance();
    assert_eq!(asked(&state), "finished true [0]");
}

/// The names of the schedulers in scope.
fn in_scope<'a>(state: &'a ScheduleState) -> Vec<&'a str> {
    state.schedulers().iter().map(|(name, _)| name.as_str()).collect()
}

#[test]
fn an_invalid_schedule_in_a_block_leaves_no_scheduler_of_the_block() {
    let args = [call(
        "seq",
        vec![
            call("let-scheduler", vec![var("bo"), call("back-off", vec![])]),
            Expr::Lit(9, Literal::Int(7)),
        ],
    )];
    let mut state = RunExtendedSchedule.start(&args);
    state.answer(Answer::Built { scheduler: 0 });
    assert_eq!(in_scope(&state), ["bo"]);
    state.advance();
    assert_eq!(asked(&state), "failed Invalid { at: 9 }");
    assert!(state.schedulers().is_empty());
}

#[test]
fn a_name_that_is_taken_leaves_the_outer_scheduler_only() {
    let define = |at, name: &str| {
        call_at(at, "let-scheduler", vec![var(name), call("back-off", vec![])])
    };
    let args = [
        define(1, "bo"),
        call("seq", vec![define(2, "inner"), call("repeat", vec![number(3), define(8, "bo")])]),
    ];
    let mut state = RunExtendedSchedule.start(&args);
    state.answer(Answer::Built { scheduler: 0 });
    state.advance();
    state.answer(Answer::Built { scheduler: 1 });
    assert_eq!(in_scope(&state), ["bo", "inner"]);
    state.advance();
    assert_eq!(asked(&state), "failed Duplicate { at: 8, name: \"bo\" }");
    assert_eq!(in_scope(&state), ["bo"]);
}

#[test]
fn an_invalid_schedule_outside_of_blocks_changes_no_scheduler() {
    let args = [
        call("let-scheduler", vec![var("bo"), call("back-off", vec![])]),
        Expr::Lit(4, Literal::Unit),
    ];
    let mut state = RunExtendedSchedule.start(&args);
    state.answer(Answer::Built { scheduler: 5 });
    state.advance();
    assert_eq!(asked(&state), "failed Invalid { at: 4 }");
    assert_eq!(state.schedulers(), &vec![("bo".to_string(), 5)]);
}

#[test]
fn an_error_of_the_engine_closes_the_blocks() {
    let args = [
        call("let-scheduler", vec![var("outer"), call("back-off", vec![])]),
        call(
            "saturate",
            vec![
                call("let-scheduler", vec![var("inner"), call("back-off", vec![])]),
                call("run-with", vec![var("inner")]),
            ],
        ),
    ];
    let mut state = RunExtendedSchedule.start(&args);
    for answer in [Answer::Built { scheduler: 0 }, Answer::Built { scheduler: 1 }] {
        state.answer(answer);
        state.advance();
    }
    assert_eq!(in_scope(&state), ["outer", "inner"]);
    state.answer(Answer::Failed);
    assert_eq!(asked(&state), "failed Engine");
    assert_eq!(in_scope(&state), ["outer"]);
}

#[test]
fn schedulers_outside_of_blocks_stay_in_scope_to_the_end() {
    let args = [
        call("let-scheduler", vec![var("outer"), call("back-off", vec![])]),
        call("seq", vec![call("let-scheduler", vec![var("inner"), call("back-off", vec![])])]),
    ];
    let mut state = RunExtendedSchedule.start(&args);
    for answer in [Answer::Built { scheduler: 0 }, Answer::Built { scheduler: 1 }] {
        state.answer(answer);
        state.advance();
    }
    assert_eq!(asked(&state), "finished false []");
    assert_eq!(in_scope(&state), ["outer"]);
}
