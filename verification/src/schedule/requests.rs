//! What each form of a schedule asks for, and what the answers make of it.

use vstd::prelude::*;

use crate::expr::{Expr, Literal};
use crate::schedule::laws::law_eval_all_keeps_books;
use crate::schedule::machine::{
    lemma_fault, scope_of, status_outcome, Fault, StateView, Status, StatusView,
};
use crate::schedule::runs::{
    adds_up, comes_of, in_turn, law_one_after_the_other, scope_after, Stretch,
};
use crate::schedule::semantics::{
    eval, eval_all, in_scope, no_report, repeat, run_schedule, saturate, scheduler_of, Answer, Ask,
    FaultView, Outcome, ReportView, RunKind, Scope, Verdict,
};

verus! {

/// Whether an expression is a call of this head, at this position, with these
/// arguments.
pub open spec fn is_call(expr: Expr, at: usize, head: Seq<char>, args: Seq<Expr>) -> bool {
    expr matches Expr::Call(own_at, own_head, own_args) && own_at == at && own_head@ == head
        && own_args@ == args
}

/// The heads of schedules are all different.
proof fn lemma_heads_differ()
    ensures
        "let-scheduler"@.len() == 13,
        "run"@.len() == 3,
        "run"@[0] == 'r',
        "run-with"@.len() == 8,
        "run-with"@[0] == 'r',
        "saturate"@.len() == 8,
        "saturate"@[0] == 's',
        "seq"@.len() == 3,
        "seq"@[0] == 's',
        "repeat"@.len() == 6,
{
    reveal_strlit("let-scheduler");
    reveal_strlit("run");
    reveal_strlit("run-with");
    reveal_strlit("saturate");
    reveal_strlit("seq");
    reveal_strlit("repeat");
}

/// The scheduler of a name is the one that was defined last under that name,
/// whatever others are in scope; there is none just if none is defined.
pub proof fn law_scheduler_of_name(scope: Scope, name: Seq<char>)
    ensures
        match scheduler_of(scope, name) {
            Some(id) => exists|i: int|
                0 <= i < scope.len() && #[trigger] scope[i] == (name, id) && forall|j: int|
                    i < j < scope.len() ==> (#[trigger] scope[j]).0 != name,
            None => forall|i: int| 0 <= i < scope.len() ==> (#[trigger] scope[i]).0 != name,
        },
        in_scope(scope, name) <==> exists|i: int|
            0 <= i < scope.len() && (#[trigger] scope[i]).0 == name,
    decreases scope.len(),
{
    if scope.len() > 0 {
        let front = scope.drop_last();
        law_scheduler_of_name(front, name);
        assert(scope.last() == scope[scope.len() - 1]);
        if scope.last().0 == name {
            assert(scope[scope.len() - 1] == (name, scope.last().1));
        } else {
            match scheduler_of(front, name) {
                Some(id) => {
                    let i = choose|i: int|
                        0 <= i < front.len() && #[trigger] front[i] == (name, id) && forall|j: int|
                            i < j < front.len() ==> (#[trigger] front[j]).0 != name;
                    assert(scope[i] == (name, id));
                    assert forall|j: int| i < j < scope.len() implies (#[trigger] scope[j]).0
                        != name by {
                        if j < front.len() {
                            assert(front[j].0 != name);
                        }
                    }
                },
                None => {
                    assert forall|i: int| 0 <= i < scope.len() implies (#[trigger] scope[i]).0
                        != name by {
                        if i < front.len() {
                            assert(front[i].0 != name);
                        }
                    }
                },
            }
        }
    }
}

/// Whether rules are to be run, and what comes of that: without an answer, they
/// are asked for; the report that the engine gives is the only one; an error
/// ends the schedule.
pub open spec fn runs_rules(
    outcome: Outcome,
    kind: RunKind,
    ruleset: Seq<char>,
    scope: Scope,
    answers: Seq<Answer>,
) -> bool {
    if answers.len() == 0 {
        outcome == Outcome::Ask(Ask::Run(kind, ruleset))
    } else {
        match answers[0] {
            Answer::Ran { updated, report } => outcome matches Outcome::Done {
                scope: after,
                report: own,
                used,
            } && after == scope && own.updated == updated && own.parts == seq![report] && used == 1,
            Answer::Failed => outcome == Outcome::Fault(FaultView::Engine, scope),
            _ => outcome is Stuck,
        }
    }
}

/// Whether rules are to be run unless a condition holds, and what comes of that:
/// the condition is asked for first; if it holds, nothing more is.
pub open spec fn runs_rules_unless(
    outcome: Outcome,
    condition: Expr,
    kind: RunKind,
    ruleset: Seq<char>,
    scope: Scope,
    answers: Seq<Answer>,
) -> bool {
    if answers.len() == 0 {
        outcome == Outcome::Ask(Ask::Check(condition))
    } else {
        match answers[0] {
            Answer::Checked { holds } => if holds {
                outcome matches Outcome::Done { scope: after, report, used } && after == scope
                    && !report.updated && report.parts.len() == 0 && used == 1
            } else if answers.len() == 1 {
                outcome == Outcome::Ask(Ask::Run(kind, ruleset))
            } else {
                match answers[1] {
                    Answer::Ran { updated, report } => outcome matches Outcome::Done {
                        scope: after,
                        report: own,
                        used,
                    } && after == scope && own.updated == updated && own.parts == seq![report]
                        && used == 2,
                    Answer::Failed => outcome == Outcome::Fault(FaultView::Engine, scope),
                    _ => outcome is Stuck,
                }
            },
            Answer::Failed => outcome == Outcome::Fault(FaultView::Engine, scope),
            _ => outcome is Stuck,
        }
    }
}

/// Whether an outcome is that of `[ruleset] [:until condition]`. With no ruleset
/// the default one is meant, whose name is empty. Anything else is invalid, and
/// has no meaning where it does not start with a symbol.
pub open spec fn runs_as_told(
    outcome: Outcome,
    at: usize,
    kind: RunKind,
    told: Seq<Expr>,
    scope: Scope,
    answers: Seq<Answer>,
) -> bool {
    if told.len() == 0 {
        runs_rules(outcome, kind, Seq::empty(), scope, answers)
    } else {
        match told[0] {
            Expr::Var(_, first) => if first@ == ":until"@ {
                if told.len() == 2 {
                    runs_rules_unless(outcome, told[1], kind, Seq::empty(), scope, answers)
                } else {
                    outcome == Outcome::Fault(FaultView::Invalid { at }, scope)
                }
            } else if told.len() == 1 {
                runs_rules(outcome, kind, first@, scope, answers)
            } else if told.len() == 3 && (told[1] matches Expr::Var(_, second) && second@
                == ":until"@) {
                runs_rules_unless(outcome, told[2], kind, first@, scope, answers)
            } else {
                outcome == Outcome::Fault(FaultView::Invalid { at }, scope)
            },
            _ => outcome is Stuck,
        }
    }
}

/// A symbol on its own runs the ruleset of that name; a literal is no schedule.
pub proof fn law_atoms(expr: Expr, scope: Scope, answers: Seq<Answer>)
    ensures
        expr matches Expr::Var(_, name) ==> runs_rules(
            eval(expr, scope, answers),
            RunKind::Ruleset,
            name@,
            scope,
            answers,
        ),
        expr matches Expr::Lit(at, _) ==> eval(expr, scope, answers) == Outcome::Fault(
            FaultView::Invalid { at },
            scope,
        ),
{
}

/// `run` makes one step of a ruleset, without a scheduler.
pub proof fn law_run(
    expr: Expr,
    at: usize,
    args: Seq<Expr>,
    scope: Scope,
    answers: Seq<Answer>,
)
    requires
        is_call(expr, at, "run"@, args),
    ensures
        runs_as_told(eval(expr, scope, answers), at, RunKind::Step, args, scope, answers),
{
    lemma_heads_differ();
    reveal_strlit("");
    assert(""@ =~= Seq::empty());
}

/// `run-with` makes one step of a ruleset under the scheduler that was defined
/// last under the name it gives. It has no meaning where there is none.
pub proof fn law_run_with(
    expr: Expr,
    at: usize,
    args: Seq<Expr>,
    scope: Scope,
    answers: Seq<Answer>,
)
    requires
        is_call(expr, at, "run-with"@, args),
    ensures
        args.len() == 0 ==> eval(expr, scope, answers) is Stuck,
        args.len() > 0 && !(args[0] is Var) ==> eval(expr, scope, answers) == Outcome::Fault(
            FaultView::Invalid { at },
            scope,
        ),
        args.len() > 0 ==> (args[0] matches Expr::Var(_, name) ==> {
            &&& (forall|i: int| 0 <= i < scope.len() ==> (#[trigger] scope[i]).0 != name@) ==> eval(
                expr,
                scope,
                answers,
            ) is Stuck
            &&& forall|i: int|
                0 <= i < scope.len() && (#[trigger] scope[i]).0 == name@ && (forall|j: int|
                    i < j < scope.len() ==> (#[trigger] scope[j]).0 != name@) ==> runs_as_told(
                    eval(expr, scope, answers),
                    at,
                    RunKind::StepWith(scope[i].1),
                    args.skip(1),
                    scope,
                    answers,
                )
        }),
{
    lemma_heads_differ();
    reveal_strlit("");
    assert(""@ =~= Seq::empty());
    if args.len() > 0 {
        let told = args.skip(1);
        assert forall|k: int| 0 <= k < told.len() implies #[trigger] told[k] == args[k + 1] by {}
        if let Expr::Var(_, name) = args[0] {
            law_scheduler_of_name(scope, name@);
            assert forall|i: int|
                0 <= i < scope.len() && (#[trigger] scope[i]).0 == name@ && (forall|j: int|
                    i < j < scope.len() ==> (#[trigger] scope[j]).0 != name@) implies runs_as_told(
                eval(expr, scope, answers),
                at,
                RunKind::StepWith(scope[i].1),
                told,
                scope,
                answers,
            ) by {
                let id = scheduler_of(scope, name@)->0;
                let last = choose|last: int|
                    0 <= last < scope.len() && #[trigger] scope[last] == (name@, id) && forall|
                        j: int,
                    |
                        last < j < scope.len() ==> (#[trigger] scope[j]).0 != name@;
                assert(last == i);
                if told.len() > 0 {
                    assert(told[0] == args[1]);
                }
                if told.len() > 1 {
                    assert(told[1] == args[2]);
                }
                if told.len() > 2 {
                    assert(told[2] == args[3]);
                }
            }
        }
    }
}

/// `let-scheduler` has a scheduler built and brings it into scope under a name
/// that none has yet. It reports nothing.
pub proof fn law_let_scheduler(
    expr: Expr,
    at: usize,
    args: Seq<Expr>,
    scope: Scope,
    answers: Seq<Answer>,
)
    requires
        is_call(expr, at, "let-scheduler"@, args),
    ensures
        !(args.len() == 2 && args[0] is Var && args[1] is Call) ==> eval(expr, scope, answers)
            == Outcome::Fault(FaultView::Invalid { at }, scope),
        args.len() == 2 ==> (args[0] matches Expr::Var(_, name) ==> (args[1] matches Expr::Call(
            _,
            builder,
            builder_args,
        ) ==> if exists|i: int| 0 <= i < scope.len() && (#[trigger] scope[i]).0 == name@ {
            eval(expr, scope, answers) == Outcome::Fault(
                FaultView::Duplicate { at, name: name@ },
                scope,
            )
        } else if answers.len() == 0 {
            eval(expr, scope, answers) == Outcome::Ask(Ask::Build(builder@, builder_args@))
        } else {
            match answers[0] {
                Answer::Built { scheduler } => eval(expr, scope, answers) matches Outcome::Done {
                    scope: after,
                    report,
                    used,
                } && after == scope + seq![(name@, scheduler)] && !report.updated
                    && report.parts.len() == 0 && used == 1,
                _ => eval(expr, scope, answers) is Stuck,
            }
        })),
{
    lemma_heads_differ();
    if args.len() == 2 {
        if let (Expr::Var(_, name), Expr::Call(_, _, _)) = (args[0], args[1]) {
            law_scheduler_of_name(scope, name@);
            if answers.len() > 0 {
                if let Answer::Built { scheduler } = answers[0] {
                    assert(scope.push((name@, scheduler)) =~= scope + seq![(name@, scheduler)]);
                }
            }
        }
    }
}

/// A scheduler is known by the name it was defined under: once it was built,
/// `run-with` of that name asks for a step with it, however many schedulers of
/// other names were defined since.
pub proof fn law_defined_schedulers_are_found(
    expr: Expr,
    at: usize,
    args: Seq<Expr>,
    scope: Scope,
    name: Seq<char>,
    id: usize,
    others: Scope,
)
    requires
        is_call(expr, at, "run-with"@, args),
        args.len() == 2,
        args[0].is_symbol(name),
        args[1] is Var,
        !args[1].is_symbol(":until"@),
        forall|i: int| 0 <= i < others.len() ==> (#[trigger] others[i]).0 != name,
    ensures
        args[1] matches Expr::Var(_, ruleset) && eval(
            expr,
            scope + seq![(name, id)] + others,
            Seq::empty(),
        ) == Outcome::Ask(Ask::Run(RunKind::StepWith(id), ruleset@)),
{
    let all = scope + seq![(name, id)] + others;
    law_run_with(expr, at, args, all, Seq::empty());
    let i = scope.len() as int;
    assert(all[i] == (name, id));
    assert forall|j: int| i < j < all.len() implies (#[trigger] all[j]).0 != name by {
        assert(all[j] == others[j - i - 1]);
    }
    assert(args.skip(1)[0] == args[1]);
}

/// A call of any other head is no schedule.
pub proof fn law_other_heads(
    expr: Expr,
    at: usize,
    head: Seq<char>,
    args: Seq<Expr>,
    scope: Scope,
    answers: Seq<Answer>,
)
    requires
        is_call(expr, at, head, args),
        head != "let-scheduler"@,
        head != "run"@,
        head != "run-with"@,
        head != "saturate"@,
        head != "seq"@,
        head != "repeat"@,
    ensures
        eval(expr, scope, answers) == Outcome::Fault(FaultView::Invalid { at }, scope),
{
}

/// `seq` runs all its arguments in order, and leaves just those schedulers in
/// scope that were before.
pub proof fn law_seq(
    expr: Expr,
    at: usize,
    args: Seq<Expr>,
    scope: Scope,
    answers: Seq<Answer>,
)
    requires
        is_call(expr, at, "seq"@, args),
    ensures
        exists|all: Seq<Stretch>| #[trigger]
            in_turn(args, 0, scope, answers, all) && match eval(expr, scope, answers) {
                Outcome::Done { scope: after, report, used } => after == scope && comes_of(
                    Outcome::Done { scope: scope_after(all, scope), report, used },
                    args,
                    0,
                    ReportView { updated: false, parts: Seq::empty() },
                    scope,
                    answers,
                    all,
                ),
                Outcome::Fault(fault, after) => after == scope && exists|inner: Scope| #[trigger]
                    comes_of(
                        Outcome::Fault(fault, inner),
                        args,
                        0,
                        ReportView { updated: false, parts: Seq::empty() },
                        scope,
                        answers,
                        all,
                    ),
                other => comes_of(
                    other,
                    args,
                    0,
                    ReportView { updated: false, parts: Seq::empty() },
                    scope,
                    answers,
                    all,
                ),
            },
{
    lemma_heads_differ();
    law_eval_all_keeps_books(args, 0, no_report(), scope, answers);
    law_one_after_the_other(args, 0, no_report(), scope, answers);
    let outcome = eval_all(args, 0, no_report(), scope, answers);
    let all = choose|all: Seq<Stretch>| #[trigger]
        in_turn(args, 0, scope, answers, all) && comes_of(
            outcome,
            args,
            0,
            no_report(),
            scope,
            answers,
            all,
        );
    if let Outcome::Fault(fault, inner) = outcome {
        assert(comes_of(
            Outcome::Fault(fault, inner),
            args,
            0,
            no_report(),
            scope,
            answers,
            all,
        ));
    }
    assert(in_turn(args, 0, scope, answers, all));
}

/// `saturate` and `repeat` are run with no report to begin with. `repeat` takes
/// its first argument for the number of rounds, which must be an integer.
pub proof fn law_loops(
    expr: Expr,
    at: usize,
    args: Seq<Expr>,
    scope: Scope,
    answers: Seq<Answer>,
)
    ensures
        is_call(expr, at, "saturate"@, args) ==> eval(expr, scope, answers) == saturate(
            args,
            ReportView { updated: false, parts: Seq::empty() },
            scope,
            answers,
        ),
        is_call(expr, at, "repeat"@, args) ==> if args.len() > 0 && (args[0] matches Expr::Lit(
            _,
            Literal::Int(n),
        )) {
            eval(expr, scope, answers) == repeat(
                args,
                (args[0]->Lit_1)->Int_0 as int,
                ReportView { updated: false, parts: Seq::empty() },
                scope,
                answers,
            )
        } else {
            eval(expr, scope, answers) == Outcome::Fault(FaultView::Invalid { at }, scope)
        },
{
    lemma_heads_differ();
}

/// The schedules that a command is given are run one after the other, with no
/// scheduler in scope at the start. If all come to their ends, their reports are
/// united; else what becomes of the first that does not becomes of the whole.
pub proof fn law_run_schedule(args: Seq<Expr>, answers: Seq<Answer>)
    ensures
        exists|all: Seq<Stretch>| #[trigger]
            in_turn(args, 0, Seq::empty(), answers, all) && match run_schedule(args, answers) {
                Verdict::Report(report, scope) => {
                    &&& all.len() == args.len()
                    &&& scope == scope_after(all, Seq::empty())
                    &&& adds_up(report, ReportView { updated: false, parts: Seq::empty() }, all)
                },
                Verdict::Ask(ask) => comes_of(
                    Outcome::Ask(ask),
                    args,
                    0,
                    ReportView { updated: false, parts: Seq::empty() },
                    Seq::empty(),
                    answers,
                    all,
                ),
                Verdict::Fault(fault, scope) => comes_of(
                    Outcome::Fault(fault, scope),
                    args,
                    0,
                    ReportView { updated: false, parts: Seq::empty() },
                    Seq::empty(),
                    answers,
                    all,
                ),
                Verdict::Stuck => comes_of(
                    Outcome::Stuck,
                    args,
                    0,
                    ReportView { updated: false, parts: Seq::empty() },
                    Seq::empty(),
                    answers,
                    all,
                ),
            },
{
    law_one_after_the_other(args, 0, no_report(), Seq::empty(), answers);
    let outcome = eval_all(args, 0, no_report(), Seq::empty(), answers);
    let all = choose|all: Seq<Stretch>| #[trigger]
        in_turn(args, 0, Seq::empty(), answers, all) && comes_of(
            outcome,
            args,
            0,
            no_report(),
            Seq::empty(),
            answers,
            all,
        );
    assert(in_turn(args, 0, Seq::empty(), answers, all));
}

/// A machine's status tells what becomes of its schedule: what it is at is what
/// is asked for next, and where it ended is the end of the whole schedule.
pub proof fn law_status_tells(state: StateView, answers: Seq<Answer>)
    requires
        state.wf(),
    ensures
        match state.status {
            StatusView::Next(_) => true,
            StatusView::Run(kind, ruleset) => state.meaning(Seq::empty()) == Verdict::Ask(
                Ask::Run(kind, ruleset),
            ),
            StatusView::Check(condition, _, _) => state.meaning(Seq::empty()) == Verdict::Ask(
                Ask::Check(condition),
            ),
            StatusView::Build(_, builder, args) => state.meaning(Seq::empty()) == Verdict::Ask(
                Ask::Build(builder, args),
            ),
            StatusView::Finished(report) => state.meaning(answers) == Verdict::Report(
                report,
                state.scope,
            ),
            StatusView::Failed(fault) => state.meaning(answers) == Verdict::Fault(
                fault,
                state.scope,
            ),
            StatusView::Stuck => state.meaning(answers) == Verdict::Stuck,
        },
{
    if let StatusView::Failed(fault) = state.status {
        lemma_fault(state.frames, fault, state.scope, answers);
    }
}

/// What an answer makes of the request that it answers: the report of rules that
/// were run is taken over; a condition that holds ends the request, and one that
/// does not has the rules run; a scheduler that was built comes into scope under
/// its name.
pub proof fn law_answered_requests(
    name: Seq<char>,
    builder: Seq<char>,
    args: Seq<Expr>,
    condition: Expr,
    kind: RunKind,
    ruleset: Seq<char>,
    scope: Scope,
    answers: Seq<Answer>,
    id: usize,
)
    ensures
        runs_rules(
            status_outcome(StatusView::Run(kind, ruleset), scope, answers),
            kind,
            ruleset,
            scope,
            answers,
        ),
        runs_rules_unless(
            status_outcome(StatusView::Check(condition, kind, ruleset), scope, answers),
            condition,
            kind,
            ruleset,
            scope,
            answers,
        ),
        status_outcome(
            StatusView::Build(name, builder, args),
            scope,
            seq![Answer::Built { scheduler: id }] + answers,
        ) matches Outcome::Done { scope: after, report, used } && after == scope + seq![(name, id)]
            && !report.updated && report.parts.len() == 0 && used == 1,
{
    assert(scope.push((name, id)) =~= scope + seq![(name, id)]);
    assert((seq![Answer::Built { scheduler: id }] + answers)[0] == Answer::Built {
        scheduler: id,
    });
}

/// Which answers a machine takes: to a request for rules a report or an error,
/// to one for a condition what was found or an error, and to one for a scheduler
/// the scheduler. It takes none where it asks for nothing.
pub proof fn law_accepted_answers(state: StateView, answer: Answer)
    ensures
        state.accepts(answer) <==> match answer {
            Answer::Ran { .. } => state.status is Run,
            Answer::Checked { .. } => state.status is Check,
            Answer::Built { .. } => state.status is Build,
            Answer::Failed => state.status is Run || state.status is Check,
        },
{
}

/// Contracts see what a machine is at as what it holds, of its own kind.
pub proof fn law_status_view(status: Status)
    ensures
        match status {
            Status::Next(expr) => status@ == StatusView::Next(*expr),
            Status::Run { kind, ruleset } => status@ == StatusView::Run(kind, ruleset@),
            Status::Check { condition, kind, ruleset } => status@ == StatusView::Check(
                *condition,
                kind,
                ruleset@,
            ),
            Status::Build { name, builder, args } => status@ == StatusView::Build(
                name@,
                builder@,
                args@,
            ),
            Status::Finished(report) => status@ == StatusView::Finished(
                ReportView { updated: report.updated, parts: report.parts@ },
            ),
            Status::Failed(Fault::Invalid { at }) => status@ == StatusView::Failed(
                FaultView::Invalid { at },
            ),
            Status::Failed(Fault::Duplicate { at, name }) => status@ == StatusView::Failed(
                FaultView::Duplicate { at, name: name@ },
            ),
            Status::Failed(Fault::Engine) => status@ == StatusView::Failed(FaultView::Engine),
            Status::Stuck(_) => status@ is Stuck,
        },
{
}

/// Contracts see the schedulers in scope in order, each with its name and id.
pub proof fn law_scope_of(schedulers: Seq<(String, usize)>)
    ensures
        scope_of(schedulers).len() == schedulers.len(),
        forall|i: int|
            0 <= i < schedulers.len() ==> #[trigger] scope_of(schedulers)[i] == (
                schedulers[i].0@,
                schedulers[i].1,
            ),
{
}

/// The union of two reports says that the database was updated if either does,
/// and has the parts of both in order.
pub proof fn law_union(one: ReportView, other: ReportView)
    ensures
        one.union(other).updated <==> one.updated || other.updated,
        one.union(other).parts == one.parts + other.parts,
        !no_report().updated,
        no_report().parts.len() == 0,
{
}

/// An engine's error ends a schedule wherever it comes.
pub proof fn law_errors_end_schedules(state: StateView, answers: Seq<Answer>)
    requires
        state.wf(),
        state.status is Run || state.status is Check,
        answers.len() > 0,
        answers[0] is Failed,
    ensures
        state.meaning(answers) == Verdict::Fault(FaultView::Engine, state.outer_scope()),
{
    lemma_fault(state.frames, FaultView::Engine, state.scope, answers);
}

} // verus!
