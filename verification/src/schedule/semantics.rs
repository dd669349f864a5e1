//! What an extended schedule means.
//!
//! A schedule is run against a rule engine. All that the schedule learns of the
//! engine is a sequence of answers, one for each request it makes, so its
//! meaning is a function of the schedule and of the answers received so far.

use vstd::prelude::*;

use crate::expr::{Expr, Literal};

verus! {

/// The ways in which a schedule has rules run.
#[derive(Debug, Clone, Copy)]
pub enum RunKind {
    /// A ruleset named on its own: the engine's own `run` command.
    Ruleset,
    /// One step of a ruleset.
    Step,
    /// One step of a ruleset under a scheduler that the engine knows by this id.
    StepWith(usize),
}

/// What the engine answers to a request.
#[derive(Debug, Clone, Copy)]
pub enum Answer {
    /// Rules were run. `updated` is what their run report says of the database,
    /// `report` the number by which the caller finds that report again.
    Ran { updated: bool, report: usize },
    /// The condition holds, or it does not.
    Checked { holds: bool },
    /// A scheduler was built, and the engine knows it by this id.
    Built { scheduler: usize },
    /// The engine returned an error.
    Failed,
}

/// A request to the engine.
pub enum Ask {
    /// Run the rules of this ruleset.
    Run(RunKind, Seq<char>),
    /// Say whether this condition holds.
    Check(Expr),
    /// Build the scheduler of this name from these arguments.
    Build(Seq<char>, Seq<Expr>),
}

/// Why a schedule fails.
pub enum FaultView {
    /// The expression at this position is no schedule.
    Invalid { at: usize },
    /// The expression at this position names a scheduler that exists already.
    Duplicate { at: usize, name: Seq<char> },
    /// The engine returned an error.
    Engine,
}

/// What a run report amounts to: whether the database was updated, and the
/// engine's reports that it unites, in order.
#[verifier::ext_equal]
pub struct ReportView {
    pub updated: bool,
    pub parts: Seq<usize>,
}

impl ReportView {
    /// The union of two reports.
    pub open spec fn union(self, other: ReportView) -> ReportView {
        ReportView { updated: self.updated || other.updated, parts: self.parts + other.parts }
    }
}

/// The report of a run in which nothing happened.
pub open spec fn no_report() -> ReportView {
    ReportView { updated: false, parts: Seq::empty() }
}

/// The schedulers in scope, each with its name and the engine's id, the latest
/// definition last.
pub type Scope = Seq<(Seq<char>, usize)>;

/// What becomes of an expression, given the answers at hand.
pub enum Outcome {
    /// It has run to its end: the schedulers then in scope, its report, and how
    /// many of the answers it used.
    Done { scope: Scope, report: ReportView, used: nat },
    /// The answers do not suffice: this is the request that awaits one.
    Ask(Ask),
    /// The schedule fails: why, and the schedulers then in scope.
    Fault(FaultView, Scope),
    /// The schedule has no meaning: it names a scheduler that is not in scope,
    /// has something else where a name must stand, or was given an answer of
    /// another kind than it asked for.
    Stuck,
}

/// The answers that are left once `used` of them are used.
pub open spec fn unused(answers: Seq<Answer>, used: nat) -> Seq<Answer> {
    if used <= answers.len() {
        answers.skip(used as int)
    } else {
        Seq::empty()
    }
}

/// The outcome of a part that started when `used` answers were used already.
pub open spec fn later(outcome: Outcome, used: nat) -> Outcome {
    match outcome {
        Outcome::Done { scope, report, used: more } => Outcome::Done {
            scope,
            report,
            used: used + more,
        },
        other => other,
    }
}

/// The outcome of a block, from that of what stands in it: the schedulers that
/// it defined are out of scope, whether it ran to its end or failed. Before it,
/// `outer` of them were in scope.
pub open spec fn closed(outcome: Outcome, outer: nat) -> Outcome {
    match outcome {
        Outcome::Done { scope, report, used } => Outcome::Done {
            scope: scope.take(outer as int),
            report,
            used,
        },
        Outcome::Fault(fault, scope) => Outcome::Fault(fault, scope.take(outer as int)),
        other => other,
    }
}

/// Whether a scheduler of this name is in scope.
pub open spec fn in_scope(scope: Scope, name: Seq<char>) -> bool {
    exists|i: int| 0 <= i < scope.len() && (#[trigger] scope[i]).0 == name
}

/// The latest scheduler of this name.
pub open spec fn scheduler_of(scope: Scope, name: Seq<char>) -> Option<usize>
    decreases scope.len(),
{
    if scope.len() == 0 {
        None
    } else if scope.last().0 == name {
        Some(scope.last().1)
    } else {
        scheduler_of(scope.drop_last(), name)
    }
}

/// Has rules run, and takes their report for its own.
pub open spec fn run_rules(
    kind: RunKind,
    ruleset: Seq<char>,
    scope: Scope,
    answers: Seq<Answer>,
) -> Outcome {
    if answers.len() == 0 {
        Outcome::Ask(Ask::Run(kind, ruleset))
    } else {
        match answers[0] {
            Answer::Ran { updated, report } => Outcome::Done {
                scope,
                report: ReportView { updated, parts: seq![report] },
                used: 1,
            },
            Answer::Failed => Outcome::Fault(FaultView::Engine, scope),
            _ => Outcome::Stuck,
        }
    }
}

/// Has a condition checked. If it holds, nothing is left to do; if not, has
/// rules run.
pub open spec fn run_unless(
    condition: Expr,
    kind: RunKind,
    ruleset: Seq<char>,
    scope: Scope,
    answers: Seq<Answer>,
) -> Outcome {
    if answers.len() == 0 {
        Outcome::Ask(Ask::Check(condition))
    } else {
        match answers[0] {
            Answer::Checked { holds } => if holds {
                Outcome::Done { scope, report: no_report(), used: 1 }
            } else {
                later(run_rules(kind, ruleset, scope, answers.skip(1)), 1)
            },
            Answer::Failed => Outcome::Fault(FaultView::Engine, scope),
            _ => Outcome::Stuck,
        }
    }
}

/// Has a scheduler built, and brings it into scope.
pub open spec fn define_scheduler(
    name: Seq<char>,
    builder: Seq<char>,
    args: Seq<Expr>,
    scope: Scope,
    answers: Seq<Answer>,
) -> Outcome {
    if answers.len() == 0 {
        Outcome::Ask(Ask::Build(builder, args))
    } else {
        match answers[0] {
            Answer::Built { scheduler } => Outcome::Done {
                scope: scope.push((name, scheduler)),
                report: no_report(),
                used: 1,
            },
            _ => Outcome::Stuck,
        }
    }
}

/// How the arguments of `run` read, from a given one on:
/// `[ruleset] [:until condition]`.
pub enum RunForm {
    /// A ruleset; the empty name stands for the default one.
    Plain(Seq<char>),
    /// A ruleset, and a condition under which it is not to be run.
    Until(Seq<char>, Expr),
    /// Neither.
    Invalid,
    /// Something else than a symbol where the ruleset is named.
    Unnamed,
}

/// How the arguments read once the ruleset is known: `[:until condition]`.
pub open spec fn until_form(ruleset: Seq<char>, args: Seq<Expr>, from: int) -> RunForm {
    if args.len() <= from {
        RunForm::Plain(ruleset)
    } else if args.len() == from + 2 && args[from].is_symbol(":until"@) {
        RunForm::Until(ruleset, args[from + 1])
    } else {
        RunForm::Invalid
    }
}

/// How the arguments of `run` read, from argument `from` on.
pub open spec fn run_form(args: Seq<Expr>, from: int) -> RunForm {
    if args.len() <= from {
        RunForm::Plain(""@)
    } else {
        match args[from] {
            Expr::Var(_, name) => if name@ == ":until"@ {
                until_form(""@, args, from)
            } else {
                until_form(name@, args, from + 1)
            },
            _ => RunForm::Unnamed,
        }
    }
}

/// `run`, and what follows the scheduler's name in `run-with`.
pub open spec fn eval_run(
    at: usize,
    kind: RunKind,
    args: Seq<Expr>,
    from: int,
    scope: Scope,
    answers: Seq<Answer>,
) -> Outcome {
    match run_form(args, from) {
        RunForm::Plain(ruleset) => run_rules(kind, ruleset, scope, answers),
        RunForm::Until(ruleset, condition) => run_unless(condition, kind, ruleset, scope, answers),
        RunForm::Invalid => Outcome::Fault(FaultView::Invalid { at }, scope),
        RunForm::Unnamed => Outcome::Stuck,
    }
}

/// `run-with`: a step under a scheduler that is in scope.
pub open spec fn eval_run_with(
    at: usize,
    args: Seq<Expr>,
    scope: Scope,
    answers: Seq<Answer>,
) -> Outcome {
    if args.len() == 0 {
        Outcome::Stuck
    } else {
        match args[0] {
            Expr::Var(_, name) => match scheduler_of(scope, name@) {
                Some(scheduler) => eval_run(
                    at,
                    RunKind::StepWith(scheduler),
                    args,
                    1,
                    scope,
                    answers,
                ),
                None => Outcome::Stuck,
            },
            _ => Outcome::Fault(FaultView::Invalid { at }, scope),
        }
    }
}

/// `let-scheduler`: a name that is not in scope yet, and a call that says how
/// to build the scheduler.
pub open spec fn eval_let(
    at: usize,
    args: Seq<Expr>,
    scope: Scope,
    answers: Seq<Answer>,
) -> Outcome {
    if args.len() != 2 {
        Outcome::Fault(FaultView::Invalid { at }, scope)
    } else {
        match (args[0], args[1]) {
            (Expr::Var(_, name), Expr::Call(_, builder, builder_args)) => if in_scope(
                scope,
                name@,
            ) {
                Outcome::Fault(FaultView::Duplicate { at, name: name@ }, scope)
            } else {
                define_scheduler(name@, builder@, builder_args@, scope, answers)
            },
            _ => Outcome::Fault(FaultView::Invalid { at }, scope),
        }
    }
}

/// How often `repeat` repeats what follows its first argument.
pub open spec fn repeat_count(args: Seq<Expr>) -> Option<int> {
    if args.len() == 0 {
        None
    } else {
        match args[0] {
            Expr::Lit(_, Literal::Int(n)) => Some(n as int),
            _ => None,
        }
    }
}

/// What becomes of one expression.
pub open spec fn eval(expr: Expr, scope: Scope, answers: Seq<Answer>) -> Outcome
    decreases answers.len(), expr, 0int, 0int,
{
    match expr {
        Expr::Var(_, ruleset) => run_rules(RunKind::Ruleset, ruleset@, scope, answers),
        Expr::Lit(at, _) => Outcome::Fault(FaultView::Invalid { at }, scope),
        Expr::Call(at, head, args) => if head@ == "let-scheduler"@ {
            eval_let(at, args@, scope, answers)
        } else if head@ == "run"@ {
            eval_run(at, RunKind::Step, args@, 0, scope, answers)
        } else if head@ == "run-with"@ {
            eval_run_with(at, args@, scope, answers)
        } else if head@ == "saturate"@ {
            saturate(args@, no_report(), scope, answers)
        } else if head@ == "seq"@ {
            closed(eval_all(args@, 0, no_report(), scope, answers), scope.len())
        } else if head@ == "repeat"@ {
            match repeat_count(args@) {
                Some(n) => repeat(args@, n, no_report(), scope, answers),
                None => Outcome::Fault(FaultView::Invalid { at }, scope),
            }
        } else {
            Outcome::Fault(FaultView::Invalid { at }, scope)
        },
    }
}

/// The expressions from the one at `next` on, one after the other. `report` is
/// what came of those before it.
pub open spec fn eval_all(
    exprs: Seq<Expr>,
    next: int,
    report: ReportView,
    scope: Scope,
    answers: Seq<Answer>,
) -> Outcome
    decreases
        answers.len(),
        exprs,
        if next <= exprs.len() {
            exprs.len() - next
        } else {
            0
        },
        0int,
{
    if next < 0 || next >= exprs.len() {
        Outcome::Done { scope, report, used: 0 }
    } else {
        match eval(exprs[next], scope, answers) {
            Outcome::Done { scope: after, report: more, used } => later(
                eval_all(exprs, next + 1, report.union(more), after, unused(answers, used)),
                used,
            ),
            other => other,
        }
    }
}

/// Rounds of all expressions, until one does not update the database. That last
/// round's report is dropped; `report` unites those of the rounds before.
/// Schedulers that a round defines are out of scope at its end. A round that
/// updates the database has used an answer, so there are fewer for the next.
pub open spec fn saturate(
    exprs: Seq<Expr>,
    report: ReportView,
    scope: Scope,
    answers: Seq<Answer>,
) -> Outcome
    decreases answers.len(), exprs, exprs.len() + 1, 0int,
{
    match closed(eval_all(exprs, 0, no_report(), scope, answers), scope.len()) {
        Outcome::Done { scope: after, report: round, used } => {
            let rest = unused(answers, used);
            if !round.updated {
                Outcome::Done { scope: after, report, used }
            } else if rest.len() < answers.len() {
                later(saturate(exprs, report.union(round), after, rest), used)
            } else {
                Outcome::Stuck
            }
        },
        other => other,
    }
}

/// `times` rounds of the expressions after the first. `report` unites the
/// reports of the rounds before. Schedulers that a round defines are out of
/// scope at its end.
pub open spec fn repeat(
    exprs: Seq<Expr>,
    times: int,
    report: ReportView,
    scope: Scope,
    answers: Seq<Answer>,
) -> Outcome
    decreases answers.len(), exprs, exprs.len() + 1, times,
{
    if times <= 0 {
        Outcome::Done { scope, report, used: 0 }
    } else {
        match closed(eval_all(exprs, 1, no_report(), scope, answers), scope.len()) {
            Outcome::Done { scope: after, report: round, used } => later(
                repeat(
                    exprs,
                    times - 1,
                    report.union(round),
                    after,
                    unused(answers, used),
                ),
                used,
            ),
            other => other,
        }
    }
}

/// What becomes of a whole schedule.
pub enum Verdict {
    /// It ran to its end: its report, and the schedulers then in scope.
    Report(ReportView, Scope),
    /// This request awaits an answer.
    Ask(Ask),
    /// It fails: why, and the schedulers then in scope.
    Fault(FaultView, Scope),
    /// It has no meaning.
    Stuck,
}

/// What an outcome says of the whole schedule, if nothing follows.
pub open spec fn verdict(outcome: Outcome) -> Verdict {
    match outcome {
        Outcome::Done { scope, report, .. } => Verdict::Report(report, scope),
        Outcome::Ask(ask) => Verdict::Ask(ask),
        Outcome::Fault(fault, scope) => Verdict::Fault(fault, scope),
        Outcome::Stuck => Verdict::Stuck,
    }
}

/// What becomes of the schedules `args`, run one after the other with no
/// scheduler in scope at the start.
pub open spec fn run_schedule(args: Seq<Expr>, answers: Seq<Answer>) -> Verdict {
    verdict(eval_all(args, 0, no_report(), Seq::empty(), answers))
}

} // verus!
