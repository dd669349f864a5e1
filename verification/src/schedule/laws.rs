//! Laws of extended schedules.

use vstd::prelude::*;

use crate::expr::Expr;
use crate::schedule::semantics::{
    eval, eval_all, eval_run, later, no_report, repeat, repeat_count, run_form, run_rules, saturate,
    unused, Answer, Outcome, ReportView, RunKind, Scope,
};

verus! {

/// Whether one of the first `used` answers reports an update of the database.
pub open spec fn updated_within(answers: Seq<Answer>, used: nat) -> bool {
    exists|i: int|
        0 <= i < used && i < answers.len() && (#[trigger] answers[i] matches Answer::Ran {
            updated,
            ..
        } && updated)
}

/// What holds of every outcome of a part of a schedule that started with the
/// schedulers `scope` in scope, where `before` says whether the reports that it
/// adds to had an update already.
pub open spec fn keeps_books(
    outcome: Outcome,
    before: bool,
    scope: Scope,
    answers: Seq<Answer>,
) -> bool {
    match outcome {
        Outcome::Done { scope: after, report, used } => {
            &&& used <= answers.len()
            &&& scope.len() <= after.len()
            &&& after.take(scope.len() as int) == scope
            &&& report.updated == (before || updated_within(answers, used))
        },
        Outcome::Fault(_, after) => {
            &&& scope.len() <= after.len()
            &&& after.take(scope.len() as int) == scope
        },
        _ => true,
    }
}

/// Whether just these schedulers are in scope, where a part of a schedule ends
/// or fails.
pub open spec fn leaves(outcome: Outcome, scope: Scope) -> bool {
    match outcome {
        Outcome::Done { scope: after, .. } => after == scope,
        Outcome::Fault(_, after) => after == scope,
        _ => true,
    }
}

/// Of a sequence of answers, the used ones and then more: an update is among
/// them exactly if it is among the first or among the others.
proof fn lemma_updated_within_split(answers: Seq<Answer>, first: nat, more: nat)
    requires
        first + more <= answers.len(),
    ensures
        updated_within(answers, first + more) == (updated_within(answers, first) || updated_within(
            unused(answers, first),
            more,
        )),
{
    let rest = unused(answers, first);
    if updated_within(answers, first + more) {
        let i = choose|i: int|
            0 <= i < first + more && i < answers.len() && (
            #[trigger] answers[i] matches Answer::Ran { updated, .. } && updated);
        if i >= first {
            assert(rest[i - first] == answers[i]);
        }
    }
    if updated_within(rest, more) {
        let i = choose|i: int|
            0 <= i < more && i < rest.len() && (#[trigger] rest[i] matches Answer::Ran {
                updated,
                ..
            } && updated);
        assert(rest[i] == answers[i + first]);
    }
}

/// No update is among no answers.
proof fn lemma_updated_within_none(answers: Seq<Answer>)
    ensures
        !updated_within(answers, 0),
{
}

/// The first answer alone.
proof fn lemma_updated_within_one(answers: Seq<Answer>)
    requires
        answers.len() > 0,
    ensures
        updated_within(answers, 1) == (answers[0] matches Answer::Ran { updated, .. } && updated),
{
}

/// A part of a schedule never uses more answers than there are, leaves the
/// schedulers that were in scope in place, whether it ends or fails, and reports
/// an update exactly if one of the answers it used does.
pub proof fn law_eval_keeps_books(expr: Expr, scope: Scope, answers: Seq<Answer>)
    ensures
        keeps_books(eval(expr, scope, answers), false, scope, answers),
    decreases answers.len(), expr, 0int, 0int,
{
    lemma_updated_within_none(answers);
    if answers.len() > 0 {
        lemma_updated_within_one(answers);
        if answers.len() > 1 {
            lemma_updated_within_split(answers, 1, 1);
            lemma_updated_within_one(unused(answers, 1));
        }
    }
    assert(scope.take(scope.len() as int) == scope);
    match expr {
        Expr::Call(_, head, args) => {
            if answers.len() > 0 {
                if answers[0] is Built {
                    assert forall|name: Seq<char>, id: usize|
                        (#[trigger] scope.push((name, id))).take(scope.len() as int) == scope by {
                        assert(scope.push((name, id)).take(scope.len() as int) =~= scope);
                    }
                }
            }
            law_eval_all_keeps_books(args@, 0, no_report(), scope, answers);
            law_saturate_keeps_books(args@, no_report(), scope, answers);
            if let Some(n) = repeat_count(args@) {
                law_repeat_keeps_books(args@, n, no_report(), scope, answers);
            }
        },
        _ => {},
    }
}

/// The same of expressions run one after the other.
pub proof fn law_eval_all_keeps_books(
    exprs: Seq<Expr>,
    next: int,
    report: ReportView,
    scope: Scope,
    answers: Seq<Answer>,
)
    ensures
        keeps_books(
            eval_all(exprs, next, report, scope, answers),
            report.updated,
            scope,
            answers,
        ),
    decreases
        answers.len(),
        exprs,
        if next <= exprs.len() {
            exprs.len() - next
        } else {
            0
        },
        0int,
{
    assert(scope.take(scope.len() as int) == scope);
    lemma_updated_within_none(answers);
    if 0 <= next < exprs.len() {
        law_eval_keeps_books(exprs[next], scope, answers);
        match eval(exprs[next], scope, answers) {
            Outcome::Done { scope: middle, report: more, used } => {
                let rest = unused(answers, used);
                law_eval_all_keeps_books(exprs, next + 1, report.union(more), middle, rest);
                match eval_all(exprs, next + 1, report.union(more), middle, rest) {
                    Outcome::Done { scope: after, used: later_used, .. } => {
                        lemma_updated_within_split(answers, used, later_used);
                        assert(after.take(scope.len() as int) =~= middle.take(scope.len() as int));
                    },
                    Outcome::Fault(_, after) => {
                        assert(after.take(scope.len() as int) =~= middle.take(scope.len() as int));
                    },
                    _ => {},
                }
            },
            _ => {},
        }
    }
}

/// The same of `saturate`; and it leaves in scope just what was.
pub proof fn law_saturate_keeps_books(
    exprs: Seq<Expr>,
    report: ReportView,
    scope: Scope,
    answers: Seq<Answer>,
)
    ensures
        keeps_books(saturate(exprs, report, scope, answers), report.updated, scope, answers),
        leaves(saturate(exprs, report, scope, answers), scope),
    decreases answers.len(), exprs, exprs.len() + 1, 0int,
{
    law_eval_all_keeps_books(exprs, 0, no_report(), scope, answers);
    match eval_all(exprs, 0, no_report(), scope, answers) {
        Outcome::Done { scope: inner, report: round, used } => {
            let rest = unused(answers, used);
            if round.updated && rest.len() < answers.len() {
                law_saturate_keeps_books(exprs, report.union(round), scope, rest);
                match saturate(exprs, report.union(round), scope, rest) {
                    Outcome::Done { used: later_used, .. } => {
                        lemma_updated_within_split(answers, used, later_used);
                    },
                    _ => {},
                }
            }
        },
        _ => {},
    }
    assert(scope.take(scope.len() as int) == scope);
}

/// The same of `repeat`; and it leaves in scope just what was.
pub proof fn law_repeat_keeps_books(
    exprs: Seq<Expr>,
    times: int,
    report: ReportView,
    scope: Scope,
    answers: Seq<Answer>,
)
    ensures
        keeps_books(repeat(exprs, times, report, scope, answers), report.updated, scope, answers),
        leaves(repeat(exprs, times, report, scope, answers), scope),
    decreases answers.len(), exprs, exprs.len() + 1, times,
{
    assert(scope.take(scope.len() as int) == scope);
    lemma_updated_within_none(answers);
    if times > 0 {
        law_eval_all_keeps_books(exprs, 1, no_report(), scope, answers);
        match eval_all(exprs, 1, no_report(), scope, answers) {
            Outcome::Done { scope: inner, report: round, used } => {
                let rest = unused(answers, used);
                law_repeat_keeps_books(exprs, times - 1, report.union(round), scope, rest);
                match repeat(exprs, times - 1, report.union(round), scope, rest) {
                    Outcome::Done { used: later_used, .. } => {
                        lemma_updated_within_split(answers, used, later_used);
                    },
                    _ => {},
                }
            },
            _ => {},
        }
    }
}

proof fn lemma_unused_and_more(answers: Seq<Answer>, used: nat, more: Seq<Answer>)
    requires
        used <= answers.len(),
    ensures
        unused(answers + more, used) == unused(answers, used) + more,
{
    assert(unused(answers + more, used) =~= unused(answers, used) + more);
}

/// An answer is asked for once: where the answers at hand suffice to tell what
/// becomes of an expression, further answers change nothing.
pub proof fn law_eval_is_final(expr: Expr, scope: Scope, answers: Seq<Answer>, more: Seq<Answer>)
    requires
        !(eval(expr, scope, answers) is Ask),
    ensures
        eval(expr, scope, answers + more) == eval(expr, scope, answers),
    decreases answers.len(), expr, 0int, 0int,
{
    if answers.len() > 0 {
        assert((answers + more)[0] == answers[0]);
        assert((answers + more).skip(1) =~= answers.skip(1) + more);
        if answers.len() > 1 {
            assert((answers.skip(1) + more)[0] == answers.skip(1)[0]);
        }
    }
    match expr {
        Expr::Call(_, head, args) => {
            if head@ == "saturate"@ {
                if !(saturate(args@, no_report(), scope, answers) is Ask) {
                    law_saturate_is_final(args@, no_report(), scope, answers, more);
                }
            } else if head@ == "seq"@ {
                if !(eval_all(args@, 0, no_report(), scope, answers) is Ask) {
                    law_eval_all_is_final(args@, 0, no_report(), scope, answers, more);
                }
            } else if head@ == "repeat"@ {
                if let Some(n) = repeat_count(args@) {
                    if !(repeat(args@, n, no_report(), scope, answers) is Ask) {
                        law_repeat_is_final(args@, n, no_report(), scope, answers, more);
                    }
                }
            }
        },
        _ => {},
    }
}

/// The same of expressions run one after the other.
pub proof fn law_eval_all_is_final(
    exprs: Seq<Expr>,
    next: int,
    report: ReportView,
    scope: Scope,
    answers: Seq<Answer>,
    more: Seq<Answer>,
)
    requires
        !(eval_all(exprs, next, report, scope, answers) is Ask),
    ensures
        eval_all(exprs, next, report, scope, answers + more) == eval_all(
            exprs,
            next,
            report,
            scope,
            answers,
        ),
    decreases
        answers.len(),
        exprs,
        if next <= exprs.len() {
            exprs.len() - next
        } else {
            0
        },
        0int,
{
    if 0 <= next < exprs.len() {
        law_eval_is_final(exprs[next], scope, answers, more);
        law_eval_keeps_books(exprs[next], scope, answers);
        match eval(exprs[next], scope, answers) {
            Outcome::Done { scope: after, report: round, used } => {
                lemma_unused_and_more(answers, used, more);
                law_eval_all_is_final(
                    exprs,
                    next + 1,
                    report.union(round),
                    after,
                    unused(answers, used),
                    more,
                );
            },
            _ => {},
        }
    }
}

/// The same of `saturate`.
pub proof fn law_saturate_is_final(
    exprs: Seq<Expr>,
    report: ReportView,
    scope: Scope,
    answers: Seq<Answer>,
    more: Seq<Answer>,
)
    requires
        !(saturate(exprs, report, scope, answers) is Ask),
    ensures
        saturate(exprs, report, scope, answers + more) == saturate(exprs, report, scope, answers),
    decreases answers.len(), exprs, exprs.len() + 1, 0int,
{
    law_eval_all_is_final(exprs, 0, no_report(), scope, answers, more);
    law_eval_all_keeps_books(exprs, 0, no_report(), scope, answers);
    match eval_all(exprs, 0, no_report(), scope, answers) {
        Outcome::Done { scope: inner, report: round, used } => {
            if round.updated {
                let rest = unused(answers, used);
                lemma_unused_and_more(answers, used, more);
                assert(rest.len() < answers.len());
                law_saturate_is_final(
                    exprs,
                    report.union(round),
                    inner.take(scope.len() as int),
                    rest,
                    more,
                );
            }
        },
        _ => {},
    }
}

/// The same of `repeat`.
pub proof fn law_repeat_is_final(
    exprs: Seq<Expr>,
    times: int,
    report: ReportView,
    scope: Scope,
    answers: Seq<Answer>,
    more: Seq<Answer>,
)
    requires
        !(repeat(exprs, times, report, scope, answers) is Ask),
    ensures
        repeat(exprs, times, report, scope, answers + more) == repeat(
            exprs,
            times,
            report,
            scope,
            answers,
        ),
    decreases answers.len(), exprs, exprs.len() + 1, times,
{
    if times > 0 {
        law_eval_all_is_final(exprs, 1, no_report(), scope, answers, more);
        law_eval_all_keeps_books(exprs, 1, no_report(), scope, answers);
        match eval_all(exprs, 1, no_report(), scope, answers) {
            Outcome::Done { scope: inner, report: round, used } => {
                lemma_unused_and_more(answers, used, more);
                law_repeat_is_final(
                    exprs,
                    times - 1,
                    report.union(round),
                    inner.take(scope.len() as int),
                    unused(answers, used),
                    more,
                );
            },
            _ => {},
        }
    }
}

/// Only `let-scheduler` brings a scheduler into scope: after any other
/// expression, whether it ends or fails, just those that were in scope before
/// are. So schedulers that are defined inside `seq`, `saturate` or `repeat` do
/// not outlive it. Nor does `let-scheduler` define one where it fails.
pub proof fn law_scope_is_restored(expr: Expr, scope: Scope, answers: Seq<Answer>)
    ensures
        !(expr matches Expr::Call(_, head, _) && head@ == "let-scheduler"@) ==> leaves(
            eval(expr, scope, answers),
            scope,
        ),
        eval(expr, scope, answers) matches Outcome::Fault(_, after) ==> after == scope,
{
    if let Expr::Call(_, head, args) = expr {
        law_eval_all_keeps_books(args@, 0, no_report(), scope, answers);
        law_saturate_keeps_books(args@, no_report(), scope, answers);
        if let Some(n) = repeat_count(args@) {
            law_repeat_keeps_books(args@, n, no_report(), scope, answers);
        }
    }
}

/// The numbers of the engine's reports among the first `used` answers.
pub open spec fn reports_within(answers: Seq<Answer>, used: nat) -> Seq<usize>
    decreases used,
{
    if used == 0 || used > answers.len() {
        Seq::empty()
    } else {
        match answers[used - 1] {
            Answer::Ran { report, .. } => reports_within(answers, (used - 1) as nat).push(report),
            _ => reports_within(answers, (used - 1) as nat),
        }
    }
}

/// Whether `saturate` occurs in an expression.
pub open spec fn has_saturate(expr: Expr) -> bool
    decreases expr, 0int,
{
    match expr {
        Expr::Call(_, head, args) => head@ == "saturate"@ || any_has_saturate(args@, 0),
        _ => false,
    }
}

/// Whether `saturate` occurs in one of the expressions from the one at `next` on.
pub open spec fn any_has_saturate(exprs: Seq<Expr>, next: int) -> bool
    decreases exprs, exprs.len() - next,
{
    0 <= next < exprs.len() && (has_saturate(exprs[next]) || any_has_saturate(exprs, next + 1))
}

/// Whether an outcome's report is `before` and then every report that the
/// engine gave, in the order in which they came.
pub open spec fn reports_all(outcome: Outcome, before: Seq<usize>, answers: Seq<Answer>) -> bool {
    outcome matches Outcome::Done { report, used, .. } ==> report.parts == before + reports_within(
        answers,
        used,
    )
}

proof fn lemma_reports_within_split(answers: Seq<Answer>, first: nat, more: nat)
    requires
        first + more <= answers.len(),
    ensures
        reports_within(answers, first + more) == reports_within(answers, first) + reports_within(
            unused(answers, first),
            more,
        ),
    decreases more,
{
    if more == 0 {
        assert(reports_within(answers, first) + Seq::<usize>::empty() =~= reports_within(
            answers,
            first,
        ));
    } else {
        lemma_reports_within_split(answers, first, (more - 1) as nat);
        let rest = unused(answers, first);
        assert(rest[more - 1] == answers[first + more - 1]);
        assert(reports_within(answers, first + more) =~= reports_within(answers, first)
            + reports_within(rest, more));
    }
}

/// Without `saturate`, which drops the report of its last round, an
/// expression's report unites every report that the engine gave, in order.
pub proof fn law_eval_reports_all(expr: Expr, scope: Scope, answers: Seq<Answer>)
    requires
        !has_saturate(expr),
    ensures
        reports_all(eval(expr, scope, answers), Seq::empty(), answers),
    decreases answers.len(), expr, 0int, 0int,
{
    reveal_with_fuel(reports_within, 3);
    match expr {
        Expr::Call(_, head, args) => {
            if head@ == "seq"@ {
                law_eval_all_reports_all(args@, 0, no_report(), scope, answers);
            } else if head@ == "repeat"@ {
                if let Some(n) = repeat_count(args@) {
                    law_repeat_reports_all(args@, n, no_report(), scope, answers);
                }
            }
        },
        _ => {},
    }
    match eval(expr, scope, answers) {
        Outcome::Done { report, used, .. } => {
            assert(report.parts =~= Seq::<usize>::empty() + reports_within(answers, used));
        },
        _ => {},
    }
}

/// The same of expressions run one after the other.
pub proof fn law_eval_all_reports_all(
    exprs: Seq<Expr>,
    next: int,
    report: ReportView,
    scope: Scope,
    answers: Seq<Answer>,
)
    requires
        !any_has_saturate(exprs, next),
    ensures
        reports_all(eval_all(exprs, next, report, scope, answers), report.parts, answers),
    decreases
        answers.len(),
        exprs,
        if next <= exprs.len() {
            exprs.len() - next
        } else {
            0
        },
        0int,
{
    if 0 <= next < exprs.len() {
        law_eval_reports_all(exprs[next], scope, answers);
        law_eval_keeps_books(exprs[next], scope, answers);
        match eval(exprs[next], scope, answers) {
            Outcome::Done { scope: after, report: one, used } => {
                let rest = unused(answers, used);
                law_eval_all_reports_all(exprs, next + 1, report.union(one), after, rest);
                law_eval_all_keeps_books(exprs, next + 1, report.union(one), after, rest);
                match eval_all(exprs, next + 1, report.union(one), after, rest) {
                    Outcome::Done { report: whole, used: later_used, .. } => {
                        lemma_reports_within_split(answers, used, later_used);
                        assert(whole.parts =~= report.parts + reports_within(
                            answers,
                            used + later_used,
                        ));
                    },
                    _ => {},
                }
            },
            _ => {},
        }
    } else {
        assert(report.parts =~= report.parts + reports_within(answers, 0));
    }
}

/// The same of `repeat`.
pub proof fn law_repeat_reports_all(
    exprs: Seq<Expr>,
    times: int,
    report: ReportView,
    scope: Scope,
    answers: Seq<Answer>,
)
    requires
        !any_has_saturate(exprs, 0),
    ensures
        reports_all(repeat(exprs, times, report, scope, answers), report.parts, answers),
    decreases answers.len(), exprs, exprs.len() + 1, times,
{
    if times > 0 {
        law_eval_all_reports_all(exprs, 1, no_report(), scope, answers);
        law_eval_all_keeps_books(exprs, 1, no_report(), scope, answers);
        match eval_all(exprs, 1, no_report(), scope, answers) {
            Outcome::Done { scope: inner, report: round, used } => {
                let rest = unused(answers, used);
                let outer = inner.take(scope.len() as int);
                law_repeat_reports_all(exprs, times - 1, report.union(round), outer, rest);
                law_repeat_keeps_books(exprs, times - 1, report.union(round), outer, rest);
                match repeat(exprs, times - 1, report.union(round), outer, rest) {
                    Outcome::Done { report: whole, used: later_used, .. } => {
                        lemma_reports_within_split(answers, used, later_used);
                        assert(whole.parts =~= report.parts + reports_within(
                            answers,
                            used + later_used,
                        ));
                    },
                    _ => {},
                }
            },
            _ => {},
        }
    } else {
        assert(report.parts =~= report.parts + reports_within(answers, 0));
    }
}

/// A round of `saturate`: how many answers were used when it started and when it
/// ended, and its report.
pub struct Round {
    pub start: nat,
    pub end: nat,
    pub report: ReportView,
}

/// The rounds of `saturate`, from the one on that starts when `start` answers
/// are used.
pub open spec fn rounds(
    exprs: Seq<Expr>,
    scope: Scope,
    answers: Seq<Answer>,
    start: nat,
) -> Seq<Round>
    decreases answers.len() - start,
{
    match eval_all(exprs, 0, no_report(), scope, unused(answers, start)) {
        Outcome::Done { report, used, .. } => {
            let round = Round { start, end: start + used, report };
            if report.updated && used > 0 && start + used <= answers.len() {
                seq![round] + rounds(exprs, scope, answers, start + used)
            } else {
                seq![round]
            }
        },
        _ => Seq::empty(),
    }
}

/// The union of a report and those of rounds, in order.
pub open spec fn united(report: ReportView, rounds: Seq<Round>) -> ReportView
    decreases rounds.len(),
{
    if rounds.len() == 0 {
        report
    } else {
        united(report.union(rounds[0].report), rounds.skip(1))
    }
}

/// Whether these are rounds that follow each other from `start` on, each with
/// the same schedulers in scope, of which all but the last update the database.
pub open spec fn are_rounds(
    exprs: Seq<Expr>,
    scope: Scope,
    answers: Seq<Answer>,
    start: nat,
    all: Seq<Round>,
) -> bool {
    &&& all.len() > 0
    &&& all[0].start == start
    &&& forall|i: int| 0 < i < all.len() ==> (#[trigger] all[i]).start == all[i - 1].end
    &&& forall|i: int|
        0 <= i < all.len() ==> (eval_all(
            exprs,
            0,
            no_report(),
            scope,
            unused(answers, (#[trigger] all[i]).start),
        ) matches Outcome::Done { report, used, .. } && report == all[i].report && all[i].start
            + used == all[i].end)
    &&& forall|i: int|
        0 <= i < all.len() ==> ((#[trigger] all[i]).report.updated <==> i < all.len() - 1)
}

/// `saturate` runs rounds that update the database, and then ends with one that
/// does not. Its report unites those of all rounds but that last one.
pub proof fn law_saturate_ends_quietly(
    exprs: Seq<Expr>,
    report: ReportView,
    scope: Scope,
    answers: Seq<Answer>,
)
    ensures
        saturate(exprs, report, scope, answers) matches Outcome::Done { report: whole, used, .. }
            ==> {
            let all = rounds(exprs, scope, answers, 0);
            &&& are_rounds(exprs, scope, answers, 0, all)
            &&& all.last().end == used
            &&& whole == united(report, all.drop_last())
        },
{
    assert(unused(answers, 0) =~= answers);
    lemma_rounds(exprs, report, scope, answers, 0);
}

proof fn lemma_rounds(
    exprs: Seq<Expr>,
    report: ReportView,
    scope: Scope,
    answers: Seq<Answer>,
    start: nat,
)
    requires
        start <= answers.len(),
    ensures
        saturate(exprs, report, scope, unused(answers, start)) matches Outcome::Done {
            report: whole,
            used,
            ..
        } ==> {
            let all = rounds(exprs, scope, answers, start);
            &&& are_rounds(exprs, scope, answers, start, all)
            &&& all.last().end == start + used
            &&& whole == united(report, all.drop_last())
        },
    decreases answers.len() - start,
{
    let here = unused(answers, start);
    if let Outcome::Done { report: whole, used, .. } = saturate(exprs, report, scope, here) {
        law_eval_all_keeps_books(exprs, 0, no_report(), scope, here);
        if let Outcome::Done { report: round, used: first, .. } = eval_all(
            exprs,
            0,
            no_report(),
            scope,
            here,
        ) {
            let all = rounds(exprs, scope, answers, start);
            if !round.updated {
                assert(all.drop_last() =~= Seq::empty());
            } else {
                let next = start + first;
                let later_rounds = rounds(exprs, scope, answers, next);
                assert(unused(here, first) =~= unused(answers, next));
                lemma_rounds(exprs, report.union(round), scope, answers, next);
                assert(all =~= seq![all[0]] + later_rounds);
                assert forall|i: int| 0 < i < all.len() implies #[trigger] all[i]
                    == later_rounds[i - 1] by {}
                assert(all.drop_last().skip(1) =~= later_rounds.drop_last());
                assert(all.last() == later_rounds.last());
                assert forall|i: int| 0 < i < all.len() implies (#[trigger] all[i]).start == all[i
                    - 1].end by {
                    if i > 1 {
                        assert(all[i - 1] == later_rounds[i - 2]);
                        assert(later_rounds[i - 1].start == later_rounds[i - 2].end);
                    }
                }
            }
        }
    }
}

/// Rules with a condition are not run where the condition holds, and are run
/// just as without it where it does not.
pub proof fn law_until(
    at: usize,
    kind: RunKind,
    args: Seq<Expr>,
    from: int,
    scope: Scope,
    holds: bool,
    answers: Seq<Answer>,
)
    requires
        run_form(args, from) is Until,
    ensures
        eval_run(at, kind, args, from, scope, seq![Answer::Checked { holds }] + answers) == if holds {
            Outcome::Done { scope, report: no_report(), used: 1 }
        } else {
            later(run_rules(kind, run_form(args, from)->Until_0, scope, answers), 1)
        },
{
    let all = seq![Answer::Checked { holds }] + answers;
    assert(all[0] == (Answer::Checked { holds }));
    assert(all.skip(1) =~= answers);
}

} // verus!
