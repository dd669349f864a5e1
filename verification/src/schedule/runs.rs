//! What a run of a schedule consists of: which expressions are run, in which
//! order, how often, and what each of them asks for.

use vstd::prelude::*;

use crate::expr::Expr;
use crate::schedule::laws::{law_eval_all_keeps_books, law_eval_keeps_books};
use crate::schedule::semantics::{
    eval, eval_all, later, no_report, repeat, saturate, unused, Answer, Ask, Outcome, ReportView,
    Scope,
};

verus! {

/// An expression that was run: the schedulers in scope before and after it, how
/// many answers were used before and after it, and its report.
pub struct Stretch {
    pub scope: Scope,
    pub after: Scope,
    pub start: nat,
    pub end: nat,
    pub report: ReportView,
}

/// How many answers are used at the end of stretches.
pub open spec fn end_of(all: Seq<Stretch>) -> nat {
    if all.len() == 0 {
        0
    } else {
        all.last().end
    }
}

/// The schedulers in scope at the end of stretches that started with `scope`.
pub open spec fn scope_after(all: Seq<Stretch>, scope: Scope) -> Scope {
    if all.len() == 0 {
        scope
    } else {
        all.last().after
    }
}

/// Whether a report is another one with those of stretches behind it: it says
/// updated if one of them does, and lists what they list, in order.
pub open spec fn adds_up(whole: ReportView, first: ReportView, all: Seq<Stretch>) -> bool {
    &&& whole.updated <==> first.updated || exists|i: int|
        0 <= i < all.len() && (#[trigger] all[i]).report.updated
    &&& whole.parts == first.parts + all.map_values(|one: Stretch| one.report.parts).flatten()
}

/// Whether the expressions from the one at `next` on were run one after the
/// other, as many of them as there are stretches, each where the one before it
/// ended.
pub open spec fn in_turn(
    exprs: Seq<Expr>,
    next: int,
    scope: Scope,
    answers: Seq<Answer>,
    all: Seq<Stretch>,
) -> bool {
    &&& next + all.len() <= exprs.len()
    &&& forall|i: int|
        0 <= i < all.len() ==> #[trigger] follows(exprs, next, scope, answers, all, i)
}

/// Whether a stretch is that of its expression, and starts where the one before
/// it ended.
pub open spec fn follows(
    exprs: Seq<Expr>,
    next: int,
    scope: Scope,
    answers: Seq<Answer>,
    all: Seq<Stretch>,
    i: int,
) -> bool {
    &&& all[i].start == end_of(all.take(i))
    &&& all[i].scope == scope_after(all.take(i), scope)
    &&& is_stretch(exprs[next + i], all[i], answers)
}

/// Whether this is what an expression comes to.
#[verifier::opaque]
pub open spec fn is_stretch(expr: Expr, one: Stretch, answers: Seq<Answer>) -> bool {
    &&& one.start <= one.end <= answers.len()
    &&& eval(expr, one.scope, answers.skip(one.start as int)) == (Outcome::Done {
        scope: one.after,
        report: one.report,
        used: (one.end - one.start) as nat,
    })
}

proof fn lemma_shifted_stretch(expr: Expr, one: Stretch, by: nat, answers: Seq<Answer>)
    requires
        by <= answers.len(),
        is_stretch(expr, one, answers.skip(by as int)),
    ensures
        is_stretch(expr, shifted(one, by), answers),
{
    reveal(is_stretch);
    assert(answers.skip(by as int).skip(one.start as int) =~= answers.skip(
        (one.start + by) as int,
    ));
}

proof fn lemma_flatten_front(first: Seq<usize>, rest: Seq<Seq<usize>>)
    ensures
        (seq![first] + rest).flatten() == first + rest.flatten(),
{
    assert((seq![first] + rest).drop_first() =~= rest);
}

proof fn lemma_adds_up_front(
    whole: ReportView,
    first: ReportView,
    one: Stretch,
    rest: Seq<Stretch>,
    all: Seq<Stretch>,
)
    requires
        adds_up(whole, first.union(one.report), rest),
        all.len() == rest.len() + 1,
        all[0].report == one.report,
        forall|i: int| 0 <= i < rest.len() ==> (#[trigger] rest[i]).report == all[i + 1].report,
    ensures
        adds_up(whole, first, all),
{
    let parts = |one: Stretch| one.report.parts;
    assert(all.map_values(parts) =~= seq![one.report.parts] + rest.map_values(parts));
    lemma_flatten_front(one.report.parts, rest.map_values(parts));
    assert(whole.parts =~= first.parts + all.map_values(parts).flatten());
    if exists|i: int| 0 <= i < rest.len() && (#[trigger] rest[i]).report.updated {
        let i = choose|i: int| 0 <= i < rest.len() && (#[trigger] rest[i]).report.updated;
        assert(all[i + 1].report.updated);
    }
    if exists|i: int| 0 <= i < all.len() && (#[trigger] all[i]).report.updated {
        let i = choose|i: int| 0 <= i < all.len() && (#[trigger] all[i]).report.updated;
        if i > 0 {
            assert(rest[i - 1].report.updated);
        }
    }
    if one.report.updated {
        assert(all[0].report.updated);
    }
}

proof fn lemma_adds_up_none(first: ReportView)
    ensures
        adds_up(first, first, Seq::empty()),
{
    let parts = |one: Stretch| one.report.parts;
    assert(Seq::<Stretch>::empty().map_values(parts) =~= Seq::empty());
    assert(first.parts + Seq::<usize>::empty() =~= first.parts);
}

/// A stretch that starts later.
spec fn shifted(one: Stretch, by: nat) -> Stretch {
    Stretch { start: one.start + by, end: one.end + by, ..one }
}

/// A first stretch, and those that follow it.
spec fn with_front(first: Stretch, rest: Seq<Stretch>) -> Seq<Stretch> {
    seq![first] + rest.map_values(|one: Stretch| shifted(one, first.end))
}

proof fn lemma_with_front(first: Stretch, rest: Seq<Stretch>, scope: Scope, i: int)
    requires
        0 <= i <= rest.len(),
    ensures
        end_of(with_front(first, rest).take(i + 1)) == first.end + end_of(rest.take(i)),
        scope_after(with_front(first, rest).take(i + 1), scope) == scope_after(
            rest.take(i),
            first.after,
        ),
{
    let all = with_front(first, rest);
    if i > 0 {
        assert(all.take(i + 1).last() == all[i]);
        assert(all[i] == shifted(rest[i - 1], first.end));
        assert(rest.take(i).last() == rest[i - 1]);
    } else {
        assert(all.take(1).last() == all[0]);
    }
}

proof fn lemma_in_turn_front(
    exprs: Seq<Expr>,
    next: int,
    scope: Scope,
    answers: Seq<Answer>,
    first: Stretch,
    rest: Seq<Stretch>,
)
    requires
        0 <= next < exprs.len(),
        first.start == 0,
        first.scope == scope,
        first.end <= answers.len(),
        is_stretch(exprs[next], first, answers),
        in_turn(exprs, next + 1, first.after, answers.skip(first.end as int), rest),
    ensures
        in_turn(exprs, next, scope, answers, with_front(first, rest)),
        end_of(with_front(first, rest)) == first.end + end_of(rest),
        scope_after(with_front(first, rest), scope) == scope_after(rest, first.after),
{
    let all = with_front(first, rest);
    let tail = answers.skip(first.end as int);
    assert(answers.skip(0) =~= answers);
    assert forall|i: int| 0 <= i < all.len() implies #[trigger] follows(
        exprs,
        next,
        scope,
        answers,
        all,
        i,
    ) by {
        if i > 0 {
            assert(all[i] == shifted(rest[i - 1], first.end));
            assert(follows(exprs, next + 1, first.after, answers.skip(first.end as int), rest, i - 1));
            lemma_with_front(first, rest, scope, i - 1);
            assert(exprs[next + 1 + (i - 1)] == exprs[next + i]);
            lemma_shifted_stretch(exprs[next + i], rest[i - 1], first.end, answers);
        }
    }
    lemma_with_front(first, rest, scope, rest.len() as int);
    assert(all.take(all.len() as int) =~= all);
    assert(rest.take(rest.len() as int) =~= rest);
}

/// Whether this is what becomes of an expression.
#[verifier::opaque]
pub open spec fn becomes(expr: Expr, scope: Scope, answers: Seq<Answer>, outcome: Outcome) -> bool {
    eval(expr, scope, answers) == outcome
}

/// Whether an outcome is that of all expressions from the one at `next` on,
/// where as many of them came to their ends as there are stretches.
pub open spec fn comes_of(
    outcome: Outcome,
    exprs: Seq<Expr>,
    next: int,
    report: ReportView,
    scope: Scope,
    answers: Seq<Answer>,
    all: Seq<Stretch>,
) -> bool {
    match outcome {
        Outcome::Done { scope: after, report: whole, used } => {
            &&& next + all.len() == exprs.len()
            &&& after == scope_after(all, scope)
            &&& used == end_of(all)
            &&& adds_up(whole, report, all)
        },
        other => {
            &&& next + all.len() < exprs.len()
            &&& end_of(all) <= answers.len()
            &&& becomes(
                exprs[next + all.len()],
                scope_after(all, scope),
                answers.skip(end_of(all) as int),
                other,
            )
        },
    }
}

/// Expressions are run one after the other, each once, until one of them does
/// not come to its end: then what becomes of that one becomes of all. If all
/// come to their ends, their reports are united.
pub proof fn law_one_after_the_other(
    exprs: Seq<Expr>,
    next: int,
    report: ReportView,
    scope: Scope,
    answers: Seq<Answer>,
)
    requires
        0 <= next <= exprs.len(),
    ensures
        exists|all: Seq<Stretch>| #[trigger]
            in_turn(exprs, next, scope, answers, all) && comes_of(
                eval_all(exprs, next, report, scope, answers),
                exprs,
                next,
                report,
                scope,
                answers,
                all,
            ),
    decreases exprs.len() - next,
{
    let none = Seq::<Stretch>::empty();
    if next == exprs.len() {
        lemma_adds_up_none(report);
        assert(in_turn(exprs, next, scope, answers, none));
    } else {
        law_eval_keeps_books(exprs[next], scope, answers);
        match eval(exprs[next], scope, answers) {
            Outcome::Done { scope: after, report: more, used } => {
                let tail = answers.skip(used as int);
                let whole = report.union(more);
                let first = Stretch { scope, after, start: 0, end: used, report: more };
                assert(is_stretch(exprs[next], first, answers)) by {
                    reveal(is_stretch);
                    assert(answers.skip(0) =~= answers);
                }
                law_one_after_the_other(exprs, next + 1, whole, after, tail);
                let outcome = eval_all(exprs, next + 1, whole, after, tail);
                let rest = choose|rest: Seq<Stretch>| #[trigger]
                    in_turn(exprs, next + 1, after, tail, rest) && comes_of(
                        outcome,
                        exprs,
                        next + 1,
                        whole,
                        after,
                        tail,
                        rest,
                    );
                lemma_comes_of_front(outcome, exprs, next, report, scope, answers, first, rest);
                let all = with_front(first, rest);
                assert(in_turn(exprs, next, scope, answers, all));
            },
            other => {
                assert(becomes(exprs[next], scope, answers.skip(0), other)) by {
                    reveal(becomes);
                    assert(answers.skip(0) =~= answers);
                }
                assert(in_turn(exprs, next, scope, answers, none));
            },
        }
    }
}

proof fn lemma_comes_of_front(
    outcome: Outcome,
    exprs: Seq<Expr>,
    next: int,
    report: ReportView,
    scope: Scope,
    answers: Seq<Answer>,
    first: Stretch,
    rest: Seq<Stretch>,
)
    requires
        0 <= next < exprs.len(),
        first.start == 0,
        first.scope == scope,
        first.end <= answers.len(),
        is_stretch(exprs[next], first, answers),
        in_turn(exprs, next + 1, first.after, answers.skip(first.end as int), rest),
        comes_of(
            outcome,
            exprs,
            next + 1,
            report.union(first.report),
            first.after,
            answers.skip(first.end as int),
            rest,
        ),
    ensures
        in_turn(exprs, next, scope, answers, with_front(first, rest)),
        comes_of(
            later(outcome, first.end),
            exprs,
            next,
            report,
            scope,
            answers,
            with_front(first, rest),
        ),
{
    let all = with_front(first, rest);
    let tail = answers.skip(first.end as int);
    lemma_in_turn_front(exprs, next, scope, answers, first, rest);
    match outcome {
        Outcome::Done { report: whole, .. } => {
            lemma_adds_up_front(whole, report, first, rest, all);
        },
        other => {
            assert(tail.skip(end_of(rest) as int) =~= answers.skip(end_of(all) as int));
            assert(exprs[next + 1 + rest.len()] == exprs[next + all.len()]);
        },
    }
}

/// Whether this is what a round of the expressions from the one at `from` on
/// comes to.
#[verifier::opaque]
pub open spec fn is_round(exprs: Seq<Expr>, from: int, one: Stretch, answers: Seq<Answer>) -> bool {
    &&& one.start <= one.end <= answers.len()
    &&& eval_all(
        exprs,
        from,
        ReportView { updated: false, parts: Seq::empty() },
        one.scope,
        answers.skip(one.start as int),
    ) == (Outcome::Done {
        scope: one.after,
        report: one.report,
        used: (one.end - one.start) as nat,
    })
}

/// Whether all these are rounds of the expressions from the one at `from` on,
/// one after the other, each with just `scope` in scope at its start.
pub open spec fn rounds_in_turn(
    exprs: Seq<Expr>,
    from: int,
    scope: Scope,
    answers: Seq<Answer>,
    all: Seq<Stretch>,
) -> bool {
    forall|i: int|
        0 <= i < all.len() ==> #[trigger] follows_round(exprs, from, scope, answers, all, i)
}

/// Whether this is a round that starts where the one before it ended.
pub open spec fn follows_round(
    exprs: Seq<Expr>,
    from: int,
    scope: Scope,
    answers: Seq<Answer>,
    all: Seq<Stretch>,
    i: int,
) -> bool {
    &&& all[i].start == end_of(all.take(i))
    &&& all[i].scope == scope
    &&& is_round(exprs, from, all[i], answers)
}

/// Whether a block comes to the same as a round that does not come to its end:
/// the same request or the same fault, with just `scope` in scope.
#[verifier::opaque]
pub open spec fn breaks_off(
    outcome: Outcome,
    exprs: Seq<Expr>,
    from: int,
    scope: Scope,
    answers: Seq<Answer>,
) -> bool {
    match eval_all(
        exprs,
        from,
        ReportView { updated: false, parts: Seq::empty() },
        scope,
        answers,
    ) {
        Outcome::Done { .. } => false,
        Outcome::Fault(fault, _) => outcome == Outcome::Fault(fault, scope),
        Outcome::Ask(ask) => outcome == Outcome::Ask(ask),
        Outcome::Stuck => outcome is Stuck,
    }
}

proof fn lemma_shifted_round(
    exprs: Seq<Expr>,
    from: int,
    one: Stretch,
    by: nat,
    answers: Seq<Answer>,
)
    requires
        by <= answers.len(),
        is_round(exprs, from, one, answers.skip(by as int)),
    ensures
        is_round(exprs, from, shifted(one, by), answers),
{
    reveal(is_round);
    assert(answers.skip(by as int).skip(one.start as int) =~= answers.skip(
        (one.start + by) as int,
    ));
}

proof fn lemma_rounds_front(
    exprs: Seq<Expr>,
    from: int,
    scope: Scope,
    answers: Seq<Answer>,
    first: Stretch,
    rest: Seq<Stretch>,
)
    requires
        first.start == 0,
        first.scope == scope,
        first.end <= answers.len(),
        is_round(exprs, from, first, answers),
        rounds_in_turn(exprs, from, scope, answers.skip(first.end as int), rest),
    ensures
        rounds_in_turn(exprs, from, scope, answers, with_front(first, rest)),
        end_of(with_front(first, rest)) == first.end + end_of(rest),
{
    let all = with_front(first, rest);
    assert forall|i: int| 0 <= i < all.len() implies #[trigger] follows_round(
        exprs,
        from,
        scope,
        answers,
        all,
        i,
    ) by {
        if i > 0 {
            assert(all[i] == shifted(rest[i - 1], first.end));
            assert(follows_round(exprs, from, scope, answers.skip(first.end as int), rest, i - 1));
            lemma_with_front(first, rest, scope, i - 1);
            lemma_shifted_round(exprs, from, rest[i - 1], first.end, answers);
        }
    }
    lemma_with_front(first, rest, scope, rest.len() as int);
    assert(all.take(all.len() as int) =~= all);
    assert(rest.take(rest.len() as int) =~= rest);
}

/// A round, taken as a stretch.
proof fn lemma_first_round(exprs: Seq<Expr>, from: int, scope: Scope, answers: Seq<Answer>)
    ensures
        match eval_all(exprs, from, no_report(), scope, answers) {
            Outcome::Done { scope: inner, report, used } => {
                &&& used <= answers.len()
                &&& inner.take(scope.len() as int) == scope
                &&& report.updated ==> used > 0
                &&& is_round(
                    exprs,
                    from,
                    Stretch { scope, after: inner, start: 0, end: used, report },
                    answers,
                )
            },
            Outcome::Fault(fault, inner) => {
                &&& inner.take(scope.len() as int) == scope
                &&& breaks_off(
                    Outcome::Fault(fault, scope),
                    exprs,
                    from,
                    scope,
                    answers.skip(0),
                )
            },
            other => breaks_off(other, exprs, from, scope, answers.skip(0)),
        },
{
    reveal(is_round);
    reveal(breaks_off);
    assert(answers.skip(0) =~= answers);
    law_eval_all_keeps_books(exprs, from, no_report(), scope, answers);
}

/// Whether an outcome is that of so many rounds, of which as many came to their
/// ends as there are stretches.
pub open spec fn repeat_comes_of(
    outcome: Outcome,
    exprs: Seq<Expr>,
    times: int,
    report: ReportView,
    scope: Scope,
    answers: Seq<Answer>,
    all: Seq<Stretch>,
) -> bool {
    match outcome {
        Outcome::Done { scope: after, report: whole, used } => {
            &&& all.len() == if times > 0 {
                times
            } else {
                0
            }
            &&& after == scope
            &&& used == end_of(all)
            &&& adds_up(whole, report, all)
        },
        other => {
            &&& all.len() < times
            &&& end_of(all) <= answers.len()
            &&& breaks_off(other, exprs, 1, scope, answers.skip(end_of(all) as int))
        },
    }
}

/// `repeat` runs just as many rounds as it says, whatever they report, each
/// where the one before it ended and with the same schedulers in scope. Its
/// report unites those of all rounds. A round that does not come to its end ends
/// the whole.
pub proof fn law_repeat_runs_its_rounds(
    exprs: Seq<Expr>,
    times: int,
    report: ReportView,
    scope: Scope,
    answers: Seq<Answer>,
)
    ensures
        exists|all: Seq<Stretch>| #[trigger]
            rounds_in_turn(exprs, 1, scope, answers, all) && repeat_comes_of(
                repeat(exprs, times, report, scope, answers),
                exprs,
                times,
                report,
                scope,
                answers,
                all,
            ),
    decreases times,
{
    let none = Seq::<Stretch>::empty();
    if times <= 0 {
        lemma_adds_up_none(report);
        assert(rounds_in_turn(exprs, 1, scope, answers, none));
    } else {
        lemma_first_round(exprs, 1, scope, answers);
        match eval_all(exprs, 1, no_report(), scope, answers) {
            Outcome::Done { scope: inner, report: round, used } => {
                let tail = answers.skip(used as int);
                let whole = report.union(round);
                let first = Stretch { scope, after: inner, start: 0, end: used, report: round };
                law_repeat_runs_its_rounds(exprs, times - 1, whole, scope, tail);
                let outcome = repeat(exprs, times - 1, whole, scope, tail);
                let rest = choose|rest: Seq<Stretch>| #[trigger]
                    rounds_in_turn(exprs, 1, scope, tail, rest) && repeat_comes_of(
                        outcome,
                        exprs,
                        times - 1,
                        whole,
                        scope,
                        tail,
                        rest,
                    );
                let all = with_front(first, rest);
                lemma_rounds_front(exprs, 1, scope, answers, first, rest);
                assert(rounds_in_turn(exprs, 1, scope, answers, all));
                match outcome {
                    Outcome::Done { report: united, .. } => {
                        lemma_adds_up_front(united, report, first, rest, all);
                    },
                    _ => {
                        assert(tail.skip(end_of(rest) as int) =~= answers.skip(
                            end_of(all) as int,
                        ));
                    },
                }
            },
            _ => {
                assert(rounds_in_turn(exprs, 1, scope, answers, none));
            },
        }
    }
}

/// Whether an outcome is that of rounds that are run as long as they update the
/// database, of which as many came to their ends as there are stretches.
pub open spec fn saturate_comes_of(
    outcome: Outcome,
    exprs: Seq<Expr>,
    report: ReportView,
    scope: Scope,
    answers: Seq<Answer>,
    all: Seq<Stretch>,
) -> bool {
    match outcome {
        Outcome::Done { scope: after, report: whole, used } => {
            &&& all.len() > 0
            &&& forall|i: int|
                0 <= i < all.len() ==> ((#[trigger] all[i]).report.updated <==> i < all.len() - 1)
            &&& after == scope
            &&& used == end_of(all)
            &&& adds_up(whole, report, all.drop_last())
        },
        other => {
            &&& forall|i: int| 0 <= i < all.len() ==> (#[trigger] all[i]).report.updated
            &&& end_of(all) <= answers.len()
            &&& breaks_off(other, exprs, 0, scope, answers.skip(end_of(all) as int))
        },
    }
}

/// `saturate` runs rounds as long as they update the database, each where the
/// one before it ended and with the same schedulers in scope, and ends with the
/// first that does not. Its report unites those of the rounds before that one. A
/// round that does not come to its end ends the whole.
pub proof fn law_saturate_runs_its_rounds(
    exprs: Seq<Expr>,
    report: ReportView,
    scope: Scope,
    answers: Seq<Answer>,
)
    ensures
        exists|all: Seq<Stretch>| #[trigger]
            rounds_in_turn(exprs, 0, scope, answers, all) && saturate_comes_of(
                saturate(exprs, report, scope, answers),
                exprs,
                report,
                scope,
                answers,
                all,
            ),
    decreases answers.len(),
{
    let none = Seq::<Stretch>::empty();
    lemma_first_round(exprs, 0, scope, answers);
    match eval_all(exprs, 0, no_report(), scope, answers) {
        Outcome::Done { scope: inner, report: round, used } => {
            let tail = answers.skip(used as int);
            let whole = report.union(round);
            let first = Stretch { scope, after: inner, start: 0, end: used, report: round };
            if !round.updated {
                lemma_rounds_front(exprs, 0, scope, answers, first, none);
                let all = with_front(first, none);
                assert(rounds_in_turn(exprs, 0, scope, answers, all));
                assert(all.drop_last() =~= none);
                lemma_adds_up_none(report);
            } else {
                law_saturate_runs_its_rounds(exprs, whole, scope, tail);
                let outcome = saturate(exprs, whole, scope, tail);
                let rest = choose|rest: Seq<Stretch>| #[trigger]
                    rounds_in_turn(exprs, 0, scope, tail, rest) && saturate_comes_of(
                        outcome,
                        exprs,
                        whole,
                        scope,
                        tail,
                        rest,
                    );
                lemma_rounds_front(exprs, 0, scope, answers, first, rest);
                let all = with_front(first, rest);
                assert(rounds_in_turn(exprs, 0, scope, answers, all));
                lemma_saturate_front(outcome, exprs, report, scope, answers, first, rest);
            }
        },
        _ => {
            assert(rounds_in_turn(exprs, 0, scope, answers, none));
        },
    }
}

proof fn lemma_saturate_front(
    outcome: Outcome,
    exprs: Seq<Expr>,
    report: ReportView,
    scope: Scope,
    answers: Seq<Answer>,
    first: Stretch,
    rest: Seq<Stretch>,
)
    requires
        first.report.updated,
        first.end <= answers.len(),
        end_of(with_front(first, rest)) == first.end + end_of(rest),
        saturate_comes_of(
            outcome,
            exprs,
            report.union(first.report),
            scope,
            answers.skip(first.end as int),
            rest,
        ),
    ensures
        saturate_comes_of(
            later(outcome, first.end),
            exprs,
            report,
            scope,
            answers,
            with_front(first, rest),
        ),
{
    let all = with_front(first, rest);
    let tail = answers.skip(first.end as int);
    assert forall|i: int| 0 < i < all.len() implies (#[trigger] all[i]).report == rest[i
        - 1].report by {
        assert(all[i] == shifted(rest[i - 1], first.end));
    }
    match outcome {
        Outcome::Done { report: united, .. } => {
            let front = rest.drop_last();
            assert forall|i: int| 0 <= i < front.len() implies (#[trigger] front[i]).report
                == all.drop_last()[i + 1].report by {
                assert(all[i + 1].report == rest[i].report);
            }
            lemma_adds_up_front(united, report, first, front, all.drop_last());
        },
        _ => {
            assert(tail.skip(end_of(rest) as int) =~= answers.skip(end_of(all) as int));
        },
    }
}

/// A repeated ruleset is run just as often as `repeat` says: each round uses one
/// answer, and its report is one more part of the whole.
pub proof fn law_repeat_of_one_ruleset(
    exprs: Seq<Expr>,
    times: int,
    report: ReportView,
    scope: Scope,
    answers: Seq<Answer>,
)
    requires
        exprs.len() == 2,
        exprs[1] is Var,
        times >= 0,
    ensures
        repeat(exprs, times, report, scope, answers) matches Outcome::Done {
            report: whole,
            used,
            ..
        } ==> used == times && whole.parts.len() == report.parts.len() + times,
        answers.len() >= times && (forall|i: int|
            0 <= i < times ==> (#[trigger] answers[i]) is Ran) ==> repeat(
            exprs,
            times,
            report,
            scope,
            answers,
        ) is Done,
    decreases times,
{
    if times > 0 {
        reveal_with_fuel(eval_all, 3);
        lemma_first_round(exprs, 1, scope, answers);
        let round = eval_all(exprs, 1, no_report(), scope, answers);
        if let Outcome::Done { scope: inner, report: more, used } = round {
            assert(used == 1 && more.parts.len() == 1);
            let tail = unused(answers, 1);
            assert forall|i: int| 0 <= i < tail.len() implies #[trigger] tail[i] == answers[i
                + 1] by {}
            law_repeat_of_one_ruleset(exprs, times - 1, report.union(more), scope, tail);
        }
    }
}

} // verus!
