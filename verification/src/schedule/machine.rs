//! The machine that runs extended schedules.
//!
//! The engine is not called from here: the machine says which request it makes,
//! and is told the answer.

use vstd::prelude::*;

use crate::expr::{Expr, Literal};
use crate::schedule::laws::law_eval_all_keeps_books;
use crate::schedule::semantics::{
    define_scheduler, eval, eval_all, eval_let, eval_run, eval_run_with, in_scope, later, no_report,
    repeat, repeat_count, run_form, run_rules, run_schedule, run_unless, saturate, scheduler_of,
    until_form, unused, verdict, Answer, FaultView, Outcome, ReportView, RunForm, RunKind, Scope,
    Verdict,
};

verus! {

/// A run report in the making: whether the database was updated, and the
/// engine's reports that are to be united, in order.
#[derive(Debug)]
pub struct Report {
    pub updated: bool,
    pub parts: Vec<usize>,
}

impl View for Report {
    type V = ReportView;

    open spec fn view(&self) -> ReportView {
        ReportView { updated: self.updated, parts: self.parts@ }
    }
}

impl Report {
    /// The report of a run in which nothing happened.
    pub fn new() -> (report: Report)
        ensures
            report@ == no_report(),
    {
        Report { updated: false, parts: Vec::new() }
    }

    /// The report of a single run of rules.
    pub fn of(updated: bool, part: usize) -> (report: Report)
        ensures
            report@ == (ReportView { updated, parts: seq![part] }),
    {
        let mut parts: Vec<usize> = Vec::new();
        parts.push(part);
        assert(parts@ =~= seq![part]);
        Report { updated, parts }
    }

    /// Adds another report to this one.
    pub fn union(&mut self, other: Report)
        ensures
            final(self)@ == old(self)@.union(other@),
    {
        let mut other_parts: Vec<usize> = other.parts;
        self.parts.append(&mut other_parts);
        self.updated = self.updated || other.updated;
    }
}

/// Why a schedule fails.
#[derive(Debug)]
pub enum Fault {
    /// The expression at this position is no schedule.
    Invalid { at: usize },
    /// The expression at this position names a scheduler that exists already.
    Duplicate { at: usize, name: String },
    /// The engine returned an error.
    Engine,
}

impl View for Fault {
    type V = FaultView;

    open spec fn view(&self) -> FaultView {
        match self {
            Fault::Invalid { at } => FaultView::Invalid { at: *at },
            Fault::Duplicate { at, name } => FaultView::Duplicate { at: *at, name: name@ },
            Fault::Engine => FaultView::Engine,
        }
    }
}

/// What the machine is at.
#[derive(Debug)]
pub enum Status<'a> {
    /// This expression is to be run next.
    Next(&'a Expr),
    /// Rules are to be run.
    Run { kind: RunKind, ruleset: &'a str },
    /// A condition is to be checked; unless it holds, rules are to be run.
    Check { condition: &'a Expr, kind: RunKind, ruleset: &'a str },
    /// A scheduler is to be built; it will be known by `name`.
    Build { name: &'a str, builder: &'a str, args: &'a [Expr] },
    /// The schedule ran to its end.
    Finished(Report),
    /// The schedule fails.
    Failed(Fault),
    /// The schedule has no meaning from this expression on.
    Stuck(&'a Expr),
}

/// A status, as contracts see it.
pub enum StatusView {
    Next(Expr),
    Run(RunKind, Seq<char>),
    Check(Expr, RunKind, Seq<char>),
    Build(Seq<char>, Seq<char>, Seq<Expr>),
    Finished(ReportView),
    Failed(FaultView),
    Stuck,
}

impl<'a> View for Status<'a> {
    type V = StatusView;

    open spec fn view(&self) -> StatusView {
        match self {
            Status::Next(expr) => StatusView::Next(**expr),
            Status::Run { kind, ruleset } => StatusView::Run(*kind, ruleset@),
            Status::Check { condition, kind, ruleset } => StatusView::Check(
                **condition,
                *kind,
                ruleset@,
            ),
            Status::Build { name, builder, args } => StatusView::Build(name@, builder@, args@),
            Status::Finished(report) => StatusView::Finished(report@),
            Status::Failed(fault) => StatusView::Failed(fault@),
            Status::Stuck(_) => StatusView::Stuck,
        }
    }
}

/// What a sequence of expressions is run for.
#[derive(Debug, Clone, Copy)]
pub enum Kind {
    /// The whole schedule.
    Top,
    Sequence,
    Saturate,
    /// With the number of rounds that are left, the present one among them.
    Repeat(i64),
}

/// A sequence of expressions that is being run.
struct Frame<'a> {
    kind: Kind,
    body: &'a [Expr],
    /// Where a round starts in the body.
    first: usize,
    /// The expression that follows the present one.
    next: usize,
    /// How many schedulers were in scope at the start.
    base: usize,
    /// What came of the present round.
    round: Report,
    /// What came of the rounds before.
    total: Report,
}

/// A sequence of expressions that is being run, as contracts see it.
pub struct FrameView {
    pub kind: Kind,
    pub body: Seq<Expr>,
    pub first: int,
    pub next: int,
    pub base: nat,
    pub round: ReportView,
    pub total: ReportView,
}

impl<'a> View for Frame<'a> {
    type V = FrameView;

    closed spec fn view(&self) -> FrameView {
        FrameView {
            kind: self.kind,
            body: self.body@,
            first: self.first as int,
            next: self.next as int,
            base: self.base as nat,
            round: self.round@,
            total: self.total@,
        }
    }
}

impl FrameView {
    /// The frame, once an expression of the present round came to this report.
    pub open spec fn with_report(self, report: ReportView) -> FrameView {
        FrameView { round: self.round.union(report), ..self }
    }

    /// What follows a round that came to `report` and left `scope`.
    pub open spec fn end_round(
        self,
        report: ReportView,
        scope: Scope,
        answers: Seq<Answer>,
    ) -> Outcome {
        let outer = scope.take(self.base as int);
        match self.kind {
            Kind::Top => Outcome::Done { scope, report, used: 0 },
            Kind::Sequence => Outcome::Done { scope: outer, report, used: 0 },
            Kind::Saturate => if report.updated {
                saturate(self.body, self.total.union(report), outer, answers)
            } else {
                Outcome::Done { scope: outer, report: self.total, used: 0 }
            },
            Kind::Repeat(left) => repeat(
                self.body,
                left - 1,
                self.total.union(report),
                outer,
                answers,
            ),
        }
    }

    /// What becomes of the frame from its next expression on.
    pub open spec fn outcome(self, scope: Scope, answers: Seq<Answer>) -> Outcome {
        match eval_all(self.body, self.next, self.round, scope, answers) {
            Outcome::Done { scope: inner, report, used } => later(
                self.end_round(report, inner, unused(answers, used)),
                used,
            ),
            Outcome::Fault(fault, inner) => Outcome::Fault(fault, self.left(inner)),
            other => other,
        }
    }

    /// The schedulers in scope once the frame is left, where these are inside it.
    pub open spec fn left(self, scope: Scope) -> Scope {
        if self.kind is Top {
            scope
        } else {
            scope.take(self.base as int)
        }
    }

    /// Where the frame can be at all.
    pub open spec fn wf(self) -> bool {
        &&& 0 <= self.first <= self.next <= self.body.len()
        &&& self.next == self.first ==> !self.round.updated
        &&& self.kind matches Kind::Repeat(left) ==> left >= 1 && self.first == 1
        &&& !(self.kind is Repeat) ==> self.first == 0
    }
}

/// A machine, as contracts see it: the schedulers in scope, the sequences that
/// are being run, the innermost last, and what it is at.
pub struct StateView {
    pub scope: Scope,
    pub frames: Seq<FrameView>,
    pub status: StatusView,
}

/// What the present expression comes to.
pub open spec fn status_outcome(status: StatusView, scope: Scope, answers: Seq<Answer>) -> Outcome {
    match status {
        StatusView::Next(expr) => eval(expr, scope, answers),
        StatusView::Run(kind, ruleset) => run_rules(kind, ruleset, scope, answers),
        StatusView::Check(condition, kind, ruleset) => run_unless(
            condition,
            kind,
            ruleset,
            scope,
            answers,
        ),
        StatusView::Build(name, builder, args) => define_scheduler(
            name,
            builder,
            args,
            scope,
            answers,
        ),
        StatusView::Finished(report) => Outcome::Done { scope, report, used: 0 },
        StatusView::Failed(fault) => Outcome::Fault(fault, scope),
        StatusView::Stuck => Outcome::Stuck,
    }
}

/// What becomes of the whole schedule when the innermost expression comes to
/// `outcome`.
pub open spec fn resume(frames: Seq<FrameView>, outcome: Outcome, answers: Seq<Answer>) -> Verdict
    decreases frames.len(),
{
    match outcome {
        Outcome::Done { scope, report, used } => if frames.len() == 0 {
            Verdict::Report(report, scope)
        } else {
            let rest = unused(answers, used);
            resume(
                frames.drop_last(),
                frames.last().with_report(report).outcome(scope, rest),
                rest,
            )
        },
        Outcome::Fault(fault, scope) => if frames.len() == 0 {
            Verdict::Fault(fault, scope)
        } else {
            resume(
                frames.drop_last(),
                Outcome::Fault(fault, frames.last().left(scope)),
                answers,
            )
        },
        other => verdict(other),
    }
}

impl StateView {
    /// What becomes of the schedule from here on, given the answers to come.
    pub open spec fn meaning(self, answers: Seq<Answer>) -> Verdict {
        resume(self.frames, status_outcome(self.status, self.scope, answers), answers)
    }

    /// Where a machine can be at all.
    pub open spec fn wf(self) -> bool {
        &&& frames_wf(self.frames, self.scope)
        &&& self.frames.len() > 0 ==> self.frames.last().first < self.frames.last().next
        &&& self.status is Finished <==> self.frames.len() == 0
        &&& self.status is Failed ==> self.frames.len() == 1
    }

    /// The schedulers in scope once all blocks that are open are left.
    pub open spec fn outer_scope(self) -> Scope {
        if self.frames.len() > 1 {
            self.scope.take(self.frames[1].base as int)
        } else {
            self.scope
        }
    }

    /// Whether an answer is of the kind that the machine waits for.
    pub open spec fn accepts(self, answer: Answer) -> bool {
        match self.status {
            StatusView::Run(_, _) => answer is Ran || answer is Failed,
            StatusView::Check(_, _, _) => answer is Checked || answer is Failed,
            StatusView::Build(_, _, _) => answer is Built,
            _ => false,
        }
    }
}

/// Where a stack of frames can be at all, with these schedulers in scope.
pub open spec fn frames_wf(frames: Seq<FrameView>, scope: Scope) -> bool {
    &&& forall|i: int| 0 <= i < frames.len() ==> (#[trigger] frames[i]).wf()
    &&& forall|i: int| 0 <= i < frames.len() ==> ((#[trigger] frames[i]).kind is Top <==> i == 0)
    &&& forall|i: int, j: int|
        0 <= i <= j < frames.len() ==> (#[trigger] frames[i]).base <= (#[trigger] frames[j]).base
    &&& forall|i: int| 0 <= i < frames.len() - 1 ==> (#[trigger] frames[i]).first < frames[i].next
    &&& frames.len() > 0 ==> frames.last().base <= scope.len()
}

/// What becomes of the whole schedule from the innermost frame's next
/// expression on.
spec fn from_next(frames: Seq<FrameView>, scope: Scope, answers: Seq<Answer>) -> Verdict {
    resume(frames.drop_last(), frames.last().outcome(scope, answers), answers)
}

proof fn lemma_unused_twice(answers: Seq<Answer>, first: nat, more: nat)
    ensures
        unused(unused(answers, first), more) == unused(answers, first + more),
{
    assert(unused(unused(answers, first), more) =~= unused(answers, first + more));
}

proof fn lemma_resume_later(
    frames: Seq<FrameView>,
    outcome: Outcome,
    used: nat,
    answers: Seq<Answer>,
)
    ensures
        resume(frames, later(outcome, used), answers) == resume(
            frames,
            outcome,
            unused(answers, used),
        ),
{
    match outcome {
        Outcome::Done { used: more, .. } => {
            lemma_unused_twice(answers, used, more);
        },
        Outcome::Fault(fault, scope) => {
            lemma_fault_asks_nothing(frames, fault, scope, answers, unused(answers, used));
        },
        _ => {},
    }
}

proof fn lemma_fault_asks_nothing(
    frames: Seq<FrameView>,
    fault: FaultView,
    scope: Scope,
    answers: Seq<Answer>,
    others: Seq<Answer>,
)
    ensures
        resume(frames, Outcome::Fault(fault, scope), answers) == resume(
            frames,
            Outcome::Fault(fault, scope),
            others,
        ),
    decreases frames.len(),
{
    if frames.len() > 0 {
        lemma_fault_asks_nothing(
            frames.drop_last(),
            fault,
            frames.last().left(scope),
            answers,
            others,
        );
    }
}

/// Where a schedule fails, all blocks that are open are left.
pub proof fn lemma_fault(
    frames: Seq<FrameView>,
    fault: FaultView,
    scope: Scope,
    answers: Seq<Answer>,
)
    requires
        frames_wf(frames, scope),
    ensures
        resume(frames, Outcome::Fault(fault, scope), answers) == Verdict::Fault(
            fault,
            if frames.len() > 1 {
                scope.take(frames[1].base as int)
            } else {
                scope
            },
        ),
    decreases frames.len(),
{
    if frames.len() > 0 {
        let front = frames.drop_last();
        let outer = frames.last().left(scope);
        assert(frames.last() == frames[frames.len() - 1]);
        assert forall|i: int| 0 <= i < front.len() implies #[trigger] front[i] == frames[i] by {}
        assert(frames_wf(front, outer));
        lemma_fault(front, fault, outer, answers);
        if frames.len() > 1 {
            assert(outer.take(frames[1].base as int) =~= scope.take(frames[1].base as int));
        }
        if frames.len() > 2 {
            assert(front[1] == frames[1]);
        }
    }
}

/// An answer that ends the present expression.
proof fn lemma_answered(
    state: StateView,
    scope: Scope,
    report: ReportView,
    answer: Answer,
    answers: Seq<Answer>,
)
    requires
        status_outcome(state.status, state.scope, seq![answer] + answers) == (Outcome::Done {
            scope,
            report,
            used: 1,
        }),
    ensures
        state.meaning(seq![answer] + answers) == resume(
            state.frames,
            Outcome::Done { scope, report, used: 0 },
            answers,
        ),
{
    let all = seq![answer] + answers;
    assert(unused(all, 1) =~= answers);
    lemma_resume_later(state.frames, Outcome::Done { scope, report, used: 0 }, 1, all);
}

/// Running the next expression of the innermost frame is running the frame.
proof fn lemma_pick(frames: Seq<FrameView>, scope: Scope, answers: Seq<Answer>)
    requires
        frames.len() > 0,
        0 <= frames.last().next < frames.last().body.len(),
    ensures
        ({
            let frame = frames.last();
            let picked = FrameView { next: frame.next + 1, ..frame };
            resume(
                frames.drop_last().push(picked),
                eval(frame.body[frame.next], scope, answers),
                answers,
            ) == from_next(frames, scope, answers)
        }),
{
    let frame = frames.last();
    let picked = FrameView { next: frame.next + 1, ..frame };
    let stack = frames.drop_last().push(picked);
    assert(stack.drop_last() =~= frames.drop_last());
    match eval(frame.body[frame.next], scope, answers) {
        Outcome::Done { scope: after, report, used } => {
            let rest = unused(answers, used);
            let inner = picked.with_report(report).outcome(after, rest);
            match eval_all(frame.body, frame.next + 1, frame.round.union(report), after, rest) {
                Outcome::Done { used: more, .. } => {
                    lemma_unused_twice(answers, used, more);
                },
                _ => {},
            }
            assert(frame.outcome(scope, answers) == later(inner, used));
            lemma_resume_later(frames.drop_last(), inner, used, answers);
        },
        _ => {},
    }
}

/// Handing a report to the innermost frame.
proof fn lemma_deliver(
    frames: Seq<FrameView>,
    report: ReportView,
    scope: Scope,
    answers: Seq<Answer>,
)
    requires
        frames.len() > 0,
    ensures
        resume(frames, Outcome::Done { scope, report, used: 0 }, answers) == from_next(
            frames.drop_last().push(frames.last().with_report(report)),
            scope,
            answers,
        ),
{
    assert(unused(answers, 0) =~= answers);
    assert(frames.drop_last().push(frames.last().with_report(report)).drop_last()
        =~= frames.drop_last());
}

/// A frame that is at the start of a round of `saturate`.
proof fn lemma_saturate_frame(frame: FrameView, scope: Scope, answers: Seq<Answer>)
    requires
        frame.kind is Saturate,
        frame.next == 0,
        frame.round == no_report(),
        frame.base == scope.len(),
    ensures
        frame.outcome(scope, answers) == saturate(frame.body, frame.total, scope, answers),
{
    law_eval_all_keeps_books(frame.body, 0, no_report(), scope, answers);
}

/// A frame that is at the start of a round of `repeat`.
proof fn lemma_repeat_frame(frame: FrameView, left: i64, scope: Scope, answers: Seq<Answer>)
    requires
        frame.kind == Kind::Repeat(left),
        left >= 1,
        frame.next == 1,
        frame.round == no_report(),
        frame.base == scope.len(),
    ensures
        frame.outcome(scope, answers) == repeat(
            frame.body,
            left as int,
            frame.total,
            scope,
            answers,
        ),
{
}

/// A frame all of whose expressions have been run.
proof fn lemma_round_over(frame: FrameView, scope: Scope, answers: Seq<Answer>)
    requires
        frame.next >= frame.body.len(),
    ensures
        frame.outcome(scope, answers) == frame.end_round(frame.round, scope, answers),
{
    assert(unused(answers, 0) =~= answers);
}

/// How many expressions are run, at most, until an expression is done or makes
/// a request.
spec fn cost(expr: Expr) -> nat
    decreases expr, 0int,
{
    match expr {
        Expr::Call(_, head, args) => if head@ == "saturate"@ || head@ == "seq"@ {
            1 + cost_all(args@, 0)
        } else if head@ == "repeat"@ {
            match repeat_count(args@) {
                Some(n) => if n > 0 {
                    1 + (n as nat) * cost_all(args@, 1)
                } else {
                    1
                },
                None => 1,
            }
        } else {
            1
        },
        _ => 1,
    }
}

/// The same of the expressions from the one at `next` on.
spec fn cost_all(exprs: Seq<Expr>, next: int) -> nat
    decreases exprs, exprs.len() - next,
{
    if 0 <= next < exprs.len() {
        cost(exprs[next]) + cost_all(exprs, next + 1)
    } else {
        0
    }
}

/// The same of a stack of frames. `hot` says whether the report that the
/// innermost frame gets next has an update.
spec fn cost_of_frames(frames: Seq<FrameView>, hot: bool) -> nat
    decreases frames.len(),
{
    if frames.len() == 0 {
        0
    } else {
        let frame = frames.last();
        let updated = hot || frame.round.updated;
        cost_all(frame.body, frame.next) + match frame.kind {
            Kind::Saturate => if updated {
                cost_all(frame.body, frame.first)
            } else {
                0
            },
            Kind::Repeat(left) => ((left - 1) as nat) * cost_all(frame.body, frame.first),
            _ => 0,
        } + cost_of_frames(frames.drop_last(), updated || frame.total.updated)
    }
}

proof fn lemma_cost_if_hot(frames: Seq<FrameView>)
    ensures
        cost_of_frames(frames, false) <= cost_of_frames(frames, true),
    decreases frames.len(),
{
    if frames.len() > 0 {
        lemma_cost_if_hot(frames.drop_last());
    }
}

proof fn lemma_cost_with_report(frames: Seq<FrameView>, report: ReportView)
    requires
        frames.len() > 0,
    ensures
        cost_of_frames(frames.drop_last().push(frames.last().with_report(report)), false)
            == cost_of_frames(frames, report.updated),
{
    assert(frames.drop_last().push(frames.last().with_report(report)).drop_last()
        =~= frames.drop_last());
}

/// The same of a machine.
spec fn cost_of_state(state: StateView) -> nat {
    match state.status {
        StatusView::Next(expr) => cost(expr) + cost_of_frames(state.frames, false),
        _ => 0,
    }
}

/// How the arguments of `run` read.
enum RunArgs<'a> {
    Plain(&'a str),
    Until(&'a str, &'a Expr),
    Invalid,
    Unnamed,
}

impl<'a> View for RunArgs<'a> {
    type V = RunForm;

    closed spec fn view(&self) -> RunForm {
        match self {
            RunArgs::Plain(ruleset) => RunForm::Plain(ruleset@),
            RunArgs::Until(ruleset, condition) => RunForm::Until(ruleset@, **condition),
            RunArgs::Invalid => RunForm::Invalid,
            RunArgs::Unnamed => RunForm::Unnamed,
        }
    }
}

/// Reads `[:until condition]` from argument `from` on.
fn read_until<'a>(ruleset: &'a str, args: &'a [Expr], from: usize) -> (read: RunArgs<'a>)
    requires
        from <= args@.len(),
    ensures
        read@ == until_form(ruleset@, args@, from as int),
{
    let left: usize = args.len() - from;
    if left == 0 {
        return RunArgs::Plain(ruleset);
    }
    if left == 2 {
        if let Expr::Var(_, symbol) = &args[from] {
            if *symbol.as_str() == *":until" {
                return RunArgs::Until(ruleset, &args[from + 1]);
            }
        }
    }
    RunArgs::Invalid
}

/// Reads `[ruleset] [:until condition]` from argument `from` on.
fn read_run<'a>(args: &'a [Expr], from: usize) -> (read: RunArgs<'a>)
    requires
        from <= args@.len(),
    ensures
        read@ == run_form(args@, from as int),
{
    if from == args.len() {
        return RunArgs::Plain("");
    }
    match &args[from] {
        Expr::Var(_, name) => {
            if *name.as_str() == *":until" {
                read_until("", args, from)
            } else {
                read_until(name.as_str(), args, from + 1)
            }
        },
        _ => RunArgs::Unnamed,
    }
}

/// Whether a scheduler of this name is in scope.
fn is_defined(schedulers: &Vec<(String, usize)>, name: &str) -> (defined: bool)
    ensures
        defined == in_scope(scope_of(schedulers@), name@),
{
    let ghost scope = scope_of(schedulers@);
    let mut i: usize = 0;
    while i < schedulers.len()
        invariant
            i <= schedulers@.len(),
            scope == scope_of(schedulers@),
            forall|j: int| 0 <= j < i ==> (#[trigger] scope[j]).0 != name@,
        decreases schedulers@.len() - i,
    {
        assert(scope[i as int].0 == schedulers@[i as int].0@);
        if *schedulers[i].0.as_str() == *name {
            return true;
        }
        i = i + 1;
    }
    false
}

/// Finds the latest scheduler of this name.
fn find_scheduler(schedulers: &Vec<(String, usize)>, name: &str) -> (found: Option<usize>)
    ensures
        found == scheduler_of(scope_of(schedulers@), name@),
{
    let ghost scope = scope_of(schedulers@);
    let mut i: usize = schedulers.len();
    assert(scope.take(i as int) =~= scope);
    while i > 0
        invariant
            i <= schedulers@.len(),
            scope == scope_of(schedulers@),
            scheduler_of(scope, name@) == scheduler_of(scope.take(i as int), name@),
        decreases i,
    {
        assert(scope[i - 1].0 == schedulers@[i - 1].0@);
        assert(scope.take(i as int).last() == scope[i - 1]);
        assert(scope.take(i as int).drop_last() =~= scope.take(i - 1));
        if *schedulers[i - 1].0.as_str() == *name {
            return Some(schedulers[i - 1].1);
        }
        i = i - 1;
    }
    None
}

/// A machine that runs an extended schedule.
pub struct ScheduleState<'a> {
    schedulers: Vec<(String, usize)>,
    frames: Vec<Frame<'a>>,
    status: Status<'a>,
}

/// The schedulers in scope, as contracts see them.
pub open spec fn scope_of(schedulers: Seq<(String, usize)>) -> Scope {
    schedulers.map_values(|scheduler: (String, usize)| (scheduler.0@, scheduler.1))
}

/// The frames, as contracts see them.
spec fn frames_of(frames: Seq<Frame>) -> Seq<FrameView> {
    frames.map_values(|frame: Frame| frame@)
}

impl<'a> View for ScheduleState<'a> {
    type V = StateView;

    closed spec fn view(&self) -> StateView {
        StateView {
            scope: scope_of(self.schedulers@),
            frames: frames_of(self.frames@),
            status: self.status@,
        }
    }
}

impl<'a> ScheduleState<'a> {
    /// A machine at the start of the schedules `args`, to be run one after the
    /// other.
    pub fn new(args: &'a [Expr]) -> (state: ScheduleState<'a>)
        ensures
            state@.wf(),
            forall|answers: Seq<Answer>|
                #[trigger] state@.meaning(answers) == run_schedule(args@, answers),
    {
        let mut state = ScheduleState {
            schedulers: Vec::new(),
            frames: Vec::new(),
            status: Status::Finished(Report::new()),
        };
        assert(state@.scope =~= Seq::empty());
        assert(state@.frames =~= Seq::empty());
        state.enter(Kind::Top, args, 0);
        state
    }

    /// The schedulers in scope, each with its name and the engine's id.
    pub fn schedulers(&self) -> (schedulers: &Vec<(String, usize)>)
        ensures
            scope_of(schedulers@) == self@.scope,
    {
        &self.schedulers
    }

    /// What the machine is at.
    pub fn status(&self) -> (status: &Status<'a>)
        ensures
            status@ == self@.status,
    {
        &self.status
    }

    /// Runs the schedule up to its end or its next request. Nothing is left to
    /// be run next then, and what becomes of the schedule is as before. No
    /// scheduler is defined. Where the schedule fails, those that were defined
    /// in a block are out of scope.
    pub fn advance(&mut self)
        requires
            old(self)@.wf(),
        ensures
            final(self)@.wf(),
            !(final(self)@.status is Next),
            final(self)@.outer_scope() == old(self)@.outer_scope(),
            final(self)@.status is Failed ==> final(self)@.scope == old(self)@.outer_scope(),
            forall|answers: Seq<Answer>|
                #[trigger] final(self)@.meaning(answers) == old(self)@.meaning(answers),
    {
        loop
            invariant
                self@.wf(),
                self@.outer_scope() == old(self)@.outer_scope(),
                forall|answers: Seq<Answer>|
                    #[trigger] self@.meaning(answers) == old(self)@.meaning(answers),
            decreases cost_of_state(self@),
        {
            let expr: &'a Expr = match &self.status {
                Status::Next(expr) => *expr,
                _ => {
                    return;
                },
            };
            let ghost before = self@;
            self.begin(expr);
            assert forall|answers: Seq<Answer>|
                #[trigger] self@.meaning(answers) == old(self)@.meaning(answers) by {
                assert(self@.meaning(answers) == before.meaning(answers));
            }
        }
    }

    /// Takes the engine's answer to the present request. What becomes of the
    /// schedule is as it was with that answer first. An error of the engine
    /// leaves the schedulers that were defined in no block in scope.
    pub fn answer(&mut self, answer: Answer)
        requires
            old(self)@.wf(),
            old(self)@.accepts(answer),
        ensures
            final(self)@.wf(),
            final(self)@.status is Failed <==> answer is Failed,
            final(self)@.status is Failed ==> final(self)@.scope == old(self)@.outer_scope(),
            forall|answers: Seq<Answer>|
                #[trigger] final(self)@.meaning(answers) == old(self)@.meaning(
                    seq![answer] + answers,
                ),
    {
        let ghost before = self@;
        match answer {
            Answer::Failed => {
                self.fail(Fault::Engine);
                assert forall|answers: Seq<Answer>|
                    #[trigger] self@.meaning(answers) == before.meaning(seq![answer] + answers) by {
                    assert((seq![answer] + answers)[0] == answer);
                }
            },
            Answer::Ran { updated, report } => {
                let report: Report = Report::of(updated, report);
                self.end_expr(report);
                assert forall|answers: Seq<Answer>|
                    #[trigger] self@.meaning(answers) == before.meaning(seq![answer] + answers) by {
                    lemma_answered(before, before.scope, report@, answer, answers);
                }
            },
            Answer::Checked { holds } => {
                if holds {
                    self.end_expr(Report::new());
                    assert forall|answers: Seq<Answer>|
                        #[trigger] self@.meaning(answers) == before.meaning(
                            seq![answer] + answers,
                        ) by {
                        lemma_answered(before, before.scope, no_report(), answer, answers);
                    }
                } else if let Status::Check { kind, ruleset, .. } = &self.status {
                    let kind: RunKind = *kind;
                    let ruleset: &'a str = *ruleset;
                    self.status = Status::Run { kind, ruleset };
                    assert forall|answers: Seq<Answer>|
                        #[trigger] self@.meaning(answers) == before.meaning(
                            seq![answer] + answers,
                        ) by {
                        let all = seq![answer] + answers;
                        assert(all[0] == answer);
                        assert(all.skip(1) =~= answers);
                        lemma_resume_later(
                            before.frames,
                            run_rules(kind, ruleset@, before.scope, answers),
                            1,
                            all,
                        );
                    }
                }
            },
            Answer::Built { scheduler } => {
                if let Status::Build { name, .. } = &self.status {
                    let name: String = (*name).to_owned();
                    self.schedulers.push((name, scheduler));
                    let ghost scope = before.scope.push((name@, scheduler));
                    assert(self@.scope =~= scope);
                    self.end_expr(Report::new());
                    assert forall|answers: Seq<Answer>|
                        #[trigger] self@.meaning(answers) == before.meaning(
                            seq![answer] + answers,
                        ) by {
                        lemma_answered(before, scope, no_report(), answer, answers);
                    }
                }
            },
        }
    }

    /// Hands a report to the innermost frame.
    fn hand_over(&mut self, report: Report)
        requires
            old(self)@.frames.len() > 0,
        ensures
            final(self)@.frames == old(self)@.frames.drop_last().push(
                old(self)@.frames.last().with_report(report@),
            ),
            final(self)@.scope == old(self)@.scope,
            final(self)@.status == old(self)@.status,
    {
        let ghost before = self@;
        assert(self.frames@.len() == before.frames.len());
        let popped = self.frames.pop();
        if let Some(frame) = popped {
            let mut frame: Frame<'a> = frame;
            assert(frame@ == before.frames.last());
            frame.round.union(report);
            self.frames.push(frame);
            assert(self@.frames =~= before.frames.drop_last().push(
                before.frames.last().with_report(report@),
            ));
        }
    }

    /// Goes on with the innermost frame: to its next expression or, at the end
    /// of a round, to the next round or to the frame around it.
    #[verifier::rlimit(60)]
    #[verifier::spinoff_prover]
    fn proceed(&mut self)
        requires
            frames_wf(old(self)@.frames, old(self)@.scope),
            old(self)@.frames.len() > 0,
        ensures
            final(self)@.wf(),
            forall|answers: Seq<Answer>|
                #[trigger] final(self)@.meaning(answers) == from_next(
                    old(self)@.frames,
                    old(self)@.scope,
                    answers,
                ),
            cost_of_state(final(self)@) <= cost_of_frames(old(self)@.frames, false),
            final(self)@.outer_scope() == old(self)@.outer_scope(),
            !(final(self)@.status is Failed),
    {
        loop
            invariant
                frames_wf(self@.frames, self@.scope),
                self@.frames.len() > 0,
                self@.outer_scope() == old(self)@.outer_scope(),
                forall|answers: Seq<Answer>|
                    #[trigger] from_next(self@.frames, self@.scope, answers) == from_next(
                        old(self)@.frames,
                        old(self)@.scope,
                        answers,
                    ),
                cost_of_frames(self@.frames, false) <= cost_of_frames(old(self)@.frames, false),
            decreases
                self@.frames.len(),
                match self@.frames.last().kind {
                    Kind::Repeat(left) => left as int,
                    _ => 0,
                },
                if self@.frames.last().round.updated {
                    1int
                } else {
                    0int
                },
        {
            let ghost before = self@;
            assert(self.frames@.len() == before.frames.len());
            let popped = self.frames.pop();
            let mut frame: Frame<'a> = match popped {
                Some(frame) => frame,
                None => {
                    return;
                },
            };
            assert(frame@ == before.frames.last());
            assert(self@.frames =~= before.frames.drop_last());
            let ghost top = frame@;
            if frame.next < frame.body.len() {
                let expr: &'a Expr = &frame.body[frame.next];
                frame.next = frame.next + 1;
                self.frames.push(frame);
                self.status = Status::Next(expr);
                proof {
                    let picked = FrameView { next: top.next + 1, ..top };
                    assert(self@.frames =~= before.frames.drop_last().push(picked));
                    assert forall|answers: Seq<Answer>|
                        #[trigger] self@.meaning(answers) == from_next(
                            old(self)@.frames,
                            old(self)@.scope,
                            answers,
                        ) by {
                        lemma_pick(before.frames, before.scope, answers);
                        assert(from_next(before.frames, before.scope, answers) == from_next(
                            old(self)@.frames,
                            old(self)@.scope,
                            answers,
                        ));
                    }
                    assert(self@.frames.drop_last() =~= before.frames.drop_last());
                }
                return;
            }
            proof {
                assert forall|answers: Seq<Answer>|
                    from_next(old(self)@.frames, old(self)@.scope, answers) == #[trigger] resume(
                        before.frames.drop_last(),
                        top.end_round(top.round, before.scope, answers),
                        answers,
                    ) by {
                    lemma_round_over(top, before.scope, answers);
                    assert(from_next(before.frames, before.scope, answers) == from_next(
                        old(self)@.frames,
                        old(self)@.scope,
                        answers,
                    ));
                }
            }
            if let Kind::Top = frame.kind {
                self.status = Status::Finished(frame.round);
                proof {
                    assert(before.frames.len() == 1);
                    assert(self@.frames.len() == 0);
                    assert forall|answers: Seq<Answer>|
                        #[trigger] self@.meaning(answers) == from_next(
                            old(self)@.frames,
                            old(self)@.scope,
                            answers,
                        ) by {
                        assert(resume(
                            before.frames.drop_last(),
                            top.end_round(top.round, before.scope, answers),
                            answers,
                        ) == Verdict::Report(top.round, before.scope));
                    }
                }
                return;
            }
            self.schedulers.truncate(frame.base);
            let ghost outer = before.scope.take(top.base as int);
            assert(self@.scope =~= outer);
            assert(before.frames.len() > 1 && outer.take(before.frames[1].base as int)
                =~= before.scope.take(before.frames[1].base as int)) by {
                assert(before.frames[0].kind is Top);
                assert(before.frames.last() == before.frames[before.frames.len() - 1]);
            }
            let report: Report = match frame.kind {
                Kind::Saturate => {
                    if frame.round.updated {
                        let round = frame.round;
                        frame.total.union(round);
                        frame.round = Report::new();
                        frame.next = frame.first;
                        let ghost restarted = frame@;
                        self.frames.push(frame);
                        proof {
                            assert(self@.frames =~= before.frames.drop_last().push(restarted));
                            assert(self@.frames.drop_last() =~= before.frames.drop_last());
                            assert forall|answers: Seq<Answer>|
                                #[trigger] from_next(self@.frames, self@.scope, answers)
                                    == from_next(old(self)@.frames, old(self)@.scope, answers) by {
                                lemma_saturate_frame(restarted, outer, answers);
                                assert(resume(
                                    before.frames.drop_last(),
                                    top.end_round(top.round, before.scope, answers),
                                    answers,
                                ) == from_next(self@.frames, self@.scope, answers));
                            }
                        }
                        continue;
                    }
                    frame.total
                },
                Kind::Repeat(left) => {
                    let round = frame.round;
                    frame.total.union(round);
                    if left > 1 {
                        frame.kind = Kind::Repeat(left - 1);
                        frame.round = Report::new();
                        frame.next = frame.first;
                        let ghost restarted = frame@;
                        self.frames.push(frame);
                        proof {
                            assert(self@.frames =~= before.frames.drop_last().push(restarted));
                            assert(self@.frames.drop_last() =~= before.frames.drop_last());
                            assert forall|answers: Seq<Answer>|
                                #[trigger] from_next(self@.frames, self@.scope, answers)
                                    == from_next(old(self)@.frames, old(self)@.scope, answers) by {
                                lemma_repeat_frame(restarted, (left - 1) as i64, outer, answers);
                                assert(resume(
                                    before.frames.drop_last(),
                                    top.end_round(top.round, before.scope, answers),
                                    answers,
                                ) == from_next(self@.frames, self@.scope, answers));
                            }
                            let each = cost_all(top.body, top.first);
                            assert((left - 1) * each == each + (left - 2) * each)
                                by (nonlinear_arith);
                        }
                        continue;
                    }
                    frame.total
                },
                _ => frame.round,
            };
            let ghost below = self@.frames;
            proof {
                assert(before.frames[0].kind is Top);
                assert(below.len() > 0);
            }
            self.hand_over(report);
            proof {
                assert forall|answers: Seq<Answer>|
                    #[trigger] from_next(self@.frames, self@.scope, answers) == from_next(
                        old(self)@.frames,
                        old(self)@.scope,
                        answers,
                    ) by {
                    lemma_deliver(below, report@, outer, answers);
                    assert(top.end_round(top.round, before.scope, answers) == (Outcome::Done {
                        scope: outer,
                        report: report@,
                        used: 0,
                    }));
                    assert(resume(
                        before.frames.drop_last(),
                        top.end_round(top.round, before.scope, answers),
                        answers,
                    ) == from_next(self@.frames, self@.scope, answers));
                }
                lemma_cost_with_report(below, report@);
                lemma_cost_if_hot(below);
            }
        }
    }

    /// Ends the present expression with this report.
    fn end_expr(&mut self, report: Report)
        requires
            old(self)@.wf(),
            old(self)@.frames.len() > 0,
        ensures
            final(self)@.wf(),
            forall|answers: Seq<Answer>|
                #[trigger] final(self)@.meaning(answers) == resume(
                    old(self)@.frames,
                    Outcome::Done { scope: old(self)@.scope, report: report@, used: 0 },
                    answers,
                ),
            cost_of_state(final(self)@) <= cost_of_frames(old(self)@.frames, report@.updated),
            final(self)@.outer_scope() == old(self)@.outer_scope(),
            !(final(self)@.status is Failed),
    {
        let ghost before = self@;
        self.hand_over(report);
        let ghost handed = self@;
        proof {
            lemma_cost_with_report(before.frames, report@);
        }
        self.proceed();
        proof {
            assert forall|answers: Seq<Answer>|
                #[trigger] self@.meaning(answers) == resume(
                    before.frames,
                    Outcome::Done { scope: before.scope, report: report@, used: 0 },
                    answers,
                ) by {
                lemma_deliver(before.frames, report@, before.scope, answers);
                assert(self@.meaning(answers) == from_next(handed.frames, handed.scope, answers));
            }
        }
    }

    /// Fails. All blocks that are open are left, and the schedulers that they
    /// defined are out of scope.
    fn fail(&mut self, fault: Fault)
        requires
            old(self)@.wf(),
            old(self)@.frames.len() > 0,
        ensures
            final(self)@.wf(),
            final(self)@.status == StatusView::Failed(fault@),
            final(self)@.scope == old(self)@.outer_scope(),
            final(self)@.outer_scope() == old(self)@.outer_scope(),
            forall|answers: Seq<Answer>, more: Seq<Answer>|
                #![trigger final(self)@.meaning(answers), resume(
                    old(self)@.frames,
                    Outcome::Fault(fault@, old(self)@.scope),
                    more,
                )]
                final(self)@.meaning(answers) == resume(
                    old(self)@.frames,
                    Outcome::Fault(fault@, old(self)@.scope),
                    more,
                ),
    {
        let ghost before = self@;
        assert(self.frames@.len() == before.frames.len());
        if self.frames.len() > 1 {
            assert(before.frames[1] == self.frames@[1]@);
            let base: usize = self.frames[1].base;
            self.schedulers.truncate(base);
            self.frames.truncate(1);
            assert(self@.scope =~= before.outer_scope());
            assert(self@.frames =~= before.frames.take(1));
        }
        self.status = Status::Failed(fault);
        proof {
            assert(self@.frames[0] == before.frames[0]);
            assert forall|answers: Seq<Answer>, more: Seq<Answer>|
                #![trigger self@.meaning(answers), resume(
                    before.frames,
                    Outcome::Fault(fault@, before.scope),
                    more,
                )]
                self@.meaning(answers) == resume(
                    before.frames,
                    Outcome::Fault(fault@, before.scope),
                    more,
                ) by {
                lemma_fault(before.frames, fault@, before.scope, more);
                lemma_fault(self@.frames, fault@, self@.scope, answers);
            }
        }
    }

    /// Starts to run a sequence of expressions.
    fn enter(&mut self, kind: Kind, body: &'a [Expr], first: usize)
        requires
            frames_wf(old(self)@.frames, old(self)@.scope),
            first <= body@.len(),
            kind matches Kind::Repeat(left) ==> left >= 1 && first == 1,
            !(kind is Repeat) ==> first == 0,
            kind is Top <==> old(self)@.frames.len() == 0,
            old(self)@.frames.len() > 0 ==> old(self)@.frames.last().first
                < old(self)@.frames.last().next,
        ensures
            final(self)@.wf(),
            final(self)@.outer_scope() == old(self)@.outer_scope(),
            !(final(self)@.status is Failed),
            ({
                let frame = FrameView {
                    kind,
                    body: body@,
                    first: first as int,
                    next: first as int,
                    base: old(self)@.scope.len(),
                    round: no_report(),
                    total: no_report(),
                };
                &&& forall|answers: Seq<Answer>|
                    #[trigger] final(self)@.meaning(answers) == resume(
                        old(self)@.frames,
                        frame.outcome(old(self)@.scope, answers),
                        answers,
                    )
                &&& cost_of_state(final(self)@) <= cost_of_frames(
                    old(self)@.frames.push(frame),
                    false,
                )
            }),
    {
        let ghost before = self@;
        let base: usize = self.schedulers.len();
        assert(base == before.scope.len());
        let frame = Frame {
            kind,
            body,
            first,
            next: first,
            base,
            round: Report::new(),
            total: Report::new(),
        };
        let ghost top = frame@;
        self.frames.push(frame);
        let ghost entered = self@;
        proof {
            assert(self@.frames =~= before.frames.push(top));
            assert(self@.frames.drop_last() =~= before.frames);
            assert(self@.frames.last() == top);
            assert(entered.scope.take(entered.scope.len() as int) =~= entered.scope);
            assert(entered.outer_scope() == before.outer_scope());
        }
        self.proceed();
        proof {
            assert forall|answers: Seq<Answer>|
                #[trigger] self@.meaning(answers) == resume(
                    before.frames,
                    top.outcome(before.scope, answers),
                    answers,
                ) by {
                assert(self@.meaning(answers) == from_next(
                    entered.frames,
                    entered.scope,
                    answers,
                ));
            }
        }
    }

    /// Runs the expression that is next, up to its end or its first request.
    fn begin(&mut self, expr: &'a Expr)
        requires
            old(self)@.wf(),
            old(self)@.status == StatusView::Next(*expr),
        ensures
            final(self)@.wf(),
            forall|answers: Seq<Answer>|
                #[trigger] final(self)@.meaning(answers) == old(self)@.meaning(answers),
            final(self)@.status is Next ==> cost_of_state(final(self)@) < cost_of_state(
                old(self)@,
            ),
            final(self)@.outer_scope() == old(self)@.outer_scope(),
    {
        let ghost before = self@;
        let (at, head, args): (usize, &'a str, &'a [Expr]) = match expr {
            Expr::Var(_, ruleset) => {
                self.status = Status::Run { kind: RunKind::Ruleset, ruleset: ruleset.as_str() };
                return;
            },
            Expr::Lit(at, _) => {
                self.fail(Fault::Invalid { at: *at });
                return;
            },
            Expr::Call(at, head, args) => (*at, head.as_str(), args.as_slice()),
        };
        if *head == *"let-scheduler" {
            self.begin_let(at, args);
        } else if *head == *"run" {
            self.begin_run(expr, at, RunKind::Step, args, 0);
        } else if *head == *"run-with" {
            self.begin_run_with(expr, at, args);
        } else if *head == *"saturate" {
            self.enter(Kind::Saturate, args, 0);
            proof {
                let frame = FrameView {
                    kind: Kind::Saturate,
                    body: args@,
                    first: 0,
                    next: 0,
                    base: before.scope.len(),
                    round: no_report(),
                    total: no_report(),
                };
                assert(before.frames.push(frame).drop_last() =~= before.frames);
                assert forall|answers: Seq<Answer>|
                    #[trigger] self@.meaning(answers) == before.meaning(answers) by {
                    lemma_saturate_frame(frame, before.scope, answers);
                }
            }
        } else if *head == *"seq" {
            self.enter(Kind::Sequence, args, 0);
            proof {
                let frame = FrameView {
                    kind: Kind::Sequence,
                    body: args@,
                    first: 0,
                    next: 0,
                    base: before.scope.len(),
                    round: no_report(),
                    total: no_report(),
                };
                assert(before.frames.push(frame).drop_last() =~= before.frames);
                assert forall|answers: Seq<Answer>|
                    #[trigger] self@.meaning(answers) == before.meaning(answers) by {
                    assert(frame.outcome(before.scope, answers) == eval(*expr, before.scope, answers));
                }
            }
        } else if *head == *"repeat" {
            self.begin_repeat(at, args);
        } else {
            self.fail(Fault::Invalid { at });
        }
    }

    /// Starts `let-scheduler`.
    fn begin_let(&mut self, at: usize, args: &'a [Expr])
        requires
            old(self)@.wf(),
            old(self)@.frames.len() > 0,
        ensures
            final(self)@.wf(),
            !(final(self)@.status is Next),
            final(self)@.outer_scope() == old(self)@.outer_scope(),
            forall|answers: Seq<Answer>|
                #[trigger] final(self)@.meaning(answers) == resume(
                    old(self)@.frames,
                    eval_let(at, args@, old(self)@.scope, answers),
                    answers,
                ),
    {
        if args.len() == 2 {
            if let (Expr::Var(_, name), Expr::Call(_, builder, builder_args)) = (
                &args[0],
                &args[1],
            ) {
                if is_defined(&self.schedulers, name.as_str()) {
                    self.fail(Fault::Duplicate { at, name: name.clone() });
                } else {
                    self.status = Status::Build {
                        name: name.as_str(),
                        builder: builder.as_str(),
                        args: builder_args.as_slice(),
                    };
                }
                return;
            }
        }
        self.fail(Fault::Invalid { at });
    }

    /// Starts `run`, or what follows the scheduler's name in `run-with`.
    fn begin_run(&mut self, expr: &'a Expr, at: usize, kind: RunKind, args: &'a [Expr], from: usize)
        requires
            old(self)@.wf(),
            old(self)@.frames.len() > 0,
            from <= args@.len(),
        ensures
            final(self)@.wf(),
            !(final(self)@.status is Next),
            final(self)@.outer_scope() == old(self)@.outer_scope(),
            forall|answers: Seq<Answer>|
                #[trigger] final(self)@.meaning(answers) == resume(
                    old(self)@.frames,
                    eval_run(at, kind, args@, from as int, old(self)@.scope, answers),
                    answers,
                ),
    {
        match read_run(args, from) {
            RunArgs::Plain(ruleset) => {
                self.status = Status::Run { kind, ruleset };
            },
            RunArgs::Until(ruleset, condition) => {
                self.status = Status::Check { condition, kind, ruleset };
            },
            RunArgs::Invalid => {
                self.fail(Fault::Invalid { at });
            },
            RunArgs::Unnamed => {
                self.status = Status::Stuck(expr);
            },
        }
    }

    /// Starts `run-with`.
    fn begin_run_with(&mut self, expr: &'a Expr, at: usize, args: &'a [Expr])
        requires
            old(self)@.wf(),
            old(self)@.frames.len() > 0,
        ensures
            final(self)@.wf(),
            !(final(self)@.status is Next),
            final(self)@.outer_scope() == old(self)@.outer_scope(),
            forall|answers: Seq<Answer>|
                #[trigger] final(self)@.meaning(answers) == resume(
                    old(self)@.frames,
                    eval_run_with(at, args@, old(self)@.scope, answers),
                    answers,
                ),
    {
        if args.len() == 0 {
            self.status = Status::Stuck(expr);
            return;
        }
        match &args[0] {
            Expr::Var(_, name) => match find_scheduler(&self.schedulers, name.as_str()) {
                Some(scheduler) => {
                    self.begin_run(expr, at, RunKind::StepWith(scheduler), args, 1);
                },
                None => {
                    self.status = Status::Stuck(expr);
                },
            },
            _ => {
                self.fail(Fault::Invalid { at });
            },
        }
    }

    /// Starts `repeat`.
    fn begin_repeat(&mut self, at: usize, args: &'a [Expr])
        requires
            old(self)@.wf(),
            old(self)@.frames.len() > 0,
        ensures
            final(self)@.wf(),
            final(self)@.outer_scope() == old(self)@.outer_scope(),
            forall|answers: Seq<Answer>|
                #[trigger] final(self)@.meaning(answers) == resume(
                    old(self)@.frames,
                    match repeat_count(args@) {
                        Some(n) => repeat(args@, n, no_report(), old(self)@.scope, answers),
                        None => Outcome::Fault(FaultView::Invalid { at }, old(self)@.scope),
                    },
                    answers,
                ),
            final(self)@.status is Next ==> cost_of_state(final(self)@) <= match repeat_count(
                args@,
            ) {
                Some(n) => if n > 0 {
                    (n as nat) * cost_all(args@, 1)
                } else {
                    0
                },
                None => 0,
            } + cost_of_frames(old(self)@.frames, false),
    {
        let ghost before = self@;
        if args.len() > 0 {
            if let Expr::Lit(_, Literal::Int(n)) = &args[0] {
                let times: i64 = *n;
                if times <= 0 {
                    self.end_expr(Report::new());
                } else {
                    self.enter(Kind::Repeat(times), args, 1);
                    proof {
                        let frame = FrameView {
                            kind: Kind::Repeat(times),
                            body: args@,
                            first: 1,
                            next: 1,
                            base: before.scope.len(),
                            round: no_report(),
                            total: no_report(),
                        };
                        assert forall|answers: Seq<Answer>|
                            #[trigger] self@.meaning(answers) == resume(
                                before.frames,
                                repeat(args@, times as int, no_report(), before.scope, answers),
                                answers,
                            ) by {
                            lemma_repeat_frame(frame, times, before.scope, answers);
                        }
                        assert(before.frames.push(frame).drop_last() =~= before.frames);
                        let each = cost_all(args@, 1);
                        assert(times * each == each + (times - 1) * each) by (nonlinear_arith);
                    }
                }
                return;
            }
        }
        self.fail(Fault::Invalid { at });
    }
}

} // verus!
