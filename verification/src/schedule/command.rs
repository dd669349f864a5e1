//! The command that runs extended schedules.

use vstd::prelude::*;

use crate::expr::Expr;
use crate::schedule::machine::{Fault, ScheduleState};
use crate::schedule::semantics::{run_schedule, Answer, FaultView};

verus! {

/// The command that runs extended schedules.
#[derive(Debug, Clone, Copy)]
pub struct RunExtendedSchedule;

impl RunExtendedSchedule {
    /// Starts to run the schedules `args`, one after the other. The state asks
    /// for what the engine is to do, and ends in the report of the whole run.
    pub fn start<'a>(&self, args: &'a [Expr]) -> (state: ScheduleState<'a>)
        ensures
            state@.wf(),
            !(state@.status is Next),
            forall|answers: Seq<Answer>|
                #[trigger] state@.meaning(answers) == run_schedule(args@, answers),
    {
        let mut state = ScheduleState::new(args);
        let ghost fresh = state@;
        state.advance();
        assert forall|answers: Seq<Answer>|
            #[trigger] state@.meaning(answers) == run_schedule(args@, answers) by {
            assert(state@.meaning(answers) == fresh.meaning(answers));
        }
        state
    }
}

/// What is wrong with a schedule, and the position of the expression that is at
/// fault. Of what goes wrong in the engine, the engine itself tells.
pub open spec fn complaint(fault: FaultView) -> Option<(usize, Seq<char>)> {
    match fault {
        FaultView::Invalid { at } => Some((at, "Invalid schedule"@)),
        FaultView::Duplicate { at, name } => Some(
            (at, "Scheduler "@ + name + " already exists"@),
        ),
        FaultView::Engine => None,
    }
}

/// What is wrong is said in these words, at the position of the expression that
/// is at fault.
pub proof fn law_complaints(at: usize, name: Seq<char>)
    ensures
        complaint(FaultView::Invalid { at }) == Some((at, "Invalid schedule"@)),
        complaint(FaultView::Duplicate { at, name }) == Some(
            (at, "Scheduler "@ + name + " already exists"@),
        ),
        complaint(FaultView::Engine) is None,
{
}

impl Fault {
    /// What is wrong with the schedule, and the position of the expression that
    /// is at fault, unless the engine itself tells.
    pub fn complaint(&self) -> (complaint: Option<(usize, String)>)
        ensures
            match complaint {
                Some((at, message)) => self::complaint(self@) == Some((at, message@)),
                None => self::complaint(self@) is None,
            },
    {
        match self {
            Fault::Invalid { at } => Some((*at, "Invalid schedule".to_owned())),
            Fault::Duplicate { at, name } => {
                let mut message: String = "Scheduler ".to_owned();
                message.append(name.as_str());
                message.append(" already exists");
                Some((*at, message))
            },
            Fault::Engine => None,
        }
    }
}

} // verus!
