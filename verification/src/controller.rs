//! The iteration controller: which pass runs next, and when the run ends.
//!
//! The controller only decides. Whoever drives it performs the pass that the
//! phase names and reports its completion as an event.

use vstd::prelude::*;

verus! {

/// The ceiling on the number of iterations. It is reached only where the
/// centroids keep moving; reaching it is no error.
pub const MAX_ITERATIONS: u32 = 30;

/// What has to happen next.
#[derive(Clone, Copy, Debug, PartialEq, Eq, Structural)]
pub enum Phase {
    /// Nothing has run yet.
    Init,
    /// The assignment pass is due.
    Assign,
    /// The update pass is due.
    Update,
    /// The run has ended; the output is composed from the committed state.
    Finalize,
}

/// What the driver reports.
#[derive(Clone, Copy, Debug, PartialEq, Eq, Structural)]
pub enum Event {
    /// The centroids are initialised and the assignment buffer is allocated.
    Started,
    /// The assignment pass has completed.
    Assigned,
    /// The update pass has completed, and says whether every centroid has
    /// moved by less than the tolerance.
    Updated { converged: bool },
}

/// The state of the controller: the phase, and the number of iterations
/// that have completed.
#[derive(Clone, Copy, Debug, PartialEq, Eq, Structural)]
pub struct Controller {
    pub phase: Phase,
    pub iterations: u32,
}

/// The state that follows `state` on `event`. An event that the phase does
/// not wait for changes nothing.
pub open spec fn next_state(state: Controller, event: Event) -> Controller {
    match (state.phase, event) {
        (Phase::Init, Event::Started) => Controller {
            phase: Phase::Assign,
            iterations: state.iterations,
        },
        (Phase::Assign, Event::Assigned) => Controller {
            phase: Phase::Update,
            iterations: state.iterations,
        },
        (Phase::Update, Event::Updated { converged }) => Controller {
            phase: if converged || state.iterations + 1 >= MAX_ITERATIONS {
                Phase::Finalize
            } else {
                Phase::Assign
            },
            iterations: (state.iterations + 1) as u32,
        },
        _ => state,
    }
}

/// The state after the iterations whose update passes report `outcomes`,
/// one after the other, starting in a state in which assignment is due.
pub open spec fn after_iterations(state: Controller, outcomes: Seq<bool>) -> Controller
    decreases outcomes.len(),
{
    if outcomes.len() == 0 {
        state
    } else {
        let assigned = next_state(state, Event::Assigned);
        let updated = next_state(assigned, Event::Updated { converged: outcomes[0] });
        after_iterations(updated, outcomes.subrange(1, outcomes.len() as int))
    }
}

impl Controller {
    /// A controller is well formed when it has not passed the ceiling, an
    /// iteration is in progress only below it, and it has ended only after
    /// at least one iteration.
    pub open spec fn wf(&self) -> bool {
        &&& self.iterations <= MAX_ITERATIONS
        &&& self.phase == Phase::Init ==> self.iterations == 0
        &&& (self.phase == Phase::Assign || self.phase == Phase::Update) ==> self.iterations
            < MAX_ITERATIONS
        &&& self.phase == Phase::Finalize ==> self.iterations >= 1
    }

    /// The controller before anything has run.
    pub fn new() -> (controller: Controller)
        ensures
            controller == (Controller { phase: Phase::Init, iterations: 0 }),
            controller.wf(),
    {
        Controller { phase: Phase::Init, iterations: 0 }
    }

    /// Takes an event and returns the phase that is due after it.
    pub fn step(&mut self, event: Event) -> (phase: Phase)
        requires
            old(self).wf(),
        ensures
            *final(self) == next_state(*old(self), event),
            final(self).wf(),
            phase == final(self).phase,
    {
        match (self.phase, event) {
            (Phase::Init, Event::Started) => {
                self.phase = Phase::Assign;
            },
            (Phase::Assign, Event::Assigned) => {
                self.phase = Phase::Update;
            },
            (Phase::Update, Event::Updated { converged }) => {
                self.iterations = self.iterations + 1;
                if converged || self.iterations >= MAX_ITERATIONS {
                    self.phase = Phase::Finalize;
                } else {
                    self.phase = Phase::Assign;
                }
            },
            _ => {},
        }
        self.phase
    }

    /// Whether the run has ended.
    pub fn is_finished(&self) -> (finished: bool)
        ensures
            finished == (self.phase == Phase::Finalize),
    {
        match self.phase {
            Phase::Finalize => true,
            _ => false,
        }
    }
}

/// Every event leaves a well-formed controller well formed, never lowers
/// the number of completed iterations, and changes nothing once the run has
/// ended.
pub proof fn lemma_step_preserves_wf(state: Controller, event: Event)
    requires
        state.wf(),
    ensures
        next_state(state, event).wf(),
        next_state(state, event).iterations >= state.iterations,
        state.phase == Phase::Finalize ==> next_state(state, event) == state,
{
}

/// One iteration is an assignment pass followed by an update pass: from a
/// state in which assignment is due, the two completions lead either to the
/// end of the run or to the next assignment, with one more iteration done.
pub proof fn lemma_one_iteration(state: Controller, converged: bool)
    requires
        state.wf(),
        state.phase == Phase::Assign,
    ensures
        ({
            let after = after_iterations(state, seq![converged]);
            &&& after.wf()
            &&& after.iterations == state.iterations + 1
            &&& after.phase == Phase::Finalize <==> (converged || state.iterations + 1
                == MAX_ITERATIONS)
            &&& after.phase != Phase::Finalize ==> after.phase == Phase::Assign
        }),
{
    let outcomes = seq![converged];
    let assigned = next_state(state, Event::Assigned);
    let updated = next_state(assigned, Event::Updated { converged: outcomes[0] });
    assert(outcomes.subrange(1, 1).len() == 0);
    assert(after_iterations(updated, outcomes.subrange(1, 1)) == updated);
}

/// The run ends: whatever the update passes report, the controller has
/// reached the end after as many iterations as were left below the ceiling,
/// and it never counts more than the ceiling.
pub proof fn lemma_run_ends(state: Controller, outcomes: Seq<bool>)
    requires
        state.wf(),
        state.phase == Phase::Finalize || (state.phase == Phase::Assign && outcomes.len()
            >= MAX_ITERATIONS - state.iterations),
    ensures
        after_iterations(state, outcomes).phase == Phase::Finalize,
        after_iterations(state, outcomes).iterations <= MAX_ITERATIONS,
    decreases outcomes.len(),
{
    if outcomes.len() > 0 {
        let assigned = next_state(state, Event::Assigned);
        let updated = next_state(assigned, Event::Updated { converged: outcomes[0] });
        lemma_run_ends(updated, outcomes.subrange(1, outcomes.len() as int));
    }
}

} // verus!
