//! The decisions of the loop that drives the connection to the sound server:
//! what to do when the connection changes state, and whether to go on
//! iterating.

use vstd::prelude::*;

verus! {

/// The states of a connection to the sound server.
#[derive(Debug, Clone, Copy, PartialEq, Eq)]
pub enum ContextState {
    Unconnected,
    Connecting,
    Authorizing,
    SettingName,
    Ready,
    Failed,
    Terminated,
}

/// What a change of connection state calls for.
#[derive(Debug, Clone, Copy, PartialEq, Eq)]
pub enum ContextResponse {
    /// The connection is ready: start the operation.
    RunOperation,
    /// The connection is gone: the work is over.
    MarkDone,
    /// Nothing yet.
    Wait,
}

/// How one iteration of the main loop went.
#[derive(Debug, Clone, Copy, PartialEq, Eq)]
pub enum IterateOutcome {
    Success,
    Quit,
    Error,
}

/// What the main loop does next.
#[derive(Debug, Clone, Copy, PartialEq, Eq)]
pub enum LoopStep {
    /// Run one more iteration.
    Iterate,
    /// The work is done: shut the loop down cleanly.
    Finish,
    /// The last iteration failed: give up at once.
    Abort,
}

/// The response to a new connection state.
pub open spec fn response_to(state: ContextState) -> ContextResponse {
    match state {
        ContextState::Ready => ContextResponse::RunOperation,
        ContextState::Failed | ContextState::Terminated => ContextResponse::MarkDone,
        _ => ContextResponse::Wait,
    }
}

/// Decides what a new connection state calls for.
pub fn respond_to_context_state(state: ContextState) -> (response: ContextResponse)
    ensures
        response == response_to(state),
        state == ContextState::Ready <==> response == ContextResponse::RunOperation,
        (state == ContextState::Failed || state == ContextState::Terminated) <==> response
            == ContextResponse::MarkDone,
{
    match state {
        ContextState::Ready => ContextResponse::RunOperation,
        ContextState::Failed | ContextState::Terminated => ContextResponse::MarkDone,
        _ => ContextResponse::Wait,
    }
}

/// The next step of the loop, given how the last iteration went (`Success`
/// before the first) and whether the work is done: a failed iteration ends
/// the loop at once, else it runs until the work is done.
pub open spec fn step_after(last: IterateOutcome, done: bool) -> LoopStep {
    match last {
        IterateOutcome::Quit | IterateOutcome::Error => LoopStep::Abort,
        IterateOutcome::Success => if done {
            LoopStep::Finish
        } else {
            LoopStep::Iterate
        },
    }
}

/// Decides the next step of the main loop.
pub fn next_loop_step(last: IterateOutcome, done: bool) -> (step: LoopStep)
    ensures
        step == step_after(last, done),
        last != IterateOutcome::Success ==> step == LoopStep::Abort,
        last == IterateOutcome::Success && done ==> step == LoopStep::Finish,
        last == IterateOutcome::Success && !done ==> step == LoopStep::Iterate,
{
    match last {
        IterateOutcome::Quit | IterateOutcome::Error => LoopStep::Abort,
        IterateOutcome::Success => if done {
            LoopStep::Finish
        } else {
            LoopStep::Iterate
        },
    }
}

/// A ready connection starts the operation, a failed or terminated one ends
/// the work, and every other state waits.
pub proof fn lemma_context_responses(state: ContextState)
    ensures
        response_to(state) == ContextResponse::RunOperation <==> state == ContextState::Ready,
        response_to(state) == ContextResponse::MarkDone <==> (state == ContextState::Failed
            || state == ContextState::Terminated),
        response_to(state) == ContextResponse::Wait <==> (state != ContextState::Ready && state
            != ContextState::Failed && state != ContextState::Terminated),
{
}

/// A failed iteration (quit or error) aborts the loop whether or not the
/// work is done; after a successful one the loop finishes exactly when the
/// work is done and iterates again otherwise. The loop never aborts after a
/// successful iteration.
pub proof fn lemma_loop_steps(last: IterateOutcome, done: bool)
    ensures
        (last == IterateOutcome::Quit || last == IterateOutcome::Error) ==> step_after(last, done)
            == LoopStep::Abort,
        step_after(last, done) == LoopStep::Abort <==> last != IterateOutcome::Success,
        last == IterateOutcome::Success ==> (step_after(last, done) == LoopStep::Finish <==> done),
        last == IterateOutcome::Success ==> (step_after(last, done) == LoopStep::Iterate <==> !done),
{
}

} // verus!
