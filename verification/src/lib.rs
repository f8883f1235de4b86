//! A source-to-source refactoring engine that removes unnecessary clone
//! calls from a function body and rewrites the affected declarations into
//! shared references, inserting the lifetime annotations that keep the
//! surrounding declarations well-formed.
//!
//! The crate works on a plain-value model of one function body (basic
//! blocks of statements and terminators over numbered locals) together
//! with the answers of an ownership oracle about region variables.  A
//! host front end parses source text into that model, re-checks rewritten
//! text, and drives the per-parameter validation loop through the state
//! machine in [`driver`].

use vstd::prelude::*;

pub mod driver;
pub mod graph;
pub mod model;
pub mod patch;
pub mod rewrite;

verus! {

/// The terminal failures of the rewrite driver.
#[derive(Clone, Copy, PartialEq, Eq, Structural, Debug)]
pub enum Error {
    /// The per-parameter loop asked for a formal parameter index past the
    /// end of the parameter list.  This is the loop's normal termination
    /// signal, never surfaced to a caller by the driver itself.
    ArgIndexOut,
    /// The requested function is absent from the parsed source.
    FnNotFound,
    /// The front end or the ownership oracle failed to produce a result.
    Internal,
}

/// The outcome of one front-end invocation: the embedded result of the
/// analysis callback, tagged by whether the compilation itself succeeded
/// or aborted (a rewritten candidate that no longer compiles comes back
/// as `Fail`).
#[derive(Clone, PartialEq, Eq, Debug)]
pub enum CompileResult<T> {
    Pass(T),
    Fail(T),
}

/// One step of the per-parameter validation loop for a target function.
///
/// The host runs the loop: starting from [`driver::driver_start`], it
/// performs the work the current state names — parse the text and
/// request a rewrite at the given parameter, or re-check a candidate —
/// and hands the outcome back here as an event.  This function decides
/// the next state: a candidate is adopted only when its re-validation
/// reported zero ownership errors, a failed candidate is discarded
/// without aborting later parameters, the out-of-range signal accepts
/// the accumulated text, and a hard front-end failure rejects the whole
/// run.
pub fn rewrite_fn(state: driver::DriverState, event: driver::DriverEvent) -> (next:
    driver::DriverState)
    requires
        state.wf(),
    ensures
        next == driver::spec_step(state, event),
{
    match state {
        driver::DriverState::AwaitRewrite { text, idx } => match event {
            driver::DriverEvent::FunctionMissing => driver::DriverState::Rejected {
                error: Error::FnNotFound,
            },
            driver::DriverEvent::IndexOutOfRange => driver::DriverState::Accepted { text },
            driver::DriverEvent::NoChange => driver::DriverState::AwaitRewrite {
                text,
                idx: idx + 1,
            },
            driver::DriverEvent::Rewritten { text: candidate } => driver::DriverState::AwaitCheck {
                text,
                candidate,
                idx,
            },
            driver::DriverEvent::CheckPassed => driver::DriverState::Rejected {
                error: Error::Internal,
            },
            driver::DriverEvent::CheckFailed => driver::DriverState::Rejected {
                error: Error::Internal,
            },
            driver::DriverEvent::Crashed => driver::DriverState::Rejected {
                error: Error::Internal,
            },
        },
        driver::DriverState::AwaitCheck { text, candidate, idx } => match event {
            driver::DriverEvent::CheckPassed => driver::DriverState::AwaitRewrite {
                text: candidate,
                idx: idx + 1,
            },
            driver::DriverEvent::CheckFailed => driver::DriverState::AwaitRewrite {
                text,
                idx: idx + 1,
            },
            driver::DriverEvent::Crashed => driver::DriverState::Rejected {
                error: Error::Internal,
            },
            _ => driver::DriverState::Rejected { error: Error::Internal },
        },
        driver::DriverState::Accepted { text } => driver::DriverState::Accepted { text },
        driver::DriverState::Rejected { error } => driver::DriverState::Rejected { error },
    }
}

} // verus!
