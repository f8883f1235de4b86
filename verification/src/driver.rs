//! The validation loop as a state machine.  The host front end performs
//! the heavyweight work (parsing a candidate text, re-running the
//! ownership oracle) and reports each outcome as an event; the step
//! function [`crate::rewrite_fn`] makes every decision: which parameter
//! to try next, whether to adopt or discard a candidate, and when to
//! stop.

use crate::Error;
use vstd::prelude::*;

verus! {

/// Where the driver stands.  The non-terminal states name the work the
/// host must perform next.
pub enum DriverState {
    /// The host must run the front end on `text` and request a rewrite
    /// restricted to formal parameter `idx`.
    AwaitRewrite { text: Vec<u8>, idx: u32 },
    /// The rewrite stage produced `candidate` from `text` at parameter
    /// `idx`; the host must re-run the front end and oracle on it.
    AwaitCheck { text: Vec<u8>, candidate: Vec<u8>, idx: u32 },
    /// Terminal: `text` is the accumulated result.
    Accepted { text: Vec<u8> },
    /// Terminal: the driver failed with `error`.
    Rejected { error: Error },
}

/// What the host reports back after performing the requested work.
pub enum DriverEvent {
    /// The front end cannot find the target function in the text.
    FunctionMissing,
    /// The requested parameter index exceeds the parameter count: the
    /// loop's normal termination signal.
    IndexOutOfRange,
    /// The rewrite stage reports no eligible change at this parameter.
    NoChange,
    /// The rewrite stage produced a candidate text.
    Rewritten { text: Vec<u8> },
    /// Re-validation reported zero ownership errors.
    CheckPassed,
    /// Re-validation reported ownership errors.
    CheckFailed,
    /// The front end or oracle failed to produce a result at all.
    Crashed,
}

impl DriverState {
    /// The parameter index has room to advance.
    pub open spec fn wf(self) -> bool {
        match self {
            DriverState::AwaitRewrite { idx, .. } => idx < u32::MAX,
            DriverState::AwaitCheck { idx, .. } => idx < u32::MAX,
            DriverState::Accepted { .. } => true,
            DriverState::Rejected { .. } => true,
        }
    }
}

/// The driver's transition function.  A failed speculative rewrite at
/// one parameter discards only the candidate; analysis continues at the
/// next parameter.  An event that the protocol does not allow in the
/// current state is a host defect and rejects with `Internal`.  Terminal
/// states absorb every event.
pub open spec fn spec_step(s: DriverState, e: DriverEvent) -> DriverState {
    match s {
        DriverState::AwaitRewrite { text, idx } => match e {
            DriverEvent::FunctionMissing => DriverState::Rejected { error: Error::FnNotFound },
            DriverEvent::IndexOutOfRange => DriverState::Accepted { text },
            DriverEvent::NoChange => DriverState::AwaitRewrite { text, idx: (idx + 1) as u32 },
            DriverEvent::Rewritten { text: candidate } => DriverState::AwaitCheck {
                text,
                candidate,
                idx,
            },
            DriverEvent::CheckPassed => DriverState::Rejected { error: Error::Internal },
            DriverEvent::CheckFailed => DriverState::Rejected { error: Error::Internal },
            DriverEvent::Crashed => DriverState::Rejected { error: Error::Internal },
        },
        DriverState::AwaitCheck { text, candidate, idx } => match e {
            DriverEvent::CheckPassed => DriverState::AwaitRewrite {
                text: candidate,
                idx: (idx + 1) as u32,
            },
            DriverEvent::CheckFailed => DriverState::AwaitRewrite { text, idx: (idx + 1) as u32 },
            DriverEvent::Crashed => DriverState::Rejected { error: Error::Internal },
            _ => DriverState::Rejected { error: Error::Internal },
        },
        _ => s,
    }
}

/// The state the driver starts in for one target function: about to
/// request a rewrite of the original text restricted to parameter 0.
pub fn driver_start(source: Vec<u8>) -> (s: DriverState)
    ensures
        s == (DriverState::AwaitRewrite { text: source, idx: 0 }),
        s.wf(),
{
    DriverState::AwaitRewrite { text: source, idx: 0 }
}

/// The driver after consuming a sequence of events, one step per event.
pub open spec fn run_events(s: DriverState, evs: Seq<DriverEvent>) -> DriverState
    decreases evs.len(),
{
    if evs.len() == 0 {
        s
    } else {
        run_events(spec_step(s, evs[0]), evs.drop_first())
    }
}

/// The events of one complete attempt at a parameter: either the
/// rewrite stage found nothing, or it produced a candidate whose
/// re-validation passed or failed.
pub open spec fn attempt_events_ok(evs: Seq<DriverEvent>) -> bool {
    ||| (evs.len() == 1 && evs[0] is NoChange)
    ||| (evs.len() == 2 && evs[0] is Rewritten && (evs[1] is CheckPassed
        || evs[1] is CheckFailed))
}

/// The driver after a sequence of complete attempts.
pub open spec fn run_attempts(s: DriverState, attempts: Seq<Seq<DriverEvent>>) -> DriverState
    decreases attempts.len(),
{
    if attempts.len() == 0 {
        s
    } else {
        run_attempts(run_events(s, attempts[0]), attempts.drop_first())
    }
}

/// The driver is waiting to try parameter `i`.
pub open spec fn awaiting_at(s: DriverState, i: int) -> bool {
    s matches DriverState::AwaitRewrite { idx, .. } && idx == i
}

/// Termination of the per-parameter loop: from parameter `idx`, after
/// any `k` complete attempts — however many of them succeed — the driver
/// is waiting at parameter `idx + k`, and the out-of-range signal then
/// terminates it with the accumulated text.  For a function with `k`
/// formal parameters started at parameter 0, the loop thus performs
/// exactly `k` attempts before the out-of-range signal ends it.
pub proof fn lemma_driver_termination(text: Vec<u8>, idx: u32, attempts: Seq<Seq<DriverEvent>>)
    requires
        forall|j: int| 0 <= j < attempts.len() ==> attempt_events_ok(#[trigger] attempts[j]),
        idx + attempts.len() < u32::MAX,
    ensures
        awaiting_at(
            run_attempts(DriverState::AwaitRewrite { text, idx }, attempts),
            idx + attempts.len(),
        ),
        spec_step(
            run_attempts(DriverState::AwaitRewrite { text, idx }, attempts),
            DriverEvent::IndexOutOfRange,
        ) is Accepted,
    decreases attempts.len(),
{
    let s0 = DriverState::AwaitRewrite { text, idx };
    if attempts.len() == 0 {
    } else {
        let first = attempts[0];
        assert(attempt_events_ok(first));
        let s1 = run_events(s0, first);
        if first.len() == 1 {
            assert(s1 == run_events(spec_step(s0, first[0]), first.drop_first()));
            assert(first.drop_first().len() == 0);
        } else {
            let mid = spec_step(s0, first[0]);
            assert(first.drop_first()[0] == first[1]);
            assert(s1 == run_events(spec_step(mid, first[1]), first.drop_first().drop_first()));
        }
        assert(s1 matches DriverState::AwaitRewrite { idx: i1, .. } && i1 == idx + 1);
        match s1 {
            DriverState::AwaitRewrite { text: t1, idx: i1 } => {
                assert forall|j: int| 0 <= j < attempts.drop_first().len() implies attempt_events_ok(
                    #[trigger] attempts.drop_first()[j],
                ) by {
                    assert(attempts.drop_first()[j] == attempts[j + 1]);
                }
                lemma_driver_termination(t1, i1, attempts.drop_first());
            },
            _ => {
                assert(false);
            },
        }
    }
}

/// The accumulated text changes only by adopting a candidate whose
/// re-validation passed: whatever single step the driver takes, the text
/// it goes on working with is either the text it already held, or the
/// pending candidate right after a `CheckPassed` event — never a
/// candidate whose check failed, and never anything else.
pub proof fn lemma_only_validated_text_adopted(s: DriverState, e: DriverEvent)
    ensures
        spec_step(s, e) matches DriverState::AwaitRewrite { text: t, .. } ==> ((
        s matches DriverState::AwaitRewrite { text, .. } && t == text) || (
        s matches DriverState::AwaitCheck { text, candidate, .. } && ((e is CheckPassed && t
            == candidate) || (e is CheckFailed && t == text)))),
{
}

/// Safety of the validation loop, as far as the driver decides it: a
/// candidate whose re-validation reported ownership errors is discarded,
/// and the loop continues at the next parameter with the previously
/// accumulated text — the original clone stays in the output.
pub proof fn lemma_failed_check_preserves_text(text: Vec<u8>, candidate: Vec<u8>, idx: u32)
    requires
        idx < u32::MAX,
    ensures
        spec_step(
            DriverState::AwaitCheck { text, candidate, idx },
            DriverEvent::CheckFailed,
        ) == (DriverState::AwaitRewrite { text, idx: (idx + 1) as u32 }),
        spec_step(
            DriverState::AwaitCheck { text, candidate, idx },
            DriverEvent::CheckPassed,
        ) == (DriverState::AwaitRewrite { text: candidate, idx: (idx + 1) as u32 }),
{
}

} // verus!
