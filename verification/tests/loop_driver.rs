use analycore::driver::{driver_start, DriverEvent, DriverState};
use analycore::{rewrite_fn, CompileResult, Error};

#[test]
fn start_awaits_the_first_parameter() {
    match driver_start(b"src".to_vec()) {
        DriverState::AwaitRewrite { text, idx } => {
            assert_eq!(text, b"src".to_vec());
            assert_eq!(idx, 0);
        },
        _ => panic!("the driver must begin at parameter 0"),
    }
}

#[test]
fn out_of_range_accepts_the_accumulated_text() {
    let st = rewrite_fn(driver_start(b"src".to_vec()), DriverEvent::IndexOutOfRange);
    match st {
        DriverState::Accepted { text } => assert_eq!(text, b"src".to_vec()),
        _ => panic!("the out-of-range signal must accept"),
    }
}

#[test]
fn missing_function_is_rejected() {
    let st = rewrite_fn(driver_start(b"src".to_vec()), DriverEvent::FunctionMissing);
    match st {
        DriverState::Rejected { error } => assert_eq!(error, Error::FnNotFound),
        _ => panic!("a missing function must reject"),
    }
}

#[test]
fn front_end_crash_is_internal() {
    let st = rewrite_fn(driver_start(b"src".to_vec()), DriverEvent::Crashed);
    match st {
        DriverState::Rejected { error } => assert_eq!(error, Error::Internal),
        _ => panic!("a hard front-end failure must reject"),
    }
}

#[test]
fn protocol_violation_is_internal() {
    let st = rewrite_fn(driver_start(b"src".to_vec()), DriverEvent::CheckPassed);
    match st {
        DriverState::Rejected { error } => assert_eq!(error, Error::Internal),
        _ => panic!("a check verdict without a pending candidate must reject"),
    }
}

// A validated candidate is adopted and the loop moves to the next
// parameter.
#[test]
fn passed_check_adopts_the_candidate() {
    let st = driver_start(b"v0".to_vec());
    let st = rewrite_fn(st, DriverEvent::Rewritten { text: b"v1".to_vec() });
    match &st {
        DriverState::AwaitCheck { text, candidate, idx } => {
            assert_eq!(*text, b"v0".to_vec());
            assert_eq!(*candidate, b"v1".to_vec());
            assert_eq!(*idx, 0);
        },
        _ => panic!("a produced candidate must await its check"),
    }
    let st = rewrite_fn(st, DriverEvent::CheckPassed);
    match st {
        DriverState::AwaitRewrite { text, idx } => {
            assert_eq!(text, b"v1".to_vec());
            assert_eq!(idx, 1);
        },
        _ => panic!("a validated candidate must be adopted"),
    }
}

// Safety: a candidate whose re-validation reports ownership errors is
// discarded; the previously accumulated text survives and the loop goes
// on at the next parameter.
#[test]
fn failed_check_discards_the_candidate() {
    let st = driver_start(b"v0".to_vec());
    let st = rewrite_fn(st, DriverEvent::Rewritten { text: b"bad".to_vec() });
    let st = rewrite_fn(st, DriverEvent::CheckFailed);
    match st {
        DriverState::AwaitRewrite { text, idx } => {
            assert_eq!(text, b"v0".to_vec());
            assert_eq!(idx, 1);
        },
        _ => panic!("a failed candidate must be discarded, not abort the loop"),
    }
}

// Termination: with two formal parameters the loop performs exactly two
// attempts — one skipped, one discarded — before the out-of-range signal
// at index 2 accepts the accumulated text.
#[test]
fn one_attempt_per_parameter_then_termination() {
    let mut st = driver_start(b"v0".to_vec());
    let mut requests = 0;
    loop {
        match &st {
            DriverState::AwaitRewrite { idx, .. } => {
                requests += 1;
                let ev = match requests {
                    1 => {
                        assert_eq!(*idx, 0);
                        DriverEvent::NoChange
                    },
                    2 => {
                        assert_eq!(*idx, 1);
                        DriverEvent::Rewritten { text: b"v1".to_vec() }
                    },
                    3 => {
                        assert_eq!(*idx, 2);
                        DriverEvent::IndexOutOfRange
                    },
                    _ => panic!("the loop must stop after the out-of-range signal"),
                };
                st = rewrite_fn(st, ev);
            },
            DriverState::AwaitCheck { .. } => {
                st = rewrite_fn(st, DriverEvent::CheckFailed);
            },
            DriverState::Accepted { text } => {
                assert_eq!(requests, 3);
                assert_eq!(*text, b"v0".to_vec());
                break;
            },
            DriverState::Rejected { .. } => panic!("no rejection was signalled"),
        }
    }
}

#[test]
fn compile_result_distinguishes_outcomes() {
    let a: CompileResult<u32> = CompileResult::Pass(3);
    let b: CompileResult<u32> = CompileResult::Pass(3);
    let c: CompileResult<u32> = CompileResult::Fail(3);
    assert_eq!(a, b);
    assert_ne!(a, c);
    assert_eq!(a.clone(), b);
}

#[test]
fn error_values_compare() {
    assert_eq!(Error::FnNotFound, Error::FnNotFound);
    assert_ne!(Error::FnNotFound, Error::Internal);
    assert_ne!(Error::ArgIndexOut, Error::Internal);
}
