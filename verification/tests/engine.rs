//! Driving the completion-ring engine as a kernel-side driver would: staging
//! descriptors, handing back completion entries, and checking the delivery
//! guarantees.

use completion_ring::probe::{NopOp, OpLog};
use completion_ring::ring::{
    classify_drain_wait, classify_submit, classify_wait, Cqe, Ring, SubmitDirective,
    ERRNO_BUSY, ERRNO_INTERRUPTED, ERRNO_TIMER_EXPIRED,
};
use completion_ring::RingError;

fn new_ring() -> Ring<OpLog, NopOp> {
    Ring::new(OpLog::new())
}

/// Pops every staged descriptor, returning the correlation tags.
fn drain_staged(ring: &mut Ring<OpLog, NopOp>) -> Vec<u64> {
    let mut keys = Vec::new();
    while let Some(t) = ring.pop_staged() {
        keys.push(t.user_data);
    }
    keys
}

#[test]
fn each_operation_completes_exactly_once() {
    let mut ring = new_ring();
    for id in 0..3u64 {
        ring.push(NopOp { id, follow_ups: 0 }).unwrap();
    }
    assert_eq!(ring.in_flight(), 3);
    let keys = drain_staged(&mut ring);
    assert_eq!(keys.len(), 3);
    let cqes: Vec<Cqe> = keys.iter().map(|&k| Cqe { user_data: k, result: 0 }).collect();
    ring.process_completions(&cqes).unwrap();
    assert!(ring.is_drained());
    assert_eq!(ring.in_flight(), 0);
    let log = &ring.ctx().completions;
    assert_eq!(log.len(), 3);
    for id in 0..3u64 {
        assert_eq!(log.iter().filter(|(i, _)| *i == id).count(), 1);
    }
    for (_, res) in log.iter() {
        assert_eq!(*res, Ok(0));
    }
    // nothing further fires: no operation is left to complete
    let empty: Vec<Cqe> = Vec::new();
    ring.process_completions(&empty).unwrap();
    assert_eq!(ring.ctx().completions.len(), 3);
}

#[test]
fn slot_keys_are_never_shared_while_outstanding() {
    let mut ring = new_ring();
    ring.push(NopOp { id: 1, follow_ups: 0 }).unwrap();
    ring.push(NopOp { id: 2, follow_ups: 0 }).unwrap();
    let keys = drain_staged(&mut ring);
    assert_ne!(keys[0], keys[1]);
    // complete the first; its key may now be reused, but only after delivery
    ring.process_completions(&vec![Cqe { user_data: keys[0], result: 0 }]).unwrap();
    ring.push(NopOp { id: 3, follow_ups: 0 }).unwrap();
    let more = drain_staged(&mut ring);
    assert_eq!(more.len(), 1);
    // the second operation is still outstanding: its key is not handed out
    assert_ne!(more[0], keys[1]);
}

#[test]
fn backpressure_is_invisible_to_the_submitter() {
    // kernel-side queue depth 4, ten operations submitted
    let depth = 4;
    let mut ring = new_ring();
    for id in 0..10u64 {
        // every push succeeds: no queue-full error ever reaches the caller
        assert_eq!(ring.push(NopOp { id, follow_ups: 0 }), Ok(()));
    }
    // a saturated kernel answers the submit call with EBUSY: the engine's
    // directive is to process completions and retry, not to fail
    assert_eq!(
        classify_submit(Err(ERRNO_BUSY)),
        SubmitDirective::ProcessCompletionsAndRetry
    );
    // the driver loop: at most `depth` submissions live in the kernel
    let mut completed = 0u64;
    while !ring.is_drained() {
        let mut kernel: Vec<u64> = Vec::new();
        while kernel.len() < depth {
            match ring.pop_staged() {
                Some(t) => kernel.push(t.user_data),
                None => break,
            }
        }
        assert!(!kernel.is_empty());
        let cqes: Vec<Cqe> = kernel.iter().map(|&k| Cqe { user_data: k, result: 0 }).collect();
        ring.process_completions(&cqes).unwrap();
        completed += cqes.len() as u64;
    }
    assert_eq!(completed, 10);
    assert_eq!(ring.ctx().completions.len(), 10);
}

#[test]
fn drain_leaves_nothing_in_flight() {
    let mut ring = new_ring();
    for id in 0..5u64 {
        ring.push(NopOp { id, follow_ups: 0 }).unwrap();
    }
    // the drain loop: process what is visible, then wait briefly and retry
    while !ring.is_drained() {
        let keys = drain_staged(&mut ring);
        let cqes: Vec<Cqe> = keys.iter().map(|&k| Cqe { user_data: k, result: 0 }).collect();
        ring.process_completions(&cqes).unwrap();
        // a timed-out wait inside the drain loop is a normal retry, never an error
        assert_eq!(classify_drain_wait(Err(ERRNO_TIMER_EXPIRED)), Ok(()));
    }
    assert_eq!(ring.in_flight(), 0);
    assert_eq!(ring.ctx().completions.len(), 5);
}

#[test]
fn errors_are_isolated_to_their_operation() {
    for flip in [false, true] {
        let mut ring = new_ring();
        ring.push(NopOp { id: 1, follow_ups: 0 }).unwrap();
        ring.push(NopOp { id: 2, follow_ups: 0 }).unwrap();
        let keys = drain_staged(&mut ring);
        // operation 1 fails with ENOENT (-2), operation 2 succeeds with 7,
        // in either delivery order
        let mut cqes = vec![
            Cqe { user_data: keys[0], result: -2 },
            Cqe { user_data: keys[1], result: 7 },
        ];
        if flip {
            cqes.reverse();
        }
        ring.process_completions(&cqes).unwrap();
        let log = &ring.ctx().completions;
        assert_eq!(log.len(), 2);
        let of = |id: u64| log.iter().find(|(i, _)| *i == id).unwrap().1;
        assert_eq!(of(1), Err(RingError::Os(2)));
        assert_eq!(of(2), Ok(7));
        assert!(ring.is_drained());
    }
}

#[test]
fn wait_timeout_is_an_answer_not_an_error() {
    assert_eq!(classify_wait(Err(ERRNO_TIMER_EXPIRED)), Ok(None));
    assert_eq!(classify_wait(Ok(3)), Ok(Some(3)));
    assert_eq!(classify_wait(Err(5)), Err(RingError::Os(5)));
}

#[test]
fn submit_outcomes_classify_exactly() {
    assert_eq!(classify_submit(Ok(4)), SubmitDirective::Accepted(4));
    assert_eq!(classify_submit(Err(ERRNO_INTERRUPTED)), SubmitDirective::RetryNow);
    assert_eq!(classify_submit(Err(22)), SubmitDirective::Fail(22));
    assert_eq!(classify_drain_wait(Ok(1)), Ok(()));
    assert_eq!(classify_drain_wait(Err(9)), Err(RingError::Os(9)));
}

#[test]
fn reentrant_submission_completes_the_whole_chain() {
    let mut ring = new_ring();
    // one operation that re-submits twice from its own completion callback
    ring.push(NopOp { id: 9, follow_ups: 2 }).unwrap();
    let mut rounds = 0;
    while !ring.is_drained() {
        rounds += 1;
        assert!(rounds <= 3);
        let keys = drain_staged(&mut ring);
        assert!(!keys.is_empty());
        let cqes: Vec<Cqe> = keys.iter().map(|&k| Cqe { user_data: k, result: 0 }).collect();
        ring.process_completions(&cqes).unwrap();
    }
    // the original and both follow-ups completed exactly once each
    let log = &ring.ctx().completions;
    assert_eq!(log.len(), 3);
    assert!(log.iter().all(|(id, res)| *id == 9 && *res == Ok(0)));
    assert_eq!(ring.in_flight(), 0);
}

#[test]
fn interleaved_submission_and_processing_still_delivers_once() {
    let mut ring = new_ring();
    ring.push(NopOp { id: 0, follow_ups: 0 }).unwrap();
    ring.push(NopOp { id: 1, follow_ups: 0 }).unwrap();
    let keys = drain_staged(&mut ring);
    // deliver only the first, then submit more before touching the second
    ring.process_completions(&vec![Cqe { user_data: keys[0], result: 0 }]).unwrap();
    ring.push(NopOp { id: 2, follow_ups: 0 }).unwrap();
    ring.push(NopOp { id: 3, follow_ups: 0 }).unwrap();
    let later = drain_staged(&mut ring);
    let mut rest: Vec<Cqe> = later.iter().map(|&k| Cqe { user_data: k, result: 0 }).collect();
    rest.push(Cqe { user_data: keys[1], result: 0 });
    ring.process_completions(&rest).unwrap();
    assert!(ring.is_drained());
    let log = &ring.ctx().completions;
    assert_eq!(log.len(), 4);
    for id in 0..4u64 {
        assert_eq!(log.iter().filter(|(i, _)| *i == id).count(), 1);
    }
}

#[test]
fn default_result_translation() {
    assert_eq!(completion_ring::default_result(0), Ok(0));
    assert_eq!(completion_ring::default_result(17), Ok(17));
    assert_eq!(completion_ring::default_result(-1), Err(RingError::Os(1)));
    assert_eq!(
        completion_ring::default_result(i32::MIN),
        Err(RingError::Os(-(i32::MIN as i64)))
    );
}
