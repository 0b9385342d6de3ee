use candle_core::{Device, Tensor};
use diloco::coordinator::{
    initial_params, mismatch_message, Closing, InitialParams, Refusal, Submission,
};
use diloco::params::{deserialize, serialize};
use diloco::worker::{Action, Reply, WorkerRun};
use diloco::{Coordinator, OuterOptimizer, ParamMap};

fn one(name: &str, x: f32) -> ParamMap {
    let mut params = ParamMap::new();
    params.insert(name.to_string(), Tensor::new(&[x], &Device::Cpu).unwrap());
    params
}

fn payload(x: f32) -> Vec<u8> {
    serialize(&one("w", x)).unwrap()
}

fn read(bytes: &[u8]) -> f32 {
    let params = deserialize(bytes).unwrap();
    params.get(&"w".to_string()).unwrap().to_vec1::<f32>().unwrap()[0]
}

fn coordinator(world_size: usize, min_workers: Option<usize>) -> Coordinator<&'static str> {
    let global = one("w", 8.0);
    let outer = OuterOptimizer::new(&global, 1.0f64.to_bits(), 0.0f64.to_bits()).unwrap();
    Coordinator::new(global, outer, world_size, min_workers)
}

#[test]
fn a_round_is_collected_and_closed() {
    let mut c = coordinator(2, None);
    assert_eq!((c.round(), c.world_size(), c.min_workers()), (1, 2, 2));
    let (bytes, round) = c.init().unwrap();
    assert_eq!((read(&bytes), round), (8.0, 1));

    let first = c.all_reduce(1, &payload(2.0), "a").unwrap();
    assert_eq!(first, Submission { round: 1, submitted: 1, spawn_timer: true, all_in: false });
    let second = c.all_reduce(1, &payload(4.0), "b").unwrap();
    assert_eq!(second, Submission { round: 1, submitted: 2, spawn_timer: false, all_in: true });

    match c.close_round(1, c.world_size()) {
        Closing::Closed { submitted, new_round, params, waiters } => {
            assert_eq!((submitted, new_round), (2, 2));
            assert_eq!(read(&params), 3.0);
            assert_eq!(waiters, vec!["a", "b"]);
        }
        _ => panic!("expected the round to close"),
    }
    assert_eq!((c.round(), c.submitted()), (2, 0));
    let (bytes, round) = c.init().unwrap();
    assert_eq!((read(&bytes), round), (3.0, 2));
}

#[test]
fn a_round_is_closed_once() {
    let mut c = coordinator(1, None);
    c.all_reduce(1, &payload(2.0), "a").unwrap();
    assert!(matches!(c.close_round(1, 1), Closing::Closed { .. }));
    assert!(matches!(c.close_round(1, 0), Closing::Stale));
    assert_eq!(c.round(), 2);
}

#[test]
fn a_late_worker_is_refused_and_resyncs() {
    let mut c = coordinator(1, None);
    c.all_reduce(1, &payload(2.0), "a").unwrap();
    c.close_round(1, 1);
    match c.all_reduce(1, &payload(5.0), "late") {
        Err(Refusal::RoundMismatch { sent, current }) => {
            assert_eq!((sent, current), (1, 2));
            assert_eq!(
                mismatch_message(3, sent, current),
                "worker 3 sent round 1 but coordinator is on round 2 — call Init to resync"
            );
        }
        _ => panic!("expected a refusal"),
    }
    assert_eq!(c.submitted(), 0);
    let (_, round) = c.init().unwrap();
    assert!(c.all_reduce(round, &payload(5.0), "late").is_ok());
}

#[test]
fn a_bad_payload_is_refused_before_the_round_is_looked_at() {
    let mut c = coordinator(1, None);
    assert!(matches!(c.all_reduce(7, b"junk", "a"), Err(Refusal::BadPayload(_))));
    assert!(matches!(c.all_reduce(1, b"junk", "a"), Err(Refusal::BadPayload(_))));
    assert_eq!(c.submitted(), 0);
}

#[test]
fn a_timeout_only_warns_unless_fewer_workers_suffice() {
    let mut c = coordinator(3, None);
    c.all_reduce(1, &payload(2.0), "a").unwrap();
    c.all_reduce(1, &payload(4.0), "b").unwrap();
    assert!(matches!(c.close_round(1, c.min_workers()), Closing::TooFew { submitted: 2 }));
    assert_eq!((c.round(), c.submitted()), (1, 2));

    let mut c = coordinator(3, Some(2));
    c.all_reduce(1, &payload(2.0), "a").unwrap();
    assert!(matches!(c.close_round(1, c.min_workers()), Closing::TooFew { submitted: 1 }));
    c.all_reduce(1, &payload(4.0), "b").unwrap();
    match c.close_round(1, c.min_workers()) {
        Closing::Closed { submitted, params, .. } => {
            assert_eq!(submitted, 2);
            assert_eq!(read(&params), 3.0);
        }
        _ => panic!("expected the round to close"),
    }
}

#[test]
fn a_failed_step_drops_the_round_and_repeats_it() {
    let mut c = coordinator(2, None);
    c.submit(1, one("w", 2.0), "a").unwrap();
    c.submit(1, one("other", 2.0), "b").unwrap();
    assert!(matches!(c.close_round(1, 2), Closing::StepFailed { .. }));
    assert_eq!((c.round(), c.submitted()), (1, 0));
    let again = c.submit(1, one("w", 2.0), "a").unwrap();
    assert_eq!(again, Submission { round: 1, submitted: 1, spawn_timer: false, all_in: false });
}

#[test]
fn an_empty_round_cannot_be_stepped() {
    let mut c = coordinator(2, Some(0));
    assert!(matches!(c.close_round(1, 0), Closing::StepFailed { .. }));
    assert_eq!(c.round(), 1);
}

#[test]
fn parameters_that_do_not_serialize_fail_the_round() {
    let name = "n".repeat(100_000_001);
    let global = one(&name, 1.0);
    let outer = OuterOptimizer::new(&global, 1.0f64.to_bits(), 0.0f64.to_bits()).unwrap();
    let mut c: Coordinator<()> = Coordinator::new(global, outer, 1, None);
    assert!(c.init().is_err());
    c.submit(1, one(&name, 0.5), ()).unwrap();
    assert!(matches!(c.close_round(1, 1), Closing::SerializeFailed { .. }));
    assert_eq!((c.round(), c.submitted()), (1, 0));
}

#[test]
fn workers_and_coordinator_stay_in_step() {
    let mut c = coordinator(2, None);
    let mut runs: Vec<WorkerRun> = (0..2).map(|_| WorkerRun::start(c.round(), 3).0).collect();
    for expected in 1..=3 {
        for run in &runs {
            c.all_reduce(run.round, &payload(1.0), "w").unwrap();
        }
        let Closing::Closed { new_round, .. } = c.close_round(expected, 2) else {
            panic!("expected the round to close");
        };
        for run in runs.iter_mut() {
            let t = run.advance(Reply::Reduced { next_round: new_round });
            assert_eq!(t.completed, Some(expected));
            assert_eq!(t.action, if expected < 3 { Action::Train } else { Action::Finish });
        }
    }
}

#[test]
fn initial_parameters_come_from_the_file_that_exists() {
    assert_eq!(initial_params(Some(true)), InitialParams::Load);
    assert_eq!(initial_params(Some(false)), InitialParams::Save);
    assert_eq!(initial_params(None), InitialParams::Fresh);
}

#[test]
fn a_joining_worker_goes_on_like_the_others() {
    let mut c = coordinator(1, None);
    c.all_reduce(1, &payload(2.5), "a").unwrap();
    match c.close_round(1, 1) {
        Closing::Closed { new_round, params, .. } => {
            assert_eq!(c.init().unwrap(), (params, new_round));
        }
        _ => panic!("expected the round to close"),
    }
}

#[test]
fn a_round_starts_one_timer_even_if_it_is_repeated() {
    let mut c = coordinator(2, None);
    let mut timers = 0;
    for waiter in ["a", "b", "c"] {
        if c.submit(1, one("other", 2.0), waiter).unwrap().spawn_timer {
            timers += 1;
        }
        c.close_round(1, 1);
    }
    assert_eq!((c.round(), timers), (1, 1));
    c.submit(1, one("w", 2.0), "d").unwrap();
    assert!(matches!(c.close_round(1, 1), Closing::Closed { .. }));
    assert!(c.submit(2, one("w", 2.0), "e").unwrap().spawn_timer);
}

#[test]
fn a_timeout_that_fails_is_renewed() {
    let mut c = coordinator(3, Some(1));
    assert!(c.submit(1, one("other", 2.0), "a").unwrap().spawn_timer);
    assert!(matches!(c.time_out(1), Closing::StepFailed { .. }));
    assert_eq!((c.round(), c.submitted()), (1, 0));
    assert!(c.submit(1, one("w", 2.0), "a").unwrap().spawn_timer);
    assert!(!c.submit(1, one("w", 4.0), "b").unwrap().spawn_timer);
    match c.time_out(1) {
        Closing::Closed { submitted, new_round, params, waiters } => {
            assert_eq!((submitted, new_round, read(&params)), (2, 2, 3.0));
            assert_eq!(waiters, vec!["a", "b"]);
        }
        _ => panic!("expected the round to close"),
    }
    assert!(matches!(c.time_out(1), Closing::Stale));
}

#[test]
fn a_timeout_with_too_few_workers_changes_nothing() {
    let mut c = coordinator(3, None);
    c.submit(1, one("w", 2.0), "a").unwrap();
    assert!(matches!(c.time_out(1), Closing::TooFew { submitted: 1 }));
    assert_eq!((c.round(), c.submitted()), (1, 1));
    assert!(!c.submit(1, one("w", 2.0), "b").unwrap().spawn_timer);
}
