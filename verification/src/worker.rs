//! The worker's side of a run: which rounds it trains, when it reports one as completed,
//! and how it gets back in step after it has missed one.
use crate::coordinator::{Closing, Coordinator, Refusal, Submission};
use crate::params::ParamMap;
use vstd::prelude::*;

verus! {

/// How many times a worker tries to reach the coordinator.
pub const CONNECT_ATTEMPTS: u32 = 40;

/// Pause after a failed attempt, in milliseconds.
pub const CONNECT_PAUSE_MS: u64 = 500;

/// What to do after an attempt to connect has failed and the pause is over.
#[derive(Debug, Clone, Copy, PartialEq, Eq, Structural)]
pub enum Retry {
    /// Make this attempt, counted from 1.
    Attempt(u32),
    /// Report that the coordinator cannot be reached.
    GiveUp,
}

/// What follows a failed attempt: another one, as long as there are any left.
pub open spec fn retry_after(attempt: u32) -> Retry {
    if attempt < CONNECT_ATTEMPTS {
        Retry::Attempt((attempt + 1) as u32)
    } else {
        Retry::GiveUp
    }
}

/// The attempt that follows `attempt`, as long as there are any left.
pub fn after_failed_attempt(attempt: u32) -> (next: Retry)
    requires
        attempt >= 1,
    ensures
        next == retry_after(attempt),
{
    if attempt < CONNECT_ATTEMPTS {
        Retry::Attempt(attempt + 1)
    } else {
        Retry::GiveUp
    }
}

/// How an attempt to connect, and all that follow it, end: with which attempt the last was
/// made, and whether it succeeded. `succeeds` says of each attempt, counted from 1, whether it
/// would succeed.
pub open spec fn connects(succeeds: spec_fn(u32) -> bool, attempt: u32) -> (u32, bool)
    decreases CONNECT_ATTEMPTS - attempt,
{
    if succeeds(attempt) {
        (attempt, true)
    } else {
        match retry_after(attempt) {
            Retry::Attempt(next) => if attempt < next <= CONNECT_ATTEMPTS {
                connects(succeeds, next)
            } else {
                (attempt, false)
            },
            Retry::GiveUp => (attempt, false),
        }
    }
}

/// A worker connects with the first attempt that succeeds and makes no other after it.
pub proof fn law_first_success_connects(succeeds: spec_fn(u32) -> bool, first: u32)
    requires
        1 <= first <= CONNECT_ATTEMPTS,
        succeeds(first),
        forall|attempt: u32| 1 <= attempt < first ==> !(#[trigger] succeeds(attempt)),
    ensures
        connects(succeeds, 1) == (first, true),
{
    lemma_connects_from(succeeds, 1, first);
}

/// From any attempt on, the first one that succeeds connects.
proof fn lemma_connects_from(succeeds: spec_fn(u32) -> bool, attempt: u32, first: u32)
    requires
        1 <= attempt <= first <= CONNECT_ATTEMPTS,
        succeeds(first),
        forall|a: u32| attempt <= a < first ==> !(#[trigger] succeeds(a)),
    ensures
        connects(succeeds, attempt) == (first, true),
    decreases first - attempt,
{
    if attempt < first {
        assert(!succeeds(attempt));
        lemma_connects_from(succeeds, (attempt + 1) as u32, first);
    }
}

/// A worker gives up after all attempts have failed, and not before.
pub proof fn law_all_failures_give_up(succeeds: spec_fn(u32) -> bool)
    requires
        forall|attempt: u32| 1 <= attempt <= CONNECT_ATTEMPTS ==> !(#[trigger] succeeds(attempt)),
    ensures
        connects(succeeds, 1) == (CONNECT_ATTEMPTS, false),
{
    lemma_gives_up_from(succeeds, 1);
}

/// From any attempt on, failures lead to the last one.
proof fn lemma_gives_up_from(succeeds: spec_fn(u32) -> bool, attempt: u32)
    requires
        1 <= attempt <= CONNECT_ATTEMPTS,
        forall|a: u32| attempt <= a <= CONNECT_ATTEMPTS ==> !(#[trigger] succeeds(a)),
    ensures
        connects(succeeds, attempt) == (CONNECT_ATTEMPTS, false),
    decreases CONNECT_ATTEMPTS - attempt,
{
    assert(!succeeds(attempt));
    if attempt < CONNECT_ATTEMPTS {
        lemma_gives_up_from(succeeds, (attempt + 1) as u32);
    }
}

/// What came back from the coordinator.
#[derive(Debug, Clone, Copy, PartialEq, Eq, Structural)]
pub enum Reply {
    /// The round was closed; the reply holds the new parameters and the round to enter.
    Reduced { next_round: u64 },
    /// The coordinator is on another round.
    RoundMismatch,
    /// The current parameters and round, fetched to get back in step.
    Resynced { round: u64 },
    /// The request failed.
    Failed,
}

/// What the worker does next.
#[derive(Debug, Clone, Copy, PartialEq, Eq, Structural)]
pub enum Action {
    /// Train the current round from the parameters at hand, and send the result.
    Train,
    /// Fetch the current parameters and round.
    Resync,
    /// All rounds are done.
    Finish,
    /// Stop with an error in this round.
    Fail { round: u64 },
}

/// The round to report as completed, if the reply completes one, and what to do next.
#[derive(Debug, Clone, Copy, PartialEq, Eq, Structural)]
pub struct Transition {
    pub completed: Option<u64>,
    pub action: Action,
}

/// A worker's place in its run.
#[derive(Debug, Clone, Copy, PartialEq, Eq, Structural)]
pub struct WorkerRun {
    /// The round to train, counted from 1.
    pub round: u64,
    /// The last round of the run.
    pub rounds: u64,
}

impl WorkerRun {
    /// Train while there are rounds left.
    pub open spec fn on_round(self) -> Action {
        if self.round <= self.rounds {
            Action::Train
        } else {
            Action::Finish
        }
    }

    /// Where a reply leads, and what follows from it.
    pub open spec fn after(self, reply: Reply) -> (WorkerRun, Transition) {
        match reply {
            Reply::Reduced { next_round } => {
                let next = WorkerRun { round: next_round, ..self };
                (next, Transition { completed: Some(self.round), action: next.on_round() })
            },
            Reply::RoundMismatch => (
                self,
                Transition { completed: None, action: Action::Resync },
            ),
            Reply::Resynced { round } => {
                let next = WorkerRun { round, ..self };
                (next, Transition { completed: None, action: next.on_round() })
            },
            Reply::Failed => (
                self,
                Transition { completed: None, action: Action::Fail { round: self.round } },
            ),
        }
    }

    /// Start from the round that the coordinator is on: 1 for a fresh run, a later one for
    /// a worker that restarts.
    pub fn start(round: u64, rounds: u64) -> (start: (WorkerRun, Action))
        ensures
            start.0.round == round,
            start.0.rounds == rounds,
            start.1 == start.0.on_round(),
    {
        let run = WorkerRun { round, rounds };
        let action = run.action();
        (run, action)
    }

    /// Whether earlier rounds were missed.
    pub fn missed_rounds(&self) -> (b: bool)
        ensures
            b == (self.round > 1),
    {
        self.round > 1
    }

    /// Train while there are rounds left.
    pub fn action(&self) -> (action: Action)
        ensures
            action == self.on_round(),
    {
        if self.round <= self.rounds {
            Action::Train
        } else {
            Action::Finish
        }
    }

    /// Take in a reply. A closed round counts as completed and leads to the round that the
    /// coordinator names. After a mismatch the round's training is discarded, and the worker
    /// goes on from the round that it fetches.
    pub fn advance(&mut self, reply: Reply) -> (transition: Transition)
        ensures
            (*final(self), transition) == old(self).after(reply),
    {
        match reply {
            Reply::Reduced { next_round } => {
                let completed = Some(self.round);
                self.round = next_round;
                Transition { completed, action: self.action() }
            },
            Reply::RoundMismatch => Transition { completed: None, action: Action::Resync },
            Reply::Resynced { round } => {
                self.round = round;
                Transition { completed: None, action: self.action() }
            },
            Reply::Failed => Transition {
                completed: None,
                action: Action::Fail { round: self.round },
            },
        }
    }
}

/// Whether a worker writes metrics: only rank 0 does, and only when asked to.
pub fn writes_metrics(rank: u32, requested: bool) -> (b: bool)
    ensures
        b == (rank == 0 && requested),
{
    rank == 0 && requested
}

/// The state of an undisturbed run after `done` rounds: every reply names the round after
/// the one that was sent.
pub open spec fn undisturbed(start: WorkerRun, done: nat) -> WorkerRun
    decreases done,
{
    if done == 0 {
        start
    } else {
        let before = undisturbed(start, (done - 1) as nat);
        before.after(Reply::Reduced { next_round: (before.round + 1) as u64 }).0
    }
}

/// A fresh worker whose every reply names the next round completes the rounds 1 to
/// `rounds` in order, each once, and then finishes.
pub proof fn law_undisturbed_run(rounds: u64, done: nat)
    requires
        done <= rounds < u64::MAX,
    ensures
        ({
            let run = undisturbed(WorkerRun { round: 1, rounds }, done);
            &&& run.round == done + 1
            &&& run.rounds == rounds
            &&& run.on_round() == (if done < rounds { Action::Train } else { Action::Finish })
            &&& run.after(Reply::Reduced { next_round: (run.round + 1) as u64 }).1.completed == Some(
                (done + 1) as u64,
            )
        }),
    decreases done,
{
    if done > 0 {
        law_undisturbed_run(rounds, (done - 1) as nat);
    }
}

/// A worker that was refused trains next what the coordinator is on, and reports nothing
/// for the round that it discarded.
pub proof fn law_resync_discards_the_round(run: WorkerRun, round: u64)
    ensures
        run.after(Reply::RoundMismatch).0 == run,
        run.after(Reply::RoundMismatch).1.completed is None,
        run.after(Reply::RoundMismatch).1.action == Action::Resync,
        ({
            let (next, transition) = run.after(Reply::RoundMismatch).0.after(
                Reply::Resynced { round },
            );
            &&& next.round == round
            &&& next.rounds == run.rounds
            &&& transition.completed is None
            &&& transition.action == next.on_round()
        }),
{
}

/// A worker that trained the coordinator's round and is answered when it closes is on the
/// coordinator's new round: the round that it sends next is accepted.
pub proof fn law_answered_worker_is_in_step<W>(
    run: WorkerRun,
    c: Coordinator<W>,
    closed: Coordinator<W>,
    min_workers: usize,
    closing: Closing<W>,
    after: Coordinator<W>,
    local: ParamMap,
    waiter: W,
    outcome: Result<Submission, Refusal>,
)
    requires
        run.round == c.current_round(),
        c.closes(closed, run.round, min_workers, closing),
        closing is Closed,
        closed.submits(
            after,
            run.after(Reply::Reduced { next_round: closing->new_round }).0.round,
            local,
            waiter,
            outcome,
        ),
    ensures
        run.after(Reply::Reduced { next_round: closing->new_round }).0.round == run.round + 1,
        outcome is Ok,
{
}

/// What a reply leads to, case by case. A closed round, and nothing else, completes the round
/// that was trained. The reply that names a round moves the worker there, and any other leaves
/// it where it is; the last round of the run never changes. The worker gets back in step after
/// a mismatch only, fails after a failed request only, in the round that it was on, and
/// otherwise trains as long as there are rounds left.
pub proof fn law_replies_case_by_case(run: WorkerRun, reply: Reply)
    ensures
        ({
            let (next, transition) = run.after(reply);
            &&& next.rounds == run.rounds
            &&& next.round == (match reply {
                Reply::Reduced { next_round } => next_round,
                Reply::Resynced { round } => round,
                _ => run.round,
            })
            &&& transition.completed is Some <==> reply is Reduced
            &&& transition.completed matches Some(r) ==> r == run.round
            &&& transition.action is Resync <==> reply is RoundMismatch
            &&& transition.action is Fail <==> reply is Failed
            &&& transition.action matches Action::Fail { round } ==> round == run.round
            &&& transition.action is Train <==> (reply is Reduced || reply is Resynced) && next.round
                <= run.rounds
            &&& transition.action is Finish <==> (reply is Reduced || reply is Resynced)
                && next.round > run.rounds
        }),
{
}

/// A worker trains just the rounds that are left when it starts: none where the run is over.
pub proof fn law_no_round_is_trained_after_the_last(run: WorkerRun)
    ensures
        run.on_round() is Train <==> run.round <= run.rounds,
        run.on_round() is Finish <==> run.round > run.rounds,
{
}

/// A worker makes forty attempts, half a second apart: it waits for twenty seconds in all
/// before it gives up.
pub proof fn law_attempts_are_counted(attempt: u32)
    requires
        attempt >= 1,
    ensures
        retry_after(attempt) is GiveUp <==> attempt >= 40,
        attempt < 40 ==> retry_after(attempt) == Retry::Attempt((attempt + 1) as u32),
        CONNECT_PAUSE_MS == 500,
        40 * CONNECT_PAUSE_MS == 20_000,
{
}

} // verus!
