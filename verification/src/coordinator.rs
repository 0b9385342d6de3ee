//! The coordinator's round: it collects one set of locally trained parameters per
//! worker, steps the outer optimizer once the round closes, and answers every worker
//! that waits with the new global parameters.
//!
//! What a worker waits on is left to the caller: a waiter of type `W` is handed in
//! with each submission and handed back when there is an answer for it. A waiter that
//! is dropped has been canceled.
use crate::outer::{views, OuterOptimizer, StepError};
use crate::params::{
    all_full_precision, archived, deserialize, is_restorable, restored, serialize, ParamMap,
    ParamsError,
};
use crate::text::{decimal, push_decimal};
use vstd::prelude::*;

verus! {

/// The shared state of all connections: the global parameters, the outer optimizer and
/// the round that is being collected.
pub struct Coordinator<W> {
    global: ParamMap,
    outer: OuterOptimizer,
    /// The round currently being collected, counted from 1.
    round: u64,
    /// Parameter sets submitted so far this round, one per worker.
    pending: Vec<ParamMap>,
    /// One waiter per submission.
    waiters: Vec<W>,
    /// Whether the timeout of the current round has been started. It stays so where an outer
    /// step fails and the round is collected again, unless it was the timeout itself that
    /// closed the round.
    timer_spawned: bool,
    /// Number of workers expected each round.
    world_size: usize,
    /// Submissions that a round needs to be closed by its timeout.
    min_workers: usize,
}

/// An accepted submission, and what has to follow it.
#[derive(Debug, Clone, Copy, PartialEq, Eq, Structural)]
pub struct Submission {
    /// The round that it belongs to.
    pub round: u64,
    /// Submissions of that round so far, this one counted.
    pub submitted: usize,
    /// Whether the round's timeout has to be started.
    pub spawn_timer: bool,
    /// Whether all workers have submitted, so that the round has to be closed.
    pub all_in: bool,
}

/// Why a submission was refused.
#[derive(Debug)]
pub enum Refusal {
    /// The payload does not hold parameters.
    BadPayload(ParamsError),
    /// The worker is on another round than the coordinator.
    RoundMismatch { sent: u64, current: u64 },
}

/// What a worker on another round is told.
pub open spec fn mismatch_text(rank: nat, sent: nat, current: nat) -> Seq<char> {
    "worker "@ + decimal(rank) + " sent round "@ + decimal(sent)
        + " but coordinator is on round "@ + decimal(current) + " — call Init to resync"@
}

/// Tell a worker on another round what is wrong and what to do about it.
pub fn mismatch_message(rank: u32, sent: u64, current: u64) -> (text: String)
    ensures
        text@ == mismatch_text(rank as nat, sent as nat, current as nat),
{
    let mut text = "worker ".to_owned();
    push_decimal(&mut text, rank as u64);
    text.append(" sent round ");
    push_decimal(&mut text, sent);
    text.append(" but coordinator is on round ");
    push_decimal(&mut text, current);
    text.append(" — call Init to resync");
    text
}

/// Where the parameters of a new run come from.
#[derive(Debug, Clone, Copy, PartialEq, Eq, Structural)]
pub enum InitialParams {
    /// From the file that was named.
    Load,
    /// Made at random, and saved in the file that was named.
    Save,
    /// Made at random.
    Fresh,
}

/// Where the parameters of a new run come from, given whether a file was named for them
/// and whether it exists.
pub fn initial_params(file_exists: Option<bool>) -> (source: InitialParams)
    ensures
        source == (match file_exists {
            Some(true) => InitialParams::Load,
            Some(false) => InitialParams::Save,
            None => InitialParams::Fresh,
        }),
{
    match file_exists {
        Some(true) => InitialParams::Load,
        Some(false) => InitialParams::Save,
        None => InitialParams::Fresh,
    }
}

/// How an attempt to close a round ended.
pub enum Closing<W> {
    /// The round had been closed before.
    Stale,
    /// Too few workers have submitted.
    TooFew { submitted: usize },
    /// The outer step failed; the round's submissions and waiters are dropped.
    StepFailed { error: StepError },
    /// The new parameters could not be serialized; the round's waiters are dropped.
    SerializeFailed { cause: ParamsError },
    /// The round is closed: each waiter is to be sent the parameters and the new round.
    Closed { submitted: usize, new_round: u64, params: Vec<u8>, waiters: Vec<W> },
}

impl<W> Coordinator<W> {
    pub closed spec fn global(self) -> ParamMap {
        self.global
    }

    pub closed spec fn outer(self) -> OuterOptimizer {
        self.outer
    }

    /// The round that is being collected.
    pub closed spec fn current_round(self) -> u64 {
        self.round
    }

    /// What has been submitted this round.
    pub closed spec fn pending(self) -> Seq<ParamMap> {
        self.pending@
    }

    /// Who waits for an answer.
    pub closed spec fn waiters(self) -> Seq<W> {
        self.waiters@
    }

    pub closed spec fn timer_spawned(self) -> bool {
        self.timer_spawned
    }

    pub closed spec fn expected_workers(self) -> usize {
        self.world_size
    }

    pub closed spec fn timeout_workers(self) -> usize {
        self.min_workers
    }

    /// The parameters are in full precision, each has a momentum, and there is exactly one
    /// waiter per submission.
    pub open spec fn wf(self) -> bool {
        &&& self.global().wf()
        &&& all_full_precision(self.global()@)
        &&& self.outer().wf()
        &&& self.outer().is_full_precision()
        &&& self.outer().covers(self.global()@)
        &&& forall|i: int| 0 <= i < self.pending().len() ==> (#[trigger] self.pending()[i]).wf()
        &&& self.pending().len() == self.waiters().len()
        &&& self.pending().len() <= isize::MAX
    }

    /// `params` and `round` are what a worker has to go on from: the archive of the global
    /// parameters and the current round.
    pub open spec fn serves(self, params: Seq<u8>, round: u64) -> bool {
        archived(self.global()@) == Some(params) && round == self.current_round()
    }

    /// `after` differs from `self` at most in the submissions, the waiters and the timer.
    pub open spec fn same_model(self, after: Coordinator<W>) -> bool {
        &&& after.global() == self.global()
        &&& after.outer() == self.outer()
        &&& after.current_round() == self.current_round()
        &&& after.expected_workers() == self.expected_workers()
        &&& after.timeout_workers() == self.timeout_workers()
    }

    /// A submission of `local` for the current round, with `waiter` to be answered, leads
    /// from `self` to `after`.
    pub open spec fn accepts(
        self,
        after: Coordinator<W>,
        local: ParamMap,
        waiter: W,
        submission: Submission,
    ) -> bool {
        &&& self.same_model(after)
        &&& after.pending() == self.pending().push(local)
        &&& after.waiters() == self.waiters().push(waiter)
        &&& after.timer_spawned()
        &&& submission.round == self.current_round()
        &&& submission.submitted == self.pending().len() + 1
        &&& submission.spawn_timer == !self.timer_spawned()
        &&& submission.all_in == (submission.submitted == self.expected_workers())
    }

    /// A submission of `local` by a worker on `round` leads from `self` to `after` and is
    /// answered by `outcome`: it is accepted on the current round, and otherwise refused
    /// without any effect.
    pub open spec fn submits(
        self,
        after: Coordinator<W>,
        round: u64,
        local: ParamMap,
        waiter: W,
        outcome: Result<Submission, Refusal>,
    ) -> bool {
        match outcome {
            Ok(submission) => round == self.current_round() && self.accepts(
                after,
                local,
                waiter,
                submission,
            ),
            Err(refusal) => {
                &&& round != self.current_round()
                &&& after == self
                &&& refusal matches Refusal::RoundMismatch { sent, current }
                &&& sent == round
                &&& current == self.current_round()
            },
        }
    }

    /// The submissions and waiters of the round are gone in `after`.
    pub open spec fn emptied(self, after: Coordinator<W>) -> bool {
        &&& after.pending() == Seq::<ParamMap>::empty()
        &&& after.waiters() == Seq::<W>::empty()
        &&& after.expected_workers() == self.expected_workers()
        &&& after.timeout_workers() == self.timeout_workers()
        &&& after.global()@.dom() == self.global()@.dom()
    }

    /// The outer step over all submissions leads from `self` to `after`.
    pub open spec fn steps_to(self, after: Coordinator<W>) -> bool {
        &&& self.pending().len() > 0
        &&& self.outer().has_stepped(
            self.global().entries(),
            after.outer(),
            after.global().entries(),
            views(self.pending()),
            self.global().entries().len() as int,
        )
    }

    /// The outer step over the submissions stops with `error`, leaving `after`.
    pub open spec fn step_stops(self, after: Coordinator<W>, error: StepError) -> bool {
        self.outer().stops(
            self.global(),
            after.outer(),
            after.global(),
            views(self.pending()),
            error,
        )
    }

    /// An attempt to close `expected_round` with at least `min_workers` submissions leads
    /// from `self` to `after` and ends as `closing` says.
    pub open spec fn closes(
        self,
        after: Coordinator<W>,
        expected_round: u64,
        min_workers: usize,
        closing: Closing<W>,
    ) -> bool {
        if self.current_round() != expected_round {
            closing is Stale && after == self
        } else if self.pending().len() < min_workers {
            closing matches Closing::TooFew { submitted } && submitted == self.pending().len()
                && after == self
        } else {
            &&& self.emptied(after)
            &&& match closing {
                Closing::StepFailed { error } => {
                    &&& self.step_stops(after, error)
                    &&& after.current_round() == self.current_round()
                    &&& after.timer_spawned() == self.timer_spawned()
                },
                Closing::SerializeFailed { cause } => {
                    &&& self.steps_to(after)
                    &&& archived(after.global()@) is None
                    &&& cause is Archive
                    &&& after.current_round() == self.current_round()
                    &&& after.timer_spawned() == self.timer_spawned()
                },
                Closing::Closed { submitted, new_round, params, waiters } => {
                    &&& self.steps_to(after)
                    &&& archived(after.global()@) == Some(params@)
                    &&& is_restorable(after.global()@) ==> restored(params@) == Some(
                        after.global()@,
                    )
                    &&& submitted == self.pending().len()
                    &&& new_round == self.current_round() + 1
                    &&& after.current_round() == new_round
                    &&& !after.timer_spawned()
                    &&& waiters@ == self.waiters()
                },
                _ => false,
            }
        }
    }

    /// `after` differs from `self` at most in whether the timeout has been started.
    pub open spec fn same_but_timer(self, after: Coordinator<W>) -> bool {
        &&& self.same_model(after)
        &&& after.pending() == self.pending()
        &&& after.waiters() == self.waiters()
    }

    /// The timeout of `round` leads from `self` to `after` and ends as `closing` says: the
    /// round is closed as by anyone else, with the submissions that a timeout needs. Where
    /// that fails, the round goes on without a timeout, so that a new one can be started.
    pub open spec fn times_out(self, after: Coordinator<W>, round: u64, closing: Closing<W>) -> bool {
        exists|closed: Coordinator<W>|
            {
                &&& #[trigger] self.closes(closed, round, self.timeout_workers(), closing)
                &&& if closing is StepFailed || closing is SerializeFailed {
                    closed.same_but_timer(after) && !after.timer_spawned()
                } else {
                    after == closed
                }
            }
    }

    /// Round 1 of a run that starts from `global`, with the outer optimizer made for it.
    /// Where no minimum is given, a timeout needs all `world_size` workers.
    pub fn new(
        global: ParamMap,
        outer: OuterOptimizer,
        world_size: usize,
        min_workers: Option<usize>,
    ) -> (c: Coordinator<W>)
        requires
            global.wf(),
            all_full_precision(global@),
            outer.wf(),
            outer.is_full_precision(),
            outer.covers(global@),
        ensures
            c.wf(),
            c.global() == global,
            c.outer() == outer,
            c.current_round() == 1,
            c.pending() == Seq::<ParamMap>::empty(),
            c.waiters() == Seq::<W>::empty(),
            !c.timer_spawned(),
            c.expected_workers() == world_size,
            c.timeout_workers() == (match min_workers {
                Some(n) => n,
                None => world_size,
            }),
    {
        let min_workers = match min_workers {
            Some(n) => n,
            None => world_size,
        };
        Coordinator {
            global,
            outer,
            round: 1,
            pending: Vec::new(),
            waiters: Vec::new(),
            timer_spawned: false,
            world_size,
            min_workers,
        }
    }

    /// The round that is being collected.
    pub fn round(&self) -> (round: u64)
        ensures
            round == self.current_round(),
    {
        self.round
    }

    /// How many submissions the round has.
    pub fn submitted(&self) -> (n: usize)
        ensures
            n == self.pending().len(),
    {
        self.pending.len()
    }

    /// The number of workers expected each round.
    pub fn world_size(&self) -> (n: usize)
        ensures
            n == self.expected_workers(),
    {
        self.world_size
    }

    /// The number of submissions that a round needs to be closed by its timeout.
    pub fn min_workers(&self) -> (n: usize)
        ensures
            n == self.timeout_workers(),
    {
        self.min_workers
    }

    /// Serve the current global parameters and the current round number. Works for both
    /// fresh worker starts and mid-run resyncs.
    pub fn init(&self) -> (reply: Result<(Vec<u8>, u64), ParamsError>)
        requires
            self.wf(),
        ensures
            reply is Ok <==> archived(self.global()@) is Some,
            reply matches Ok(r) ==> self.serves(r.0@, r.1),
            is_restorable(self.global()@) ==> (reply matches Ok(r) ==> restored(r.0@) == Some(
                self.global()@,
            )),
            reply matches Err(e) ==> e is Archive,
    {
        match serialize(&self.global) {
            Ok(bytes) => Ok((bytes, self.round)),
            Err(e) => Err(e),
        }
    }

    /// Take in the locally trained parameters of a worker that is on `round`. A worker on
    /// another round is refused and nothing changes.
    pub fn submit(&mut self, round: u64, local: ParamMap, waiter: W) -> (outcome: Result<
        Submission,
        Refusal,
    >)
        requires
            old(self).wf(),
            local.wf(),
            old(self).pending().len() < isize::MAX,
        ensures
            final(self).wf(),
            old(self).submits(*final(self), round, local, waiter, outcome),
    {
        if round != self.round {
            return Err(Refusal::RoundMismatch { sent: round, current: self.round });
        }
        self.pending.push(local);
        self.waiters.push(waiter);
        let submitted = self.pending.len();
        let spawn_timer = !self.timer_spawned;
        if spawn_timer {
            self.timer_spawned = true;
        }
        let all_in = submitted == self.world_size;
        Ok(Submission { round: self.round, submitted, spawn_timer, all_in })
    }

    /// Take in a worker's all-reduce request. A payload that does not hold parameters is
    /// refused before the round is looked at; a refused request changes nothing.
    pub fn all_reduce(&mut self, round: u64, payload: &[u8], waiter: W) -> (outcome: Result<
        Submission,
        Refusal,
    >)
        requires
            old(self).wf(),
            old(self).pending().len() < isize::MAX,
        ensures
            final(self).wf(),
            restored(payload@) is None ==> *final(self) == *old(self) && (outcome matches Err(e)
                && e is BadPayload),
            restored(payload@) matches Some(sent) ==> exists|local: ParamMap|
                local@ == sent && #[trigger] old(self).submits(
                    *final(self),
                    round,
                    local,
                    waiter,
                    outcome,
                ),
    {
        self.take_in(round, deserialize(payload), waiter)
    }

    /// Take in an all-reduce request whose payload has been decoded, with or without success.
    pub fn take_in(
        &mut self,
        round: u64,
        decoded: Result<ParamMap, ParamsError>,
        waiter: W,
    ) -> (outcome: Result<Submission, Refusal>)
        requires
            old(self).wf(),
            decoded matches Ok(local) ==> local.wf(),
            old(self).pending().len() < isize::MAX,
        ensures
            final(self).wf(),
            match decoded {
                Ok(local) => old(self).submits(*final(self), round, local, waiter, outcome),
                Err(e) => *final(self) == *old(self) && outcome == Err::<Submission, Refusal>(
                    Refusal::BadPayload(e),
                ),
            },
    {
        match decoded {
            Ok(local) => self.submit(round, local, waiter),
            Err(e) => Err(Refusal::BadPayload(e)),
        }
    }

    /// Close `expected_round` if it is still the current round and at least `min_workers`
    /// submissions are present. This is the natural path, when all workers have submitted.
    pub fn close_round(&mut self, expected_round: u64, min_workers: usize) -> (closing: Closing<W>)
        requires
            old(self).wf(),
            old(self).current_round() < u64::MAX,
        ensures
            final(self).wf(),
            old(self).closes(*final(self), expected_round, min_workers, closing),
    {
        if self.round != expected_round {
            return Closing::Stale;
        }
        if self.pending.len() < min_workers {
            return Closing::TooFew { submitted: self.pending.len() };
        }
        let submitted = self.pending.len();
        let mut pending: Vec<ParamMap> = Vec::new();
        let mut waiters: Vec<W> = Vec::new();
        std::mem::swap(&mut pending, &mut self.pending);
        std::mem::swap(&mut waiters, &mut self.waiters);

        let locals = pending.as_slice();
        assert(locals@ == old(self).pending());
        match self.outer.step(&mut self.global, locals) {
            Ok(()) => {},
            Err(error) => return Closing::StepFailed { error },
        }
        match serialize(&self.global) {
            Ok(params) => {
                self.round = self.round + 1;
                self.timer_spawned = false;
                Closing::Closed { submitted, new_round: self.round, params, waiters }
            },
            Err(cause) => Closing::SerializeFailed { cause },
        }
    }

    /// The timeout of `round` has passed: close the round if it is still the current one and
    /// has as many submissions as a timeout needs. The timeout is over then. If the round has
    /// to be collected again because its outer step failed, its next submission starts a new
    /// one, so that a dead worker does not stall it.
    pub fn time_out(&mut self, round: u64) -> (closing: Closing<W>)
        requires
            old(self).wf(),
            old(self).current_round() < u64::MAX,
        ensures
            final(self).wf(),
            old(self).times_out(*final(self), round, closing),
    {
        let closing = self.close_round(round, self.min_workers);
        let ghost closed = *self;
        match closing {
            Closing::StepFailed { .. } => {
                self.timer_spawned = false;
            },
            Closing::SerializeFailed { .. } => {
                self.timer_spawned = false;
            },
            _ => {},
        }
        assert(old(self).closes(closed, round, old(self).timeout_workers(), closing));
        closing
    }
}

/// The round number never falls: an attempt to close a round moves it on by one where it
/// succeeds, and leaves it alone otherwise.
pub proof fn law_round_moves_by_one<W>(
    c: Coordinator<W>,
    after: Coordinator<W>,
    expected_round: u64,
    min_workers: usize,
    closing: Closing<W>,
)
    requires
        c.closes(after, expected_round, min_workers, closing),
    ensures
        closing is Closed ==> after.current_round() == c.current_round() + 1,
        !(closing is Closed) ==> after.current_round() == c.current_round(),
{
}

/// A round is closed at most once: after it has been closed, every further attempt, such
/// as that of its timeout, finds it stale and changes nothing.
pub proof fn law_closed_once<W>(
    c: Coordinator<W>,
    closed: Coordinator<W>,
    after: Coordinator<W>,
    round: u64,
    min_workers: usize,
    later_min_workers: usize,
    first: Closing<W>,
    second: Closing<W>,
)
    requires
        c.closes(closed, round, min_workers, first),
        first is Closed,
        closed.closes(after, round, later_min_workers, second),
    ensures
        second is Stale,
        after == closed,
{
}

/// A worker that missed the end of its round is refused, is told the round that the
/// coordinator is on, and changes nothing; with that round it is then accepted.
pub proof fn law_late_worker_resyncs<W>(
    c: Coordinator<W>,
    closed: Coordinator<W>,
    refused: Coordinator<W>,
    after: Coordinator<W>,
    round: u64,
    min_workers: usize,
    closing: Closing<W>,
    late: ParamMap,
    late_waiter: W,
    refusal: Result<Submission, Refusal>,
    local: ParamMap,
    waiter: W,
    outcome: Result<Submission, Refusal>,
)
    requires
        c.closes(closed, round, min_workers, closing),
        closing is Closed,
        closed.submits(refused, round, late, late_waiter, refusal),
        refused.submits(after, closed.current_round(), local, waiter, outcome),
    ensures
        refusal matches Err(Refusal::RoundMismatch { sent, current }) && sent == round && current
            == closed.current_round(),
        refused == closed,
        outcome is Ok,
        after.pending() == seq![local],
{
    assert(after.pending() =~= seq![local]);
}

/// Every worker whose submission was accepted is answered when the round closes: its
/// waiter is among those handed back, behind the ones that came before it.
pub proof fn law_waiters_are_answered<W>(
    c: Coordinator<W>,
    submitted: Coordinator<W>,
    after: Coordinator<W>,
    round: u64,
    local: ParamMap,
    waiter: W,
    submission: Submission,
    min_workers: usize,
    closing: Closing<W>,
)
    requires
        c.wf(),
        c.submits(submitted, round, local, waiter, Ok(submission)),
        submitted.closes(after, round, min_workers, closing),
        closing is Closed,
    ensures
        closing->waiters@ == c.waiters().push(waiter),
        closing->waiters@.len() == closing->Closed_submitted,
        after.waiters().len() == 0,
{
}

/// All workers go on from the same parameters and round: whoever asks for them once a round
/// has been closed gets the very bytes and round that its waiters were sent.
pub proof fn law_workers_go_on_alike<W>(
    c: Coordinator<W>,
    after: Coordinator<W>,
    expected_round: u64,
    min_workers: usize,
    closing: Closing<W>,
    params: Seq<u8>,
    round: u64,
)
    requires
        c.closes(after, expected_round, min_workers, closing),
        closing is Closed,
        after.serves(params, round),
    ensures
        params == closing->params@,
        round == closing->new_round,
{
}

/// Once a round has been closed, the first submission of the next one starts a new timeout.
pub proof fn law_timer_restarts<W>(
    c: Coordinator<W>,
    emptied: Coordinator<W>,
    after: Coordinator<W>,
    round: u64,
    min_workers: usize,
    closing: Closing<W>,
    local: ParamMap,
    waiter: W,
    submission: Submission,
)
    requires
        c.closes(emptied, round, min_workers, closing),
        closing is Closed,
        emptied.submits(after, emptied.current_round(), local, waiter, Ok(submission)),
    ensures
        submission.spawn_timer,
        submission.submitted == 1,
{
}

/// When the last expected worker has submitted, closing the round for all workers is
/// neither stale nor short of submissions.
pub proof fn law_full_round_closes<W>(
    c: Coordinator<W>,
    full: Coordinator<W>,
    after: Coordinator<W>,
    round: u64,
    local: ParamMap,
    waiter: W,
    submission: Submission,
    closing: Closing<W>,
)
    requires
        c.submits(full, round, local, waiter, Ok(submission)),
        submission.all_in,
        full.closes(after, submission.round, full.expected_workers(), closing),
    ensures
        !(closing is Stale),
        !(closing is TooFew),
        closing is Closed ==> closing->Closed_submitted == c.expected_workers(),
{
}

/// Where the timeout needs all workers, it never closes a round that lacks one: it leaves
/// everything as it was.
pub proof fn law_timeout_only_warns<W>(
    c: Coordinator<W>,
    after: Coordinator<W>,
    round: u64,
    closing: Closing<W>,
)
    requires
        c.timeout_workers() == c.expected_workers(),
        c.pending().len() < c.expected_workers(),
        c.times_out(after, round, closing),
    ensures
        closing is Stale || closing is TooFew,
        after == c,
{
}

/// A round whose outer step failed is collected again: its number stays, and all that was
/// submitted is gone.
pub proof fn law_failed_round_is_repeated<W>(
    c: Coordinator<W>,
    failed: Coordinator<W>,
    after: Coordinator<W>,
    round: u64,
    min_workers: usize,
    error: StepError,
    local: ParamMap,
    waiter: W,
    outcome: Result<Submission, Refusal>,
)
    requires
        c.closes(failed, round, min_workers, Closing::StepFailed { error }),
        failed.submits(after, round, local, waiter, outcome),
    ensures
        outcome is Ok,
        after.pending() == seq![local],
{
    assert(after.pending() =~= seq![local]);
}

/// A timeout that fails leaves room for another: the next submission of the round, which is
/// collected again, starts one.
pub proof fn law_failed_timeout_is_renewed<W>(
    c: Coordinator<W>,
    failed: Coordinator<W>,
    after: Coordinator<W>,
    round: u64,
    closing: Closing<W>,
    local: ParamMap,
    waiter: W,
    outcome: Result<Submission, Refusal>,
)
    requires
        c.times_out(failed, round, closing),
        closing is StepFailed || closing is SerializeFailed,
        failed.submits(after, round, local, waiter, outcome),
    ensures
        outcome matches Ok(submission) && submission.spawn_timer && submission.submitted == 1,
{
    let closed = choose|closed: Coordinator<W>|
        {
            &&& #[trigger] c.closes(closed, round, c.timeout_workers(), closing)
            &&& closed.same_but_timer(failed) && !failed.timer_spawned()
        };
    assert(closed.current_round() == round);
}

/// A worker that asks where to go on from is given the current round and the archive of the
/// current parameters, and nothing else.
pub proof fn law_workers_go_on_from_the_current_state<W>(
    c: Coordinator<W>,
    params: Seq<u8>,
    round: u64,
)
    ensures
        c.serves(params, round) <==> round == c.current_round() && archived(c.global()@) == Some(
            params,
        ),
{
}

/// A worker on another round is told its rank, the round that it sent and the round that it
/// should be on, in this order, and what to do about it.
pub proof fn law_mismatch_names_both_rounds(rank: nat, sent: nat, current: nat)
    ensures
        exists|rest: Seq<char>|
            mismatch_text(rank, sent, current) == #[trigger] ("worker "@ + decimal(rank)
                + " sent round "@ + decimal(sent) + rest),
        exists|before: Seq<char>|
            mismatch_text(rank, sent, current) == #[trigger] (before + " is on round "@ + decimal(
                current,
            ) + " — call Init to resync"@),
{
    reveal_strlit(" but coordinator is on round ");
    reveal_strlit(" is on round ");
    let text = mismatch_text(rank, sent, current);
    let start = "worker "@ + decimal(rank) + " sent round "@ + decimal(sent);
    let middle = " but coordinator is on round "@;
    assert(text =~= start + text.skip(start.len() as int));
    assert(middle.subrange(16, 29) =~= " is on round "@);
    let before = text.take((start.len() + 16) as int);
    assert(text =~= before + " is on round "@ + decimal(current) + " — call Init to resync"@);
}

} // verus!
